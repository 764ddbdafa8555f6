//! The identity of one symbol database: an ordered, filename-derivable key
//! made of a name, a three-part version and a build tag.
use vstd::prelude::*;

use crate::text::{
    chars_lt, dec_chars, find_char, find_char_from, is_dec_digit, lemma_chars_lt_asymmetric,
    lemma_chars_lt_irreflexive, lemma_chars_lt_transitive, lemma_chars_lt_trichotomy,
    lemma_dec_chars_digits, lemma_find_skips, parse_dec, push_dec, spec_parse_dec, str_lt,
};

verus! {

/// Mathematical view of an identity.
pub struct SdkInfoView {
    pub name: Seq<char>,
    pub version_major: u32,
    pub version_minor: u32,
    pub version_patch: u32,
    pub build: Seq<char>,
}

/// Characters allowed in a name or build section of an identity: they keep
/// the canonical string form unambiguous (no `_`, `.` or other separators).
pub open spec fn is_ident_char(c: char) -> bool {
    ('a' <= c && c <= 'z') || ('A' <= c && c <= 'Z') || ('0' <= c && c <= '9') || c == '-'
}

pub open spec fn wf_ident_chars(s: Seq<char>) -> bool {
    &&& s.len() > 0
    &&& forall|i: int| 0 <= i < s.len() ==> is_ident_char(#[trigger] s[i])
}

/// A well-formed identity: its canonical string form parses back losslessly.
pub open spec fn wf_info(v: SdkInfoView) -> bool {
    wf_ident_chars(v.name) && wf_ident_chars(v.build)
}

/// Identity of a symbol database.
#[derive(Debug, PartialEq, Eq, Hash)]
pub struct SdkInfo {
    name: String,
    version_major: u32,
    version_minor: u32,
    version_patch: u32,
    build: String,
}

impl View for SdkInfo {
    type V = SdkInfoView;

    closed spec fn view(&self) -> SdkInfoView {
        SdkInfoView {
            name: self.name@,
            version_major: self.version_major,
            version_minor: self.version_minor,
            version_patch: self.version_patch,
            build: self.build@,
        }
    }
}

impl Clone for SdkInfo {
    fn clone(&self) -> (r: Self)
        ensures
            r@ == self@,
    {
        SdkInfo {
            name: self.name.clone(),
            version_major: self.version_major,
            version_minor: self.version_minor,
            version_patch: self.version_patch,
            build: self.build.clone(),
        }
    }
}

/// Strict total order on identities: by name, then version, then build.
pub open spec fn info_lt(a: SdkInfoView, b: SdkInfoView) -> bool {
    if a.name != b.name {
        chars_lt(a.name, b.name)
    } else if a.version_major != b.version_major {
        a.version_major < b.version_major
    } else if a.version_minor != b.version_minor {
        a.version_minor < b.version_minor
    } else if a.version_patch != b.version_patch {
        a.version_patch < b.version_patch
    } else {
        chars_lt(a.build, b.build)
    }
}

pub proof fn lemma_info_lt_trichotomy(a: SdkInfoView, b: SdkInfoView)
    ensures
        info_lt(a, b) || info_lt(b, a) || a == b,
{
    lemma_chars_lt_trichotomy(a.name, b.name);
    lemma_chars_lt_trichotomy(a.build, b.build);
}

pub proof fn lemma_info_lt_irreflexive(a: SdkInfoView)
    ensures
        !info_lt(a, a),
{
    lemma_chars_lt_irreflexive(a.name);
    lemma_chars_lt_irreflexive(a.build);
}

pub proof fn lemma_info_lt_asymmetric(a: SdkInfoView, b: SdkInfoView)
    requires
        info_lt(a, b),
    ensures
        !info_lt(b, a),
{
    if a.name != b.name {
        lemma_chars_lt_asymmetric(a.name, b.name);
    } else if a.version_major == b.version_major && a.version_minor == b.version_minor
        && a.version_patch == b.version_patch {
        lemma_chars_lt_asymmetric(a.build, b.build);
    }
}

pub proof fn lemma_info_lt_transitive(a: SdkInfoView, b: SdkInfoView, c: SdkInfoView)
    requires
        info_lt(a, b),
        info_lt(b, c),
    ensures
        info_lt(a, c),
{
    if a.name != b.name || b.name != c.name {
        if a.name != b.name && b.name != c.name {
            lemma_chars_lt_transitive(a.name, b.name, c.name);
            if a.name == c.name {
                lemma_chars_lt_asymmetric(a.name, b.name);
            }
        }
    } else {
        if a.version_major == c.version_major && a.version_minor == c.version_minor
            && a.version_patch == c.version_patch {
            lemma_chars_lt_transitive(a.build, b.build, c.build);
        }
    }
}

/// The canonical textual identifier: `name_major.minor.patch_build`.
pub open spec fn spec_sdk_id(v: SdkInfoView) -> Seq<char> {
    v.name + seq!['_'] + dec_chars(v.version_major as nat) + seq!['.'] + dec_chars(
        v.version_minor as nat,
    ) + seq!['.'] + dec_chars(v.version_patch as nat) + seq!['_'] + v.build
}

/// The canonical local filename: the identifier plus the `.memdb` extension.
pub open spec fn spec_memdb_filename(v: SdkInfoView) -> Seq<char> {
    spec_sdk_id(v) + seq!['.', 'm', 'e', 'm', 'd', 'b']
}

/// Parses a `major.minor.patch` version section.
pub open spec fn spec_parse_version(ver: Seq<char>) -> Option<(u32, u32, u32)> {
    let d1 = find_char_from(ver, '.', 0);
    let d2 = find_char_from(ver, '.', d1 + 1);
    if d1 == ver.len() || d2 == ver.len() || find_char_from(ver, '.', d2 + 1) != ver.len() {
        None
    } else {
        match (spec_parse_dec(ver.subrange(0, d1)), spec_parse_dec(ver.subrange(d1 + 1, d2)),
        spec_parse_dec(ver.subrange(d2 + 1, ver.len() as int))) {
            (Some(a), Some(b), Some(c)) => Some((a, b, c)),
            _ => None,
        }
    }
}

/// Parses a canonical textual identifier `name_major.minor.patch_build`.
pub open spec fn spec_parse_sdk_id(s: Seq<char>) -> Option<SdkInfoView> {
    let u1 = find_char_from(s, '_', 0);
    let u2 = find_char_from(s, '_', u1 + 1);
    if u1 == s.len() || u2 == s.len() || find_char_from(s, '_', u2 + 1) != s.len() {
        None
    } else {
        let name = s.subrange(0, u1);
        let build = s.subrange(u2 + 1, s.len() as int);
        if !wf_ident_chars(name) || !wf_ident_chars(build) {
            None
        } else {
            match spec_parse_version(s.subrange(u1 + 1, u2)) {
                Some((a, b, c)) => Some(SdkInfoView {
                    name,
                    version_major: a,
                    version_minor: b,
                    version_patch: c,
                    build,
                }),
                None => None,
            }
        }
    }
}

/// Parses an identifier, also accepting the `.memdb` file extension.
pub open spec fn spec_parse_filename(s: Seq<char>) -> Option<SdkInfoView> {
    let ext = seq!['.', 'm', 'e', 'm', 'd', 'b'];
    if s.len() >= 6 && s.subrange(s.len() - 6, s.len() as int) == ext {
        spec_parse_sdk_id(s.subrange(0, s.len() - 6))
    } else {
        spec_parse_sdk_id(s)
    }
}

/// Lossless canonical form: rendering a well-formed identity and parsing
/// the text back — as a bare identifier or as the derived filename —
/// yields the identity again.
pub proof fn lemma_sdk_id_round_trip(v: SdkInfoView)
    requires
        wf_info(v),
    ensures
        spec_parse_sdk_id(spec_sdk_id(v)) == Some(v),
        spec_parse_filename(spec_memdb_filename(v)) == Some(v),
{
    let s = spec_sdk_id(v);
    let name = v.name;
    let d1 = dec_chars(v.version_major as nat);
    let d2 = dec_chars(v.version_minor as nat);
    let d3 = dec_chars(v.version_patch as nat);
    let build = v.build;
    lemma_dec_chars_digits(v.version_major as nat);
    lemma_dec_chars_digits(v.version_minor as nat);
    lemma_dec_chars_digits(v.version_patch as nat);
    let nl = name.len() as int;
    let l1 = d1.len() as int;
    let l2 = d2.len() as int;
    let l3 = d3.len() as int;
    let bl = build.len() as int;
    let vstart = nl + 1;
    let vlen = l1 + 1 + l2 + 1 + l3;
    let u2 = vstart + vlen;
    assert(s.len() == nl + 1 + vlen + 1 + bl);
    // where each piece of the rendering sits
    assert(forall|i: int| 0 <= i < nl ==> s[i] == name[i]);
    assert(s[nl] == '_');
    assert(forall|i: int| 0 <= i < l1 ==> s[vstart + i] == d1[i]);
    assert(s[vstart + l1] == '.');
    assert(forall|i: int| 0 <= i < l2 ==> s[vstart + l1 + 1 + i] == d2[i]);
    assert(s[vstart + l1 + 1 + l2] == '.');
    assert(forall|i: int| 0 <= i < l3 ==> s[vstart + l1 + 1 + l2 + 1 + i] == d3[i]);
    assert(s[u2] == '_');
    assert(forall|i: int| 0 <= i < bl ==> s[u2 + 1 + i] == build[i]);
    // the first separator closes the name: its characters are never `_`
    assert forall|i: int| 0 <= i < nl implies s[i] != '_' by {
        assert(is_ident_char(name[i]));
    }
    lemma_find_skips(s, '_', 0, nl);
    assert(find_char_from(s, '_', 0) == nl);
    // the second closes the version: digits and dots are never `_`
    assert forall|i: int| nl + 1 <= i < u2 implies s[i] != '_' by {
        if i < vstart + l1 {
            assert(is_dec_digit(d1[i - vstart]));
        } else if i == vstart + l1 {
        } else if i < vstart + l1 + 1 + l2 {
            assert(is_dec_digit(d2[i - (vstart + l1 + 1)]));
        } else if i == vstart + l1 + 1 + l2 {
        } else {
            assert(is_dec_digit(d3[i - (vstart + l1 + 1 + l2 + 1)]));
        }
    }
    lemma_find_skips(s, '_', nl + 1, u2);
    assert(find_char_from(s, '_', nl + 1) == u2);
    // and the build carries none either
    assert forall|i: int| u2 + 1 <= i < s.len() implies s[i] != '_' by {
        assert(is_ident_char(build[i - (u2 + 1)]));
    }
    lemma_find_skips(s, '_', u2 + 1, s.len() as int);
    assert(s.subrange(0, nl) =~= name);
    let ver = s.subrange(nl + 1, u2);
    assert(s.subrange(u2 + 1, s.len() as int) =~= build);
    assert(forall|i: int| 0 <= i < l1 ==> ver[i] == d1[i]);
    assert(ver[l1] == '.');
    assert(forall|i: int| 0 <= i < l2 ==> ver[l1 + 1 + i] == d2[i]);
    assert(ver[l1 + 1 + l2] == '.');
    assert(forall|i: int| 0 <= i < l3 ==> ver[l1 + 1 + l2 + 1 + i] == d3[i]);
    // the dots split the version into its three canonical digit runs
    assert forall|i: int| 0 <= i < l1 implies ver[i] != '.' by {
        assert(is_dec_digit(d1[i]));
    }
    lemma_find_skips(ver, '.', 0, l1);
    assert forall|i: int| l1 + 1 <= i < l1 + 1 + l2 implies ver[i] != '.' by {
        assert(is_dec_digit(d2[i - (l1 + 1)]));
    }
    lemma_find_skips(ver, '.', l1 + 1, l1 + 1 + l2);
    assert forall|i: int| l1 + 1 + l2 + 1 <= i < ver.len() implies ver[i] != '.' by {
        assert(is_dec_digit(d3[i - (l1 + 1 + l2 + 1)]));
    }
    lemma_find_skips(ver, '.', l1 + 1 + l2 + 1, ver.len() as int);
    assert(ver.subrange(0, l1) =~= d1);
    assert(ver.subrange(l1 + 1, l1 + 1 + l2) =~= d2);
    assert(ver.subrange(l1 + 1 + l2 + 1, ver.len() as int) =~= d3);
    assert(spec_parse_dec(d1) == Some(v.version_major));
    assert(spec_parse_dec(d2) == Some(v.version_minor));
    assert(spec_parse_dec(d3) == Some(v.version_patch));
    assert(spec_parse_version(ver) == Some(
        (v.version_major, v.version_minor, v.version_patch),
    ));
    assert(spec_parse_sdk_id(s) == Some(v));
    // the derived filename strips its extension back off
    let f = spec_memdb_filename(v);
    let ext = seq!['.', 'm', 'e', 'm', 'd', 'b'];
    assert(f.len() == s.len() + 6);
    assert(f.subrange(f.len() - 6, f.len() as int) =~= ext);
    assert(f.subrange(0, f.len() - 6) =~= s);
}

/// Checks that every character of `s` may stand in a name or build section.
pub fn is_wf_ident(s: &str) -> (r: bool)
    ensures
        r == wf_ident_chars(s@),
{
    let n = s.unicode_len();
    if n == 0 {
        return false;
    }
    let mut i: usize = 0;
    while i < n
        invariant
            0 <= i <= n,
            n == s@.len(),
            forall|k: int| 0 <= k < i ==> is_ident_char(#[trigger] s@[k]),
        decreases n - i,
    {
        let c = s.get_char(i);
        if !((c >= 'a' && c <= 'z') || (c >= 'A' && c <= 'Z') || (c >= '0' && c <= '9') || c
            == '-') {
            return false;
        }
        i = i + 1;
    }
    true
}

/// The score cap for one version component of the fuzzy distance.
pub open spec fn diff_capped(a: int, b: int) -> int {
    let d = if a >= b {
        a - b
    } else {
        b - a
    };
    if d > 99 {
        99
    } else {
        d
    }
}

/// Fuzzy distance between two identities: `None` when the names differ,
/// otherwise a weighted version-and-build distance; lower is closer, and
/// zero exactly for equal identities.
pub open spec fn spec_fuzzy_score(a: SdkInfoView, b: SdkInfoView) -> Option<u64> {
    if a.name != b.name {
        None
    } else {
        Some(
            (diff_capped(a.version_major as int, b.version_major as int) * 1000000 + diff_capped(
                a.version_minor as int,
                b.version_minor as int,
            ) * 10000 + diff_capped(a.version_patch as int, b.version_patch as int) * 100 + (
            if a.build == b.build {
                0int
            } else {
                1int
            })) as u64,
        )
    }
}

/// The fuzzy distance is zero exactly on equal identities.
pub proof fn lemma_fuzzy_zero(a: SdkInfoView, b: SdkInfoView)
    ensures
        spec_fuzzy_score(a, b) == Some(0u64) <==> a == b,
{
    if a.name == b.name {
        let dmaj = diff_capped(a.version_major as int, b.version_major as int);
        let dmin = diff_capped(a.version_minor as int, b.version_minor as int);
        let dpat = diff_capped(a.version_patch as int, b.version_patch as int);
        let dbuild: int = if a.build == b.build {
            0
        } else {
            1
        };
        let total = dmaj * 1000000 + dmin * 10000 + dpat * 100 + dbuild;
        assert(0 <= dmaj <= 99 && 0 <= dmin <= 99 && 0 <= dpat <= 99 && 0 <= dbuild <= 1);
        assert(0 <= total <= 99999901);
        assert((total as u64) == total);
        if total == 0 {
            assert(dmaj == 0 && dmin == 0 && dpat == 0 && dbuild == 0);
        }
    }
}

fn diff_capped_u32(a: u32, b: u32) -> (r: u64)
    ensures
        r == diff_capped(a as int, b as int),
{
    let d = if a >= b {
        a - b
    } else {
        b - a
    };
    if d > 99 {
        99
    } else {
        d as u64
    }
}

impl SdkInfo {
    /// Builds an identity from its parts.
    pub fn new(name: String, version_major: u32, version_minor: u32, version_patch: u32,
        build: String) -> (r: SdkInfo)
        ensures
            r@ == (SdkInfoView {
                name: name@,
                version_major,
                version_minor,
                version_patch,
                build: build@,
            }),
    {
        SdkInfo { name, version_major, version_minor, version_patch, build }
    }

    pub fn name(&self) -> (r: &String)
        ensures
            r@ == self@.name,
    {
        &self.name
    }

    pub fn version_major(&self) -> (r: u32)
        ensures
            r == self@.version_major,
    {
        self.version_major
    }

    pub fn version_minor(&self) -> (r: u32)
        ensures
            r == self@.version_minor,
    {
        self.version_minor
    }

    pub fn version_patch(&self) -> (r: u32)
        ensures
            r == self@.version_patch,
    {
        self.version_patch
    }

    pub fn build(&self) -> (r: &String)
        ensures
            r@ == self@.build,
    {
        &self.build
    }

    /// Structural equality of identities.
    pub fn equals(&self, other: &SdkInfo) -> (r: bool)
        ensures
            r == (self@ == other@),
    {
        self.name == other.name && self.version_major == other.version_major
            && self.version_minor == other.version_minor
            && self.version_patch == other.version_patch && self.build == other.build
    }

    /// Strict order on identities, matching `info_lt`.
    pub fn lt(&self, other: &SdkInfo) -> (r: bool)
        ensures
            r == info_lt(self@, other@),
    {
        if !(self.name == other.name) {
            str_lt(self.name.as_str(), other.name.as_str())
        } else if self.version_major != other.version_major {
            self.version_major < other.version_major
        } else if self.version_minor != other.version_minor {
            self.version_minor < other.version_minor
        } else if self.version_patch != other.version_patch {
            self.version_patch < other.version_patch
        } else {
            str_lt(self.build.as_str(), other.build.as_str())
        }
    }

    /// Renders the canonical textual identifier.
    pub fn sdk_id(&self) -> (r: String)
        ensures
            r@ == spec_sdk_id(self@),
    {
        proof {
            reveal_strlit("_");
            reveal_strlit(".");
        }
        let mut out = String::new();
        out.append(self.name.as_str());
        out.append("_");
        push_dec(&mut out, self.version_major);
        out.append(".");
        push_dec(&mut out, self.version_minor);
        out.append(".");
        push_dec(&mut out, self.version_patch);
        out.append("_");
        out.append(self.build.as_str());
        proof {
            assert("_"@ =~= seq!['_']);
            assert("."@ =~= seq!['.']);
            assert(out@ =~= spec_sdk_id(self@));
        }
        out
    }

    /// Renders the canonical local filename for this identity.
    pub fn memdb_filename(&self) -> (r: String)
        ensures
            r@ == spec_memdb_filename(self@),
    {
        let mut out = self.sdk_id();
        out.append(".memdb");
        proof {
            reveal_strlit(".memdb");
            assert(".memdb"@ =~= seq!['.', 'm', 'e', 'm', 'd', 'b']);
            assert(out@ =~= spec_memdb_filename(self@));
        }
        out
    }

    /// The fuzzy distance to another identity; see `spec_fuzzy_score`.
    pub fn get_fuzzy_match(&self, other: &SdkInfo) -> (r: Option<u64>)
        ensures
            r == spec_fuzzy_score(self@, other@),
    {
        if !(self.name == other.name) {
            return None;
        }
        let dmaj = diff_capped_u32(self.version_major, other.version_major);
        let dmin = diff_capped_u32(self.version_minor, other.version_minor);
        let dpat = diff_capped_u32(self.version_patch, other.version_patch);
        let dbuild: u64 = if self.build == other.build {
            0
        } else {
            1
        };
        Some(dmaj * 1000000 + dmin * 10000 + dpat * 100 + dbuild)
    }

    /// Parses a textual identifier (optionally carrying the `.memdb`
    /// extension) into an identity; `None` when the text is not a valid
    /// canonical identifier.
    pub fn from_filename(s: &str) -> (r: Option<SdkInfo>)
        ensures
            r.is_some() == spec_parse_filename(s@).is_some(),
            r.is_some() ==> r.unwrap()@ == spec_parse_filename(s@).unwrap(),
            r.is_some() ==> wf_info(r.unwrap()@),
    {
        let ghost ext: Seq<char> = seq!['.', 'm', 'e', 'm', 'd', 'b'];
        let n = s.unicode_len();
        let has_ext = n >= 6 && s.get_char(n - 6) == '.' && s.get_char(n - 5) == 'm'
            && s.get_char(n - 4) == 'e' && s.get_char(n - 3) == 'm' && s.get_char(n - 2) == 'd'
            && s.get_char(n - 1) == 'b';
        proof {
            if n >= 6 {
                let tail = s@.subrange(n - 6, n as int);
                assert(tail.len() == 6);
                assert(tail[0] == s@[n - 6] && tail[1] == s@[n - 5] && tail[2] == s@[n - 4]
                    && tail[3] == s@[n - 3] && tail[4] == s@[n - 2] && tail[5] == s@[n - 1]);
                if has_ext {
                    assert(tail =~= ext);
                } else {
                    assert(tail != ext);
                }
            }
        }
        if has_ext {
            let core = s.substring_char(0, n - 6);
            Self::parse_sdk_id(core)
        } else {
            Self::parse_sdk_id(s)
        }
    }

    fn parse_sdk_id(s: &str) -> (r: Option<SdkInfo>)
        ensures
            r.is_some() == spec_parse_sdk_id(s@).is_some(),
            r.is_some() ==> r.unwrap()@ == spec_parse_sdk_id(s@).unwrap(),
            r.is_some() ==> wf_info(r.unwrap()@),
    {
        let n = s.unicode_len();
        let u1 = find_char(s, '_', 0);
        if u1 == n {
            return None;
        }
        let u2 = find_char(s, '_', u1 + 1);
        if u2 == n {
            return None;
        }
        if find_char(s, '_', u2 + 1) != n {
            return None;
        }
        let name_s = s.substring_char(0, u1);
        let ver_s = s.substring_char(u1 + 1, u2);
        let build_s = s.substring_char(u2 + 1, n);
        if !is_wf_ident(name_s) {
            return None;
        }
        if !is_wf_ident(build_s) {
            return None;
        }
        let vn = ver_s.unicode_len();
        let d1 = find_char(ver_s, '.', 0);
        if d1 == vn {
            return None;
        }
        let d2 = find_char(ver_s, '.', d1 + 1);
        if d2 == vn {
            return None;
        }
        if find_char(ver_s, '.', d2 + 1) != vn {
            return None;
        }
        let maj = parse_dec(ver_s.substring_char(0, d1));
        let mnr = parse_dec(ver_s.substring_char(d1 + 1, d2));
        let pat = parse_dec(ver_s.substring_char(d2 + 1, vn));
        match (maj, mnr, pat) {
            (Some(a), Some(b), Some(c)) => {
                let info = SdkInfo::new(
                    String::from_str(name_s),
                    a,
                    b,
                    c,
                    String::from_str(build_s),
                );
                proof {
                    assert(spec_parse_version(s@.subrange(u1 + 1, u2 as int)) == Some(
                        (a, b, c),
                    ));
                    assert(spec_parse_sdk_id(s@) == Some(info@));
                }
                Some(info)
            },
            _ => None,
        }
    }
}

} // verus!

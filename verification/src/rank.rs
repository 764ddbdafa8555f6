//! Deterministic ordering: sorting identities by their total order, and
//! ranking fuzzy-match candidates by score with deterministic tie-breaks.
use vstd::prelude::*;

use crate::sdkinfo::{
    info_lt, lemma_info_lt_asymmetric, lemma_info_lt_irreflexive, lemma_info_lt_transitive,
    lemma_info_lt_trichotomy, SdkInfo, SdkInfoView,
};

verus! {

pub open spec fn infos_distinct(s: Seq<SdkInfo>) -> bool {
    forall|i: int, j: int| 0 <= i < j < s.len() ==> (#[trigger] s[i])@ != (#[trigger] s[j])@
}

pub open spec fn infos_sorted_asc(s: Seq<SdkInfo>) -> bool {
    forall|i: int, j: int| 0 <= i < j < s.len() ==> info_lt((#[trigger] s[i])@, (#[trigger] s[j])@)
}

/// Whether some element of `s` has the view `k`.
pub open spec fn infos_contain(s: Seq<SdkInfo>, k: SdkInfoView) -> bool {
    exists|i: int| 0 <= i < s.len() && (#[trigger] s[i])@ == k
}

/// Sorts identities ascending by their total order.  On pairwise distinct
/// identities the result is strictly sorted, hence unique.
pub fn sort_infos_asc(input: &Vec<SdkInfo>) -> (r: Vec<SdkInfo>)
    requires
        infos_distinct(input@),
    ensures
        r@.len() == input@.len(),
        infos_sorted_asc(r@),
        infos_distinct(r@),
        forall|k: SdkInfoView| infos_contain(r@, k) == infos_contain(input@, k),
{
    let n = input.len();
    let mut out: Vec<SdkInfo> = Vec::new();
    let mut i: usize = 0;
    while i < n
        invariant
            0 <= i <= n,
            n == input@.len(),
            infos_distinct(input@),
            out@.len() == i,
            infos_sorted_asc(out@),
            infos_distinct(out@),
            forall|k: SdkInfoView|
                infos_contain(out@, k) == infos_contain(input@.subrange(0, i as int), k),
        decreases n - i,
    {
        let x = input[i].clone();
        proof {
            // `x` is fresh in `out`: it views a key not among the prefix
            assert(forall|l: int| 0 <= l < i ==> (#[trigger] input@[l])@ != x@);
            if infos_contain(out@, x@) {
                let j = choose|j: int| 0 <= j < out@.len() && (#[trigger] out@[j])@ == x@;
                assert(infos_contain(input@.subrange(0, i as int), x@));
                let l = choose|l: int|
                    0 <= l < i && (#[trigger] input@.subrange(0, i as int)[l])@ == x@;
                assert(input@[l]@ == x@);
                assert(false);
            }
        }
        let m = out.len();
        let mut pos: usize = 0;
        while pos < m && out[pos].lt(&x)
            invariant
                0 <= pos <= m,
                m == out@.len(),
                out@.len() == i,
                n == input@.len(),
                i < n,
                x@ == input@[i as int]@,
                infos_sorted_asc(out@),
                infos_distinct(out@),
                !infos_contain(out@, x@),
                forall|k: SdkInfoView|
                    infos_contain(out@, k) == infos_contain(input@.subrange(0, i as int), k),
                forall|l: int| 0 <= l < pos ==> info_lt((#[trigger] out@[l])@, x@),
            decreases m - pos,
        {
            pos = pos + 1;
        }
        proof {
            if pos < m {
                assert(!info_lt(out@[pos as int]@, x@));
                assert(out@[pos as int]@ != x@);
                lemma_info_lt_trichotomy(out@[pos as int]@, x@);
                assert(info_lt(x@, out@[pos as int]@));
            }
        }
        let ghost out_pre = out@;
        proof {
            assert(forall|k2: SdkInfoView|
                infos_contain(out_pre, k2) == infos_contain(input@.subrange(0, i as int), k2));
        }
        out.insert(pos, x);
        proof {
            assert(forall|j: int| 0 <= j < pos ==> (#[trigger] out@[j]) == out_pre[j]);
            assert(out@[pos as int]@ == input@[i as int]@);
            assert(forall|j: int|
                pos < j < out@.len() ==> (#[trigger] out@[j]) == out_pre[j - 1]);
            assert(infos_sorted_asc(out@)) by {
                assert forall|a: int, b: int| 0 <= a < b < out@.len() implies info_lt(
                    (#[trigger] out@[a])@,
                    (#[trigger] out@[b])@,
                ) by {
                    if a < pos && b < pos {
                    } else if b == pos {
                        assert(info_lt(out_pre[a]@, out@[b]@));
                    } else if a == pos {
                        assert(info_lt(out@[a]@, out_pre[pos as int]@));
                        if b - 1 > pos {
                            lemma_info_lt_transitive(out@[a]@, out_pre[pos as int]@, out_pre[b
                                - 1]@);
                        }
                    } else if a < pos && b > pos {
                        if b - 1 == a {
                            assert(false);
                        }
                    }
                }
            }
            assert(infos_distinct(out@)) by {
                assert forall|a: int, b: int| 0 <= a < b < out@.len() implies (
                #[trigger] out@[a])@ != (#[trigger] out@[b])@ by {
                    assert(info_lt(out@[a]@, out@[b]@));
                    lemma_info_lt_irreflexive(out@[a]@);
                }
            }
            assert(input@.subrange(0, i + 1).drop_last() =~= input@.subrange(0, i as int));
            assert forall|k: SdkInfoView|
                infos_contain(out@, k) == infos_contain(
                    input@.subrange(0, i + 1),
                    k,
                ) by {
                let pre_seq = input@.subrange(0, i as int);
                let now_seq = input@.subrange(0, i + 1);
                if infos_contain(out@, k) {
                    let j = choose|j: int| 0 <= j < out@.len() && (#[trigger] out@[j])@ == k;
                    if j == pos {
                        assert(now_seq[i as int]@ == k);
                    } else {
                        let jj: int = if j < pos {
                            j
                        } else {
                            j - 1
                        };
                        assert(out_pre[jj]@ == k);
                        assert(infos_contain(out_pre, k));
                        assert(infos_contain(pre_seq, k));
                        let l = choose|l: int|
                            0 <= l < pre_seq.len() && (#[trigger] pre_seq[l])@ == k;
                        assert(now_seq[l]@ == k);
                    }
                }
                if infos_contain(now_seq, k) {
                    let l = choose|l: int|
                        0 <= l < now_seq.len() && (#[trigger] now_seq[l])@ == k;
                    if l == i {
                        assert(out@[pos as int]@ == k);
                    } else {
                        assert(pre_seq[l]@ == k);
                        assert(infos_contain(out_pre, k));
                        let j = choose|j: int|
                            0 <= j < out_pre.len() && (#[trigger] out_pre[j])@ == k;
                        if j < pos {
                            assert(out@[j]@ == k);
                        } else {
                            assert(out@[j + 1]@ == k);
                        }
                    }
                }
            }
        }
        i = i + 1;
    }
    proof {
        assert(input@.subrange(0, n as int) =~= input@);
    }
    out
}

/// Mathematical view of one fuzzy-match candidate with its score.
pub struct ScoredView {
    pub score: u64,
    pub info: SdkInfoView,
}

/// A fuzzy-match candidate paired with its score.
pub struct ScoredInfo {
    pub score: u64,
    pub info: SdkInfo,
}

impl View for ScoredInfo {
    type V = ScoredView;

    open spec fn view(&self) -> ScoredView {
        ScoredView { score: self.score, info: self.info@ }
    }
}

/// Whether an identity sorts after the query in the identities' order.
pub open spec fn info_gt(a: SdkInfoView, q: SdkInfoView) -> bool {
    info_lt(q, a)
}

/// The ranking order for fuzzy matches against query `q`: ascending by
/// score, then candidates not greater than the query first, then by
/// descending identity — a strict total order on distinct identities.
pub open spec fn scored_before(q: SdkInfoView, a: ScoredView, b: ScoredView) -> bool {
    if a.score != b.score {
        a.score < b.score
    } else if info_gt(a.info, q) != info_gt(b.info, q) {
        !info_gt(a.info, q)
    } else {
        info_lt(b.info, a.info)
    }
}

pub proof fn lemma_scored_irreflexive(q: SdkInfoView, a: ScoredView)
    ensures
        !scored_before(q, a, a),
{
    lemma_info_lt_irreflexive(a.info);
}

pub proof fn lemma_scored_trichotomy(q: SdkInfoView, a: ScoredView, b: ScoredView)
    requires
        a.info != b.info,
    ensures
        scored_before(q, a, b) || scored_before(q, b, a),
{
    lemma_info_lt_trichotomy(a.info, b.info);
}

pub proof fn lemma_scored_asymmetric(q: SdkInfoView, a: ScoredView, b: ScoredView)
    requires
        scored_before(q, a, b),
    ensures
        !scored_before(q, b, a),
{
    if a.score == b.score && info_gt(a.info, q) == info_gt(b.info, q) {
        lemma_info_lt_asymmetric(b.info, a.info);
    }
}

pub proof fn lemma_scored_transitive(q: SdkInfoView, a: ScoredView, b: ScoredView, c: ScoredView)
    requires
        scored_before(q, a, b),
        scored_before(q, b, c),
    ensures
        scored_before(q, a, c),
{
    if a.score == b.score && b.score == c.score {
        if info_gt(a.info, q) == info_gt(b.info, q) && info_gt(b.info, q) == info_gt(
            c.info,
            q,
        ) {
            lemma_info_lt_transitive(c.info, b.info, a.info);
        }
    }
}

pub open spec fn scored_views_sorted(q: SdkInfoView, s: Seq<ScoredView>) -> bool {
    forall|i: int, j: int|
        0 <= i < j < s.len() ==> scored_before(q, #[trigger] s[i], #[trigger] s[j])
}

/// Determinism of the ranking: two sequences strictly sorted by the
/// ranking order for the same query and holding the same candidates are
/// equal — the ranked list is unique.
pub proof fn lemma_scored_sorted_unique(q: SdkInfoView, s1: Seq<ScoredView>, s2: Seq<ScoredView>)
    requires
        scored_views_sorted(q, s1),
        scored_views_sorted(q, s2),
        forall|sv: ScoredView| s1.contains(sv) == s2.contains(sv),
    ensures
        s1 == s2,
    decreases s1.len(),
{
    if s1.len() == 0 {
        if s2.len() > 0 {
            assert(s2.contains(s2[0]));
            assert(s1.contains(s2[0]));
            assert(false);
        }
        assert(s1 =~= s2);
    } else {
        assert(s1.contains(s1[0]));
        assert(s2.contains(s1[0]));
        let j = choose|j: int| 0 <= j < s2.len() && s2[j] == s1[0];
        assert(s2.contains(s2[0]));
        assert(s1.contains(s2[0]));
        let l = choose|l: int| 0 <= l < s1.len() && s1[l] == s2[0];
        if j > 0 && l > 0 {
            assert(scored_before(q, s2[0], s2[j]));
            assert(scored_before(q, s1[0], s1[l]));
            lemma_scored_asymmetric(q, s1[0], s2[0]);
            assert(false);
        } else if j > 0 {
            assert(scored_before(q, s2[0], s2[j]));
            lemma_scored_irreflexive(q, s2[0]);
            assert(false);
        } else if l > 0 {
            assert(scored_before(q, s1[0], s1[l]));
            lemma_scored_irreflexive(q, s1[0]);
            assert(false);
        }
        assert(s1[0] == s2[0]);
        let t1 = s1.skip(1);
        let t2 = s2.skip(1);
        assert(forall|i: int| 0 <= i < t1.len() ==> #[trigger] t1[i] == s1[i + 1]);
        assert(forall|i: int| 0 <= i < t2.len() ==> #[trigger] t2[i] == s2[i + 1]);
        assert forall|sv: ScoredView| t1.contains(sv) == t2.contains(sv) by {
            lemma_skip_membership(q, s1, sv);
            lemma_skip_membership(q, s2, sv);
        }
        lemma_scored_sorted_unique(q, t1, t2);
        assert(s1 =~= s2) by {
            assert(forall|i: int| 1 <= i < s1.len() ==> #[trigger] s1[i] == t1[i - 1]);
            assert(forall|i: int| 1 <= i < s2.len() ==> #[trigger] s2[i] == t2[i - 1]);
        }
    }
}

/// In a strictly sorted sequence, the tail holds exactly the candidates
/// other than the head.
proof fn lemma_skip_membership(q: SdkInfoView, s: Seq<ScoredView>, sv: ScoredView)
    requires
        scored_views_sorted(q, s),
        s.len() > 0,
    ensures
        s.skip(1).contains(sv) == (s.contains(sv) && sv != s[0]),
{
    let t = s.skip(1);
    assert(forall|i: int| 0 <= i < t.len() ==> #[trigger] t[i] == s[i + 1]);
    if t.contains(sv) {
        let i = choose|i: int| 0 <= i < t.len() && t[i] == sv;
        assert(s[i + 1] == sv);
        assert(scored_before(q, s[0], s[i + 1]));
        if sv == s[0] {
            lemma_scored_irreflexive(q, s[0]);
        }
        assert(s.contains(sv) && sv != s[0]);
    }
    if s.contains(sv) && sv != s[0] {
        let i = choose|i: int| 0 <= i < s.len() && s[i] == sv;
        assert(i > 0);
        assert(t[i - 1] == sv);
        assert(t.contains(sv));
    }
}

pub(crate) open spec fn scored_infos_distinct(s: Seq<ScoredInfo>) -> bool {
    forall|i: int, j: int|
        0 <= i < j < s.len() ==> (#[trigger] s[i])@.info != (#[trigger] s[j])@.info
}

pub(crate) open spec fn scored_sorted(q: SdkInfoView, s: Seq<ScoredInfo>) -> bool {
    forall|i: int, j: int|
        0 <= i < j < s.len() ==> scored_before(q, (#[trigger] s[i])@, (#[trigger] s[j])@)
}

pub(crate) open spec fn scored_contain(s: Seq<ScoredInfo>, sv: ScoredView) -> bool {
    exists|i: int| 0 <= i < s.len() && (#[trigger] s[i])@ == sv
}

fn scored_before_exec(q: &SdkInfo, a: &ScoredInfo, b: &ScoredInfo) -> (r: bool)
    ensures
        r == scored_before(q@, a@, b@),
{
    if a.score != b.score {
        a.score < b.score
    } else {
        let ga = q.lt(&a.info);
        let gb = q.lt(&b.info);
        if ga != gb {
            !ga
        } else {
            b.info.lt(&a.info)
        }
    }
}

/// Sorts fuzzy-match candidates by the ranking order for query `q`.
pub(crate) fn sort_scored(q: &SdkInfo, input: Vec<ScoredInfo>) -> (r: Vec<ScoredInfo>)
    requires
        scored_infos_distinct(input@),
    ensures
        r@.len() == input@.len(),
        scored_sorted(q@, r@),
        scored_infos_distinct(r@),
        forall|sv: ScoredView| scored_contain(r@, sv) == scored_contain(input@, sv),
{
    let n = input.len();
    let mut out: Vec<ScoredInfo> = Vec::new();
    let mut i: usize = 0;
    while i < n
        invariant
            0 <= i <= n,
            n == input@.len(),
            scored_infos_distinct(input@),
            out@.len() == i,
            scored_sorted(q@, out@),
            scored_infos_distinct(out@),
            forall|sv: ScoredView|
                scored_contain(out@, sv) == scored_contain(input@.subrange(0, i as int), sv),
        decreases n - i,
    {
        let x = ScoredInfo { score: input[i].score, info: input[i].info.clone() };
        proof {
            assert(x@ == input@[i as int]@);
            // `x` carries an identity fresh in `out`
            assert forall|j: int| 0 <= j < out@.len() implies (#[trigger] out@[j])@.info
                != x@.info by {
                let sv = out@[j]@;
                assert(scored_contain(out@, sv));
                assert(scored_contain(input@.subrange(0, i as int), sv));
                let l = choose|l: int|
                    0 <= l < i && (#[trigger] input@.subrange(0, i as int)[l])@ == sv;
                assert(input@[l]@ == sv);
                assert(input@[l]@.info != input@[i as int]@.info);
            }
        }
        let m = out.len();
        let mut pos: usize = 0;
        while pos < m && scored_before_exec(q, &out[pos], &x)
            invariant
                0 <= pos <= m,
                m == out@.len(),
                out@.len() == i,
                n == input@.len(),
                i < n,
                x@ == input@[i as int]@,
                scored_sorted(q@, out@),
                scored_infos_distinct(out@),
                forall|j: int| 0 <= j < out@.len() ==> (#[trigger] out@[j])@.info != x@.info,
                forall|sv: ScoredView|
                    scored_contain(out@, sv) == scored_contain(
                        input@.subrange(0, i as int),
                        sv,
                    ),
                forall|l: int| 0 <= l < pos ==> scored_before(q@, (#[trigger] out@[l])@, x@),
            decreases m - pos,
        {
            pos = pos + 1;
        }
        proof {
            if pos < m {
                lemma_scored_trichotomy(q@, out@[pos as int]@, x@);
                assert(scored_before(q@, x@, out@[pos as int]@));
            }
        }
        let ghost out_pre = out@;
        proof {
            assert(forall|sv: ScoredView|
                scored_contain(out_pre, sv) == scored_contain(
                    input@.subrange(0, i as int),
                    sv,
                ));
        }
        out.insert(pos, x);
        proof {
            assert(forall|j: int| 0 <= j < pos ==> (#[trigger] out@[j]) == out_pre[j]);
            assert(out@[pos as int]@ == input@[i as int]@);
            assert(forall|j: int|
                pos < j < out@.len() ==> (#[trigger] out@[j]) == out_pre[j - 1]);
            assert(scored_sorted(q@, out@)) by {
                assert forall|a: int, b: int| 0 <= a < b < out@.len() implies scored_before(
                    q@,
                    (#[trigger] out@[a])@,
                    (#[trigger] out@[b])@,
                ) by {
                    if a < pos && b < pos {
                    } else if b == pos {
                        assert(scored_before(q@, out_pre[a]@, out@[b]@));
                    } else if a == pos {
                        assert(scored_before(q@, out@[a]@, out_pre[pos as int]@));
                        if b - 1 > pos {
                            lemma_scored_transitive(q@, out@[a]@, out_pre[pos as int]@,
                                out_pre[b - 1]@);
                        }
                    } else if a < pos && b > pos {
                        if b - 1 == a {
                            assert(false);
                        }
                    }
                }
            }
            assert(scored_infos_distinct(out@)) by {
                assert forall|a: int, b: int| 0 <= a < b < out@.len() implies (
                #[trigger] out@[a])@.info != (#[trigger] out@[b])@.info by {
                    assert(scored_before(q@, out@[a]@, out@[b]@));
                    if out@[a]@.info == out@[b]@.info {
                        lemma_scored_asymmetric(q@, out@[a]@, out@[b]@);
                        lemma_info_lt_irreflexive(out@[a]@.info);
                    }
                }
            }
            assert(input@.subrange(0, i + 1).drop_last() =~= input@.subrange(0, i as int));
            assert forall|sv: ScoredView|
                scored_contain(out@, sv) == scored_contain(
                    input@.subrange(0, i + 1),
                    sv,
                ) by {
                let pre_seq = input@.subrange(0, i as int);
                let now_seq = input@.subrange(0, i + 1);
                if scored_contain(out@, sv) {
                    let j = choose|j: int| 0 <= j < out@.len() && (#[trigger] out@[j])@ == sv;
                    if j == pos {
                        assert(now_seq[i as int]@ == sv);
                    } else {
                        let jj: int = if j < pos {
                            j
                        } else {
                            j - 1
                        };
                        assert(out_pre[jj]@ == sv);
                        assert(scored_contain(out_pre, sv));
                        assert(scored_contain(pre_seq, sv));
                        let l = choose|l: int|
                            0 <= l < pre_seq.len() && (#[trigger] pre_seq[l])@ == sv;
                        assert(now_seq[l]@ == sv);
                    }
                }
                if scored_contain(now_seq, sv) {
                    let l = choose|l: int|
                        0 <= l < now_seq.len() && (#[trigger] now_seq[l])@ == sv;
                    if l == i {
                        assert(out@[pos as int]@ == sv);
                    } else {
                        assert(pre_seq[l]@ == sv);
                        assert(scored_contain(out_pre, sv));
                        let j = choose|j: int|
                            0 <= j < out_pre.len() && (#[trigger] out_pre[j])@ == sv;
                        if j < pos {
                            assert(out@[j]@ == sv);
                        } else {
                            assert(out@[j + 1]@ == sv);
                        }
                    }
                }
            }
        }
        i = i + 1;
    }
    proof {
        assert(input@.subrange(0, n as int) =~= input@);
    }
    out
}

} // verus!

//! Merging near-duplicate concepts.
//!
//! Concepts whose embeddings are more similar than a threshold are merged
//! into groups: the transitive closure of the "similar" relation, computed
//! by label propagation.  Each group carries its member texts and
//! importances, the average of its embeddings, and its root — the smallest
//! member index, which later becomes the compact group id.

use vstd::prelude::*;

use crate::concepts::Concept;
use crate::embedding::cosine_milli;
use crate::embedding::emb_wf;
use crate::embedding::spec_cosine_milli;
use crate::embedding::EMB_LIMIT;
use crate::embedding::MAX_DIM;
use crate::error::ApiError;

verus! {

/// The similarity threshold above which two concepts merge, in
/// milli-units.
pub const DEFAULT_SIMILARITY_THRESHOLD: i64 = 700;

/// A merged group of concepts.
pub struct MergedGroup {
    /// The member surface texts, in index order.
    pub members: Vec<String>,
    /// The indices of the members in the request's concept list.
    pub member_indices: Vec<usize>,
    /// The importances of the members, in the same order.
    pub member_importances: Vec<u32>,
    /// The mean of the members' embeddings, componentwise.
    pub avg_embedding: Vec<i64>,
    /// The smallest member index; the union-find representative.
    pub root: usize,
}

/// A nested vector's deep view indexes to the element's view.
pub proof fn lemma_nested_index(v: &Vec<Vec<i64>>, i: int)
    requires
        0 <= i < v@.len(),
    ensures
        v.deep_view()[i] == v@[i]@,
{
    assert(v.deep_view()[i] =~= v@[i]@);
}


/// Two indices count as adjacent when their similarity clears the
/// threshold.
pub open spec fn adjacent(embs: Seq<Seq<i64>>, thr: int, i: int, j: int) -> bool {
    spec_cosine_milli(embs[i], embs[j]) > thr
}

/// A chain of indices whose consecutive members clear the threshold in
/// one direction or the other.
pub open spec fn is_sim_path(embs: Seq<Seq<i64>>, thr: int, p: Seq<int>, i: int, j: int) -> bool {
    &&& p.len() >= 1
    &&& p[0] == i
    &&& p[p.len() - 1] == j
    &&& (forall|t: int| 0 <= t < p.len() ==> 0 <= #[trigger] p[t] < embs.len())
    &&& (forall|t: int|
        0 <= t < p.len() - 1 ==> adjacent(embs, thr, #[trigger] p[t], p[t + 1]) || adjacent(
            embs,
            thr,
            p[t + 1],
            p[t],
        ))
}

/// Transitive similarity: some chain connects the two indices.
#[verifier::opaque]
pub open spec fn connected(embs: Seq<Seq<i64>>, thr: int, i: int, j: int) -> bool {
    exists|p: Seq<int>| #[trigger] is_sim_path(embs, thr, p, i, j)
}

proof fn lemma_conn_refl(embs: Seq<Seq<i64>>, thr: int, i: int)
    requires
        0 <= i < embs.len(),
    ensures
        connected(embs, thr, i, i),
{
    assert(connected(embs, thr, i, i)) by {
        reveal(connected);
        assert(is_sim_path(embs, thr, seq![i], i, i));
    }
}

proof fn lemma_conn_edge(embs: Seq<Seq<i64>>, thr: int, i: int, j: int)
    requires
        0 <= i < embs.len(),
        0 <= j < embs.len(),
        adjacent(embs, thr, i, j) || adjacent(embs, thr, j, i),
    ensures
        connected(embs, thr, i, j),
{
    assert(connected(embs, thr, i, j)) by {
        reveal(connected);
        let p = seq![i, j];
        assert(p[0] == i && p[1] == j);
        assert(is_sim_path(embs, thr, p, i, j));
    }
}

proof fn lemma_conn_sym(embs: Seq<Seq<i64>>, thr: int, i: int, j: int)
    requires
        connected(embs, thr, i, j),
    ensures
        connected(embs, thr, j, i),
{
    reveal(connected);
    let p = choose|p: Seq<int>| #[trigger] is_sim_path(embs, thr, p, i, j);
    let q = Seq::new(p.len(), |t: int| p[p.len() - 1 - t]);
    assert(q[0] == j && q[q.len() - 1] == i);
    assert forall|t: int| 0 <= t < q.len() - 1 implies adjacent(
        embs,
        thr,
        #[trigger] q[t],
        q[t + 1],
    ) || adjacent(embs, thr, q[t + 1], q[t]) by {
        let u = p.len() - 2 - t;
        assert(q[t] == p[u + 1] && q[t + 1] == p[u]);
        assert(adjacent(embs, thr, p[u], p[u + 1]) || adjacent(embs, thr, p[u + 1], p[u]));
    }
    assert(is_sim_path(embs, thr, q, j, i));
}

proof fn lemma_conn_trans(embs: Seq<Seq<i64>>, thr: int, a: int, b: int, c: int)
    requires
        connected(embs, thr, a, b),
        connected(embs, thr, b, c),
    ensures
        connected(embs, thr, a, c),
{
    reveal(connected);
    let p1 = choose|p: Seq<int>| #[trigger] is_sim_path(embs, thr, p, a, b);
    let p2 = choose|p: Seq<int>| #[trigger] is_sim_path(embs, thr, p, b, c);
    let q = p1 + p2.drop_first();
    assert(q[0] == a);
    assert(q[q.len() - 1] == c) by {
        if p2.len() == 1 {
            assert(q =~= p1);
        } else {
            assert(q[q.len() - 1] == p2.drop_first()[p2.len() - 2]);
            assert(p2.drop_first()[p2.len() - 2] == p2[p2.len() - 1]);
        }
    }
    assert forall|t: int| 0 <= t < q.len() implies 0 <= #[trigger] q[t] < embs.len() by {
        if t < p1.len() {
            assert(q[t] == p1[t]);
        } else {
            assert(q[t] == p2.drop_first()[t - p1.len()]);
            assert(p2.drop_first()[t - p1.len()] == p2[t - p1.len() + 1]);
        }
    }
    assert forall|t: int| 0 <= t < q.len() - 1 implies adjacent(
        embs,
        thr,
        #[trigger] q[t],
        q[t + 1],
    ) || adjacent(embs, thr, q[t + 1], q[t]) by {
        if t < p1.len() - 1 {
            assert(q[t] == p1[t] && q[t + 1] == p1[t + 1]);
        } else if t == p1.len() - 1 {
            assert(q[t] == p1[p1.len() - 1]);
            assert(p1[p1.len() - 1] == b && p2[0] == b);
            assert(q[t + 1] == p2.drop_first()[0]);
            assert(p2.drop_first()[0] == p2[1]);
            assert(adjacent(embs, thr, p2[0], p2[1]) || adjacent(embs, thr, p2[1], p2[0]));
        } else {
            assert(q[t] == p2.drop_first()[t - p1.len()]);
            assert(q[t + 1] == p2.drop_first()[t + 1 - p1.len()]);
            assert(p2.drop_first()[t - p1.len()] == p2[t - p1.len() + 1]);
            assert(p2.drop_first()[t + 1 - p1.len()] == p2[t + 2 - p1.len()]);
            let u = t - p1.len() + 1;
            assert(adjacent(embs, thr, p2[u], p2[u + 1]) || adjacent(embs, thr, p2[u + 1], p2[u]));
        }
    }
    assert(is_sim_path(embs, thr, q, a, c));
}

/// A labeling of the indices that respects the similarity relation: every
/// label points at a smaller-or-equal index, labels are roots (a label's
/// label is itself), adjacent indices share a label, and equal labels mean
/// a chain of similarities connects the indices — groups are exactly the
/// transitive closure.
pub open spec fn labels_ok(embs: Seq<Seq<i64>>, thr: int, lab: Seq<usize>) -> bool {
    &&& lab.len() == embs.len()
    &&& (forall|k: int| 0 <= k < lab.len() ==> #[trigger] lab[k] <= k)
    &&& (forall|k: int| 0 <= k < lab.len() ==> lab[#[trigger] lab[k] as int] == lab[k])
    &&& (forall|i: int, j: int|
        0 <= i < j < lab.len() && #[trigger] adjacent(embs, thr, i, j) ==> lab[i] == lab[j])
    &&& (forall|i: int, j: int|
        #![trigger lab[i], lab[j]]
        0 <= i < lab.len() && 0 <= j < lab.len() && lab[i] == lab[j] ==> connected(
            embs,
            thr,
            i,
            j,
        ))
}

/// The embedding list the merger accepts: nonempty, uniform nonzero
/// dimensions, and all components in bounds.
pub open spec fn embeddings_valid(embs: Seq<Seq<i64>>) -> bool {
    &&& embs.len() >= 1
    &&& (forall|i: int| 0 <= i < embs.len() ==> (#[trigger] embs[i]).len() >= 1)
    &&& (forall|i: int| 0 <= i < embs.len() ==> (#[trigger] embs[i]).len() == embs[0].len())
    &&& (forall|i: int| 0 <= i < embs.len() ==> emb_wf(#[trigger] embs[i]))
}

/// The sum of component `d` over the first `m` member embeddings.
pub open spec fn sum_dim(embs: Seq<Seq<i64>>, idxs: Seq<usize>, d: int, m: int) -> int
    decreases m,
{
    if m <= 0 {
        0
    } else {
        sum_dim(embs, idxs, d, m - 1) + embs[idxs[m - 1] as int][d]
    }
}

/// Integer division rounding toward zero, as the machine division does.
pub open spec fn div_to_zero(s: int, c: int) -> int {
    if s < 0 {
        -((-s) / c)
    } else {
        s / c
    }
}

/// What one well-formed group says, relative to the labeling: its members
/// are exactly the indices carrying its root as label, in increasing
/// order, with their texts, importances and the componentwise mean of
/// their embeddings.
pub open spec fn group_ok(
    concepts: Seq<Concept>,
    embs: Seq<Seq<i64>>,
    lab: Seq<usize>,
    g: MergedGroup,
) -> bool {
    let idxs = g.member_indices@;
    &&& idxs.len() >= 1
    &&& g.members@.len() == idxs.len()
    &&& g.member_importances@.len() == idxs.len()
    &&& g.root == idxs[0]
    &&& (forall|m: int| 0 <= m < idxs.len() ==> (#[trigger] idxs[m] as int) < lab.len())
    &&& (forall|m: int| 0 <= m < idxs.len() ==> lab[#[trigger] idxs[m] as int] == g.root)
    &&& (forall|m: int| 0 < m < idxs.len() ==> idxs[m - 1] < #[trigger] idxs[m])
    &&& (forall|k: int|
        0 <= k < lab.len() && #[trigger] lab[k] == g.root ==> exists|m: int|
            0 <= m < idxs.len() && #[trigger] idxs[m] == k)
    &&& (forall|m: int|
        0 <= m < idxs.len() ==> (#[trigger] g.members@[m])@ == concepts[idxs[m] as int].concept@)
    &&& (forall|m: int|
        0 <= m < idxs.len() ==> #[trigger] g.member_importances@[m] == concepts[idxs[
            m
        ] as int].importance)
    &&& g.avg_embedding@.len() == embs[0].len()
    &&& emb_wf(g.avg_embedding@)
    &&& (forall|d: int|
        0 <= d < g.avg_embedding@.len() ==> #[trigger] g.avg_embedding@[d] == div_to_zero(
            sum_dim(embs, idxs, d, idxs.len() as int),
            idxs.len() as int,
        ))
}

/// The full merger contract, relative to a labeling: every group is
/// well-formed, roots appear in increasing order, and every root of the
/// labeling has its group.
pub open spec fn merge_ok(
    concepts: Seq<Concept>,
    embs: Seq<Seq<i64>>,
    thr: int,
    groups: Seq<MergedGroup>,
    lab: Seq<usize>,
) -> bool {
    &&& labels_ok(embs, thr, lab)
    &&& (forall|g: int|
        0 <= g < groups.len() ==> group_ok(concepts, embs, lab, #[trigger] groups[g]))
    &&& (forall|g: int| 0 < g < groups.len() ==> groups[g - 1].root < (#[trigger] groups[g]).root)
    &&& (forall|k: int|
        0 <= k < lab.len() && #[trigger] lab[k] == k ==> exists|g: int|
            0 <= g < groups.len() && (#[trigger] groups[g]).root == k)
}

/// The number of members over all groups.
pub open spec fn total_members(groups: Seq<MergedGroup>, g: int) -> int
    decreases g,
{
    if g <= 0 {
        0
    } else {
        total_members(groups, g - 1) + groups[g - 1].member_indices@.len()
    }
}

/// How many of the first `m` labels are below `r`.
pub open spec fn cnt_lt(lab: Seq<usize>, r: int, m: int) -> int
    decreases m,
{
    if m <= 0 {
        0
    } else {
        cnt_lt(lab, r, m - 1) + if (lab[m - 1] as int) < r {
            1int
        } else {
            0int
        }
    }
}

/// How many of the first `m` labels equal `r`.
pub open spec fn cnt_eq(lab: Seq<usize>, r: int, m: int) -> int
    decreases m,
{
    if m <= 0 {
        0
    } else {
        cnt_eq(lab, r, m - 1) + if (lab[m - 1] as int) == r {
            1int
        } else {
            0int
        }
    }
}


proof fn lemma_total_members_push(groups: Seq<MergedGroup>, g: MergedGroup, k: int)
    requires
        0 <= k <= groups.len(),
    ensures
        total_members(groups.push(g), k) == total_members(groups, k),
    decreases k,
{
    if k > 0 {
        lemma_total_members_push(groups, g, k - 1);
        assert(groups.push(g)[k - 1] == groups[k - 1]);
    }
}

proof fn lemma_cnt_split(lab: Seq<usize>, r: int, m: int)
    ensures
        cnt_lt(lab, r + 1, m) == cnt_lt(lab, r, m) + cnt_eq(lab, r, m),
    decreases m,
{
    if m > 0 {
        lemma_cnt_split(lab, r, m - 1);
    }
}

proof fn lemma_cnt_lt_zero(lab: Seq<usize>, m: int)
    ensures
        cnt_lt(lab, 0, m) == 0,
    decreases m,
{
    if m > 0 {
        lemma_cnt_lt_zero(lab, m - 1);
    }
}

proof fn lemma_cnt_lt_all(lab: Seq<usize>, r: int, m: int)
    requires
        forall|k: int| 0 <= k < lab.len() ==> (#[trigger] lab[k] as int) < r,
        0 <= m <= lab.len(),
    ensures
        cnt_lt(lab, r, m) == m,
    decreases m,
{
    if m > 0 {
        lemma_cnt_lt_all(lab, r, m - 1);
    }
}

proof fn lemma_cnt_eq_empty(lab: Seq<usize>, r: int, m: int)
    requires
        0 <= m <= lab.len(),
        0 <= r < lab.len(),
        lab[r] != r,
        forall|t: int| 0 <= t < lab.len() ==> lab[#[trigger] lab[t] as int] == lab[t],
    ensures
        cnt_eq(lab, r, m) == 0,
    decreases m,
{
    if m > 0 {
        lemma_cnt_eq_empty(lab, r, m - 1);
        if lab[m - 1] as int == r {
            assert(lab[r] == r);
        }
    }
}

/// Checks that an embedding list is acceptable to the merger.
pub fn check_embeddings(embeddings: &Vec<Vec<i64>>) -> (r: bool)
    ensures
        r == embeddings_valid(embeddings.deep_view()),
{
    let n = embeddings.len();
    if n == 0 {
        return false;
    }
    proof {
        lemma_nested_index(embeddings, 0);
    }
    let dim = embeddings[0].len();
    let mut i: usize = 0;
    while i < n
        invariant
            i <= n == embeddings@.len(),
            n >= 1,
            dim == embeddings.deep_view()[0].len(),
            forall|k: int|
                0 <= k < i ==> {
                    let e = #[trigger] embeddings.deep_view()[k];
                    e.len() >= 1 && e.len() == dim && emb_wf(e)
                },
        decreases n - i,
    {
        proof {
            lemma_nested_index(embeddings, i as int);
        }
        let e = &embeddings[i];
        if e.len() == 0 || e.len() != dim || e.len() > MAX_DIM {
            return false;
        }
        let mut d: usize = 0;
        while d < e.len()
            invariant
                d <= e@.len(),
                i < embeddings@.len(),
                e@ == embeddings.deep_view()[i as int],
                forall|t: int| 0 <= t < d ==> -EMB_LIMIT <= #[trigger] e@[t] <= EMB_LIMIT,
            decreases e@.len() - d,
        {
            if e[d] < -EMB_LIMIT || e[d] > EMB_LIMIT {
                return false;
            }
            d = d + 1;
        }
        i = i + 1;
    }
    true
}

/// Rewrites every occurrence of the label `hi` to `lo`.
fn relabel(labels: &mut Vec<usize>, lo: usize, hi: usize)
    requires
        lo < hi < old(labels)@.len(),
    ensures
        final(labels)@.len() == old(labels)@.len(),
        forall|u: int|
            0 <= u < old(labels)@.len() ==> #[trigger] final(labels)@[u] == (if old(labels)@[u]
                == hi {
                lo
            } else {
                old(labels)@[u]
            }),
{
    let n = labels.len();
    let ghost before = labels@;
    let mut t: usize = 0;
    while t < n
        invariant
            t <= n == labels@.len(),
            before.len() == n,
            lo < hi < n,
            forall|u: int|
                0 <= u < t ==> #[trigger] labels@[u] == (if before[u] == hi {
                    lo
                } else {
                    before[u]
                }),
            forall|u: int| t <= u < n ==> #[trigger] labels@[u] == before[u],
        decreases n - t,
    {
        if labels[t] == hi {
            labels[t] = lo;
        }
        t = t + 1;
    }
}

/// Propagates labels until any two indices with similarity above the
/// threshold share one.
fn propagate_labels(embeddings: &Vec<Vec<i64>>, threshold_milli: i64) -> (labels: Vec<usize>)
    requires
        embeddings_valid(embeddings.deep_view()),
    ensures
        labels@.len() == embeddings@.len(),
        labels_ok(embeddings.deep_view(), threshold_milli as int, labels@),
{
    let ghost embs = embeddings.deep_view();
    let ghost thr = threshold_milli as int;
    let n = embeddings.len();
    let mut labels: Vec<usize> = Vec::new();
    let mut k: usize = 0;
    while k < n
        invariant
            k <= n,
            labels@.len() == k,
            forall|t: int| 0 <= t < k ==> #[trigger] labels@[t] == t,
        decreases n - k,
    {
        labels.push(k);
        k = k + 1;
    }
    proof {
        assert forall|a: int, b: int|
            #![trigger labels@[a], labels@[b]]
            0 <= a < n && 0 <= b < n && labels@[a] == labels@[b] implies connected(
            embs,
            thr,
            a,
            b,
        ) by {
            assert(labels@[a] == a && labels@[b] == b);
            lemma_conn_refl(embs, thr, a);
        }
    }
    let mut i: usize = 0;
    while i < n
        invariant
            i <= n == embeddings@.len(),
            embs == embeddings.deep_view(),
            embeddings_valid(embs),
            thr == threshold_milli as int,
            labels@.len() == n,
            forall|t: int| 0 <= t < n ==> #[trigger] labels@[t] <= t,
            forall|t: int| 0 <= t < n ==> labels@[#[trigger] labels@[t] as int] == labels@[t],
            forall|a: int, b: int|
                0 <= a < b < n && a < i && #[trigger] adjacent(embs, thr, a, b) ==> labels@[a]
                    == labels@[b],
            forall|a: int, b: int|
                #![trigger labels@[a], labels@[b]]
                0 <= a < n && 0 <= b < n && labels@[a] == labels@[b] ==> connected(
                    embs,
                    thr,
                    a,
                    b,
                ),
        decreases n - i,
    {
        let mut j: usize = i + 1;
        while j < n
            invariant
                i < n == embeddings@.len(),
                i + 1 <= j <= n,
                embs == embeddings.deep_view(),
                embeddings_valid(embs),
                thr == threshold_milli as int,
                labels@.len() == n,
                forall|t: int| 0 <= t < n ==> #[trigger] labels@[t] <= t,
                forall|t: int| 0 <= t < n ==> labels@[#[trigger] labels@[t] as int] == labels@[t],
                forall|a: int, b: int|
                    0 <= a < b < n && a < i && #[trigger] adjacent(embs, thr, a, b) ==> labels@[a]
                        == labels@[b],
                forall|b: int|
                    i < b < j && #[trigger] adjacent(embs, thr, i as int, b) ==> labels@[i as int]
                        == labels@[b],
                forall|a: int, b: int|
                    #![trigger labels@[a], labels@[b]]
                    0 <= a < n && 0 <= b < n && labels@[a] == labels@[b] ==> connected(
                        embs,
                        thr,
                        a,
                        b,
                    ),
            decreases n - j,
        {
            proof {
                lemma_nested_index(embeddings, i as int);
                lemma_nested_index(embeddings, j as int);
            }
            let ghost before = labels@;
            let s = cosine_milli(&embeddings[i], &embeddings[j]);
            if s > threshold_milli {
                let li = labels[i];
                let lj = labels[j];
                if li != lj {
                    let lo = if li < lj {
                        li
                    } else {
                        lj
                    };
                    let hi = if li < lj {
                        lj
                    } else {
                        li
                    };
                    proof {
                        assert(before[lo as int] == lo);
                        assert(before[hi as int] == hi);
                    }
                    relabel(&mut labels, lo, hi);
                    proof {
                        let after = labels@;
                        assert forall|u: int| 0 <= u < n implies #[trigger] after[u] <= u by {
                            if before[u] == hi {
                                assert(after[u] == lo);
                            }
                        }
                        assert forall|u: int| 0 <= u < n implies after[#[trigger] after[u] as int]
                            == after[u] by {
                            if before[u] == hi {
                                assert(after[u] == lo);
                                assert(after[lo as int] == lo);
                            } else {
                                assert(after[u] == before[u]);
                                assert(before[before[u] as int] == before[u]);
                                assert(before[u] != hi);
                                assert(after[before[u] as int] == before[u]);
                            }
                        }
                        assert(after[i as int] == lo && after[j as int] == lo);
                        let x_hi = if li == hi {
                            i as int
                        } else {
                            j as int
                        };
                        let x_lo = if li == hi {
                            j as int
                        } else {
                            i as int
                        };
                        assert(before[x_hi] == hi && before[x_lo] == lo);
                        assert(adjacent(embs, thr, i as int, j as int));
                        lemma_conn_edge(embs, thr, x_hi, x_lo);
                        assert forall|a: int, b: int|
                            #![trigger after[a], after[b]]
                            0 <= a < n && 0 <= b < n && after[a] == after[b] implies connected(
                            embs,
                            thr,
                            a,
                            b,
                        ) by {
                            if before[a] == before[b] {
                                assert(connected(embs, thr, a, b));
                            } else if before[a] == hi {
                                assert(before[b] == lo);
                                assert(connected(embs, thr, a, x_hi));
                                assert(connected(embs, thr, b, x_lo));
                                lemma_conn_trans(embs, thr, a, x_hi, x_lo);
                                lemma_conn_sym(embs, thr, b, x_lo);
                                lemma_conn_trans(embs, thr, a, x_lo, b);
                            } else {
                                assert(before[a] == lo && before[b] == hi);
                                assert(connected(embs, thr, b, x_hi));
                                assert(connected(embs, thr, a, x_lo));
                                lemma_conn_trans(embs, thr, b, x_hi, x_lo);
                                lemma_conn_sym(embs, thr, b, x_lo);
                                lemma_conn_trans(embs, thr, a, x_lo, b);
                            }
                        }
                        assert forall|a: int, b: int|
                            0 <= a < b < n && a < i && #[trigger] adjacent(embs, thr, a, b)
                            implies after[a] == after[b] by {
                            assert(before[a] == before[b]);
                        }
                        assert forall|b: int|
                            i < b <= j && #[trigger] adjacent(embs, thr, i as int, b)
                            implies after[i as int] == after[b] by {
                            if b < j {
                                assert(before[i as int] == before[b]);
                            }
                        }
                    }
                } else {
                    proof {
                        assert(labels@[i as int] == labels@[j as int]);
                    }
                }
            } else {
                proof {
                    assert(!adjacent(embs, thr, i as int, j as int));
                }
            }
            j = j + 1;
        }
        i = i + 1;
    }
    labels
}

/// Collects the members of the group rooted at `r`: all indices whose
/// label is `r`, with their texts and importances.
fn collect_members(concepts: &Vec<Concept>, labels: &Vec<usize>, r: usize) -> (out: (
    Vec<usize>,
    Vec<String>,
    Vec<u32>,
))
    requires
        labels@.len() == concepts@.len(),
        r < labels@.len(),
        labels@[r as int] == r,
        forall|t: int| 0 <= t < labels@.len() ==> #[trigger] labels@[t] <= t,
    ensures
        ({
            let (idxs, mems, imps) = out;
            let lab = labels@;
            &&& idxs@.len() == mems@.len() == imps@.len()
            &&& idxs@.len() == cnt_eq(lab, r as int, lab.len() as int)
            &&& idxs@.len() >= 1
            &&& idxs@[0] == r
            &&& (forall|m: int| 0 <= m < idxs@.len() ==> (#[trigger] idxs@[m] as int) < lab.len())
            &&& (forall|m: int| 0 <= m < idxs@.len() ==> lab[#[trigger] idxs@[m] as int] == r)
            &&& (forall|m: int| 0 < m < idxs@.len() ==> idxs@[m - 1] < #[trigger] idxs@[m])
            &&& (forall|k: int|
                0 <= k < lab.len() && #[trigger] lab[k] == r ==> exists|m: int|
                    0 <= m < idxs@.len() && #[trigger] idxs@[m] == k)
            &&& (forall|m: int|
                0 <= m < idxs@.len() ==> (#[trigger] mems@[m])@ == concepts@[idxs@[
                    m
                ] as int].concept@)
            &&& (forall|m: int|
                0 <= m < idxs@.len() ==> #[trigger] imps@[m] == concepts@[idxs@[
                    m
                ] as int].importance)
        }),
{
    let ghost lab = labels@;
    let n = concepts.len();
    let mut idxs: Vec<usize> = Vec::new();
    let mut mems: Vec<String> = Vec::new();
    let mut imps: Vec<u32> = Vec::new();
    let mut k2: usize = 0;
    while k2 < n
        invariant
            k2 <= n == concepts@.len(),
            lab == labels@,
            lab.len() == n,
            r < n,
            idxs@.len() == mems@.len() == imps@.len(),
            idxs@.len() == cnt_eq(lab, r as int, k2 as int),
            forall|m: int| 0 <= m < idxs@.len() ==> (#[trigger] idxs@[m] as int) < k2,
            forall|m: int| 0 <= m < idxs@.len() ==> lab[#[trigger] idxs@[m] as int] == r,
            forall|m: int| 0 < m < idxs@.len() ==> idxs@[m - 1] < #[trigger] idxs@[m],
            forall|t: int|
                0 <= t < k2 && #[trigger] lab[t] == r ==> exists|m: int|
                    0 <= m < idxs@.len() && #[trigger] idxs@[m] == t,
            forall|m: int|
                0 <= m < idxs@.len() ==> (#[trigger] mems@[m])@ == concepts@[idxs@[
                    m
                ] as int].concept@,
            forall|m: int|
                0 <= m < idxs@.len() ==> #[trigger] imps@[m] == concepts@[idxs@[
                    m
                ] as int].importance,
        decreases n - k2,
    {
        let ghost old_idxs = idxs@;
        if labels[k2] == r {
            idxs.push(k2);
            mems.push(concepts[k2].concept.clone());
            imps.push(concepts[k2].importance);
            proof {
                assert(idxs@[idxs@.len() - 1] == k2);
                assert forall|t: int| 0 <= t < k2 + 1 && #[trigger] lab[t] == r implies exists|
                    m: int,
                |
                    0 <= m < idxs@.len() && #[trigger] idxs@[m] == t by {
                    if t == k2 {
                        assert(idxs@[idxs@.len() - 1] == t);
                    } else {
                        let mm = choose|m: int|
                            0 <= m < old_idxs.len() && #[trigger] old_idxs[m] == t;
                        assert(idxs@[mm] == t);
                    }
                }
            }
        }
        k2 = k2 + 1;
    }
    proof {
        assert(lab[r as int] == r);
        assert(exists|m: int| 0 <= m < idxs@.len() && #[trigger] idxs@[m] == r as int);
        assert(idxs@.len() >= 1);
        // The first member is the root itself: every member's label is `r`,
        // labels never exceed their index, and members are sorted.
        let m0 = choose|m: int| 0 <= m < idxs@.len() && #[trigger] idxs@[m] == r as int;
        if m0 > 0 {
            assert(idxs@[0] < idxs@[m0]);
        }
        assert(lab[idxs@[0] as int] == r && idxs@[0] <= r);
        assert(lab[idxs@[0] as int] <= idxs@[0]);
        assert(idxs@[0] == r);
    }
    (idxs, mems, imps)
}

/// The componentwise mean of the member embeddings, rounded toward zero.
fn average_embedding(embeddings: &Vec<Vec<i64>>, idxs: &Vec<usize>) -> (avg: Vec<i64>)
    requires
        embeddings_valid(embeddings.deep_view()),
        idxs@.len() >= 1,
        forall|m: int| 0 <= m < idxs@.len() ==> (#[trigger] idxs@[m] as int) < embeddings@.len(),
    ensures
        avg@.len() == embeddings.deep_view()[0].len(),
        emb_wf(avg@),
        forall|d: int|
            0 <= d < avg@.len() ==> #[trigger] avg@[d] == div_to_zero(
                sum_dim(embeddings.deep_view(), idxs@, d, idxs@.len() as int),
                idxs@.len() as int,
            ),
{
    let ghost embs = embeddings.deep_view();
    proof {
        lemma_nested_index(embeddings, 0);
    }
    let dim = embeddings[0].len();
    let cnt = idxs.len();
    let mut avg: Vec<i64> = Vec::new();
    let mut d: usize = 0;
    while d < dim
        invariant
            d <= dim == embs[0].len(),
            embs == embeddings.deep_view(),
            embeddings_valid(embs),
            cnt == idxs@.len() >= 1,
            forall|m: int| 0 <= m < idxs@.len() ==> (#[trigger] idxs@[m] as int)
                < embeddings@.len(),
            avg@.len() == d,
            forall|t: int|
                0 <= t < d ==> #[trigger] avg@[t] == div_to_zero(
                    sum_dim(embs, idxs@, t, idxs@.len() as int),
                    idxs@.len() as int,
                ),
            forall|t: int| 0 <= t < d ==> -EMB_LIMIT <= #[trigger] avg@[t] <= EMB_LIMIT,
        decreases dim - d,
    {
        let mut sum: i128 = 0;
        let mut m: usize = 0;
        while m < cnt
            invariant
                m <= cnt == idxs@.len(),
                d < dim == embs[0].len(),
                embs == embeddings.deep_view(),
                embeddings_valid(embs),
                forall|t: int| 0 <= t < idxs@.len() ==> (#[trigger] idxs@[t] as int)
                    < embeddings@.len(),
                sum as int == sum_dim(embs, idxs@, d as int, m as int),
                -(m * EMB_LIMIT) <= sum as int <= m * EMB_LIMIT,
            decreases cnt - m,
        {
            let idx = idxs[m];
            proof {
                lemma_nested_index(embeddings, idx as int);
                assert(embs[idx as int].len() == dim);
                assert(emb_wf(embs[idx as int]));
                assert(-EMB_LIMIT <= embs[idx as int][d as int] <= EMB_LIMIT);
                assert((m + 1) * EMB_LIMIT == m * EMB_LIMIT + EMB_LIMIT) by (nonlinear_arith);
            }
            let v = embeddings[idx][d];
            sum = sum + (v as i128);
            m = m + 1;
        }
        let c = cnt as i128;
        let q: i128 = if sum < 0 {
            -((-sum) / c)
        } else {
            sum / c
        };
        proof {
            assert(-EMB_LIMIT <= q as int <= EMB_LIMIT) by (nonlinear_arith)
                requires
                    cnt as int >= 1,
                    -(cnt as int * EMB_LIMIT) <= sum as int <= cnt as int * EMB_LIMIT,
                    q as int == (if (sum as int) < 0 {
                        -((-(sum as int)) / (cnt as int))
                    } else {
                        (sum as int) / (cnt as int)
                    }),
            ;
        }
        avg.push(q as i64);
        d = d + 1;
    }
    avg
}

/// Merges concepts whose embeddings are more similar than
/// `threshold_milli`, transitively, into groups.
///
/// Fails with `InvalidInput` exactly when the lists differ in length or
/// the embeddings are empty, of non-uniform or zero dimension, or out of
/// bounds.  On success the groups partition the indices `0..n`: the member
/// counts add up to `n`, members are disjoint and sorted, adjacent indices
/// land in one group, and each group carries its member texts and
/// importances and the mean of its embeddings.

/// Builds the group rooted at `r` from the labeling.
fn build_group(
    concepts: &Vec<Concept>,
    embeddings: &Vec<Vec<i64>>,
    labels: &Vec<usize>,
    r: usize,
) -> (g: MergedGroup)
    requires
        labels@.len() == concepts@.len(),
        concepts@.len() == embeddings@.len(),
        embeddings_valid(embeddings.deep_view()),
        r < labels@.len(),
        labels@[r as int] == r,
        forall|t: int| 0 <= t < labels@.len() ==> #[trigger] labels@[t] <= t,
    ensures
        group_ok(concepts@, embeddings.deep_view(), labels@, g),
        g.root == r,
        g.member_indices@.len() == cnt_eq(labels@, r as int, labels@.len() as int),
{
    let (idxs, mems, imps) = collect_members(concepts, labels, r);
    let avg = average_embedding(embeddings, &idxs);
    MergedGroup {
        members: mems,
        member_indices: idxs,
        member_importances: imps,
        avg_embedding: avg,
        root: r,
    }
}

#[verifier::rlimit(100)]
pub fn merge_similar_concepts(
    concepts: &Vec<Concept>,
    embeddings: &Vec<Vec<i64>>,
    threshold_milli: i64,
) -> (r: Result<Vec<MergedGroup>, ApiError>)
    ensures
        ({
            let ok = concepts@.len() == embeddings@.len() && embeddings_valid(
                embeddings.deep_view(),
            );
            &&& r is Err <==> !ok
            &&& r is Err ==> r->Err_0 == ApiError::InvalidInput
            &&& r is Ok ==> {
                let groups = r->Ok_0;
                &&& groups@.len() >= 1
                &&& total_members(groups@, groups@.len() as int) == concepts@.len()
                &&& exists|lab: Seq<usize>|
                    #[trigger] merge_ok(
                        concepts@,
                        embeddings.deep_view(),
                        threshold_milli as int,
                        groups@,
                        lab,
                    )
            }
        }),
{
    let n = concepts.len();
    if n != embeddings.len() || !check_embeddings(embeddings) {
        return Err(ApiError::InvalidInput);
    }
    let ghost embs = embeddings.deep_view();
    let ghost thr = threshold_milli as int;

    let labels = propagate_labels(embeddings, threshold_milli);
    let ghost lab = labels@;

    let mut groups: Vec<MergedGroup> = Vec::new();
    let mut r: usize = 0;
    proof {
        lemma_cnt_lt_zero(lab, n as int);
    }
    while r < n
        invariant
            r <= n == concepts@.len(),
            n == embeddings@.len(),
            embs == embeddings.deep_view(),
            embeddings_valid(embs),
            lab == labels@,
            lab.len() == n,
            thr == threshold_milli as int,
            labels_ok(embs, thr, lab),
            forall|g: int|
                0 <= g < groups@.len() ==> group_ok(concepts@, embs, lab, #[trigger] groups@[g]),
            forall|g: int|
                0 < g < groups@.len() ==> groups@[g - 1].root < (#[trigger] groups@[g]).root,
            forall|g: int| 0 <= g < groups@.len() ==> (#[trigger] groups@[g]).root < r,
            forall|k2: int|
                0 <= k2 < n && #[trigger] lab[k2] == k2 && k2 < r ==> exists|g: int|
                    0 <= g < groups@.len() && (#[trigger] groups@[g]).root == k2,
            total_members(groups@, groups@.len() as int) == cnt_lt(lab, r as int, n as int),
        decreases n - r,
    {
        if labels[r] == r {
            let group = build_group(concepts, embeddings, &labels, r);
            let ghost old_groups = groups@;
            groups.push(group);
            proof {
                lemma_cnt_split(lab, r as int, n as int);
                lemma_total_members_push(old_groups, group, old_groups.len() as int);
                assert(groups@[groups@.len() - 1].root == r);
                assert(group_ok(concepts@, embs, lab, groups@[groups@.len() - 1]));
                assert forall|g: int| 0 <= g < groups@.len() implies group_ok(
                    concepts@,
                    embs,
                    lab,
                    #[trigger] groups@[g],
                ) by {
                    if g < old_groups.len() {
                        assert(groups@[g] == old_groups[g]);
                    }
                }
                assert forall|k2: int|
                    0 <= k2 < n && #[trigger] lab[k2] == k2 && k2 < r + 1 implies exists|g: int|
                    0 <= g < groups@.len() && (#[trigger] groups@[g]).root == k2 by {
                    if k2 == r {
                        assert(groups@[groups@.len() - 1].root == k2);
                    } else {
                        let gg = choose|g: int|
                            0 <= g < old_groups.len() && (#[trigger] old_groups[g]).root == k2;
                        assert(groups@[gg].root == k2);
                    }
                }
                assert(total_members(groups@, groups@.len() as int) == total_members(
                    old_groups,
                    old_groups.len() as int,
                ) + group.member_indices@.len());
            }
        } else {
            proof {
                lemma_cnt_split(lab, r as int, n as int);
                lemma_cnt_eq_empty(lab, r as int, n as int);
            }
        }
        r = r + 1;
    }
    proof {
        lemma_cnt_lt_all(lab, n as int, n as int);
        assert(lab[0] == 0);
        assert(groups@.len() >= 1);
        assert(merge_ok(concepts@, embs, thr, groups@, lab));
    }
    Ok(groups)
}


/// The continuous similarity matrix over a set of embeddings: every cosine
/// kept, the unused diagonal set to 0.  The matrix is symmetric because the
/// cosine is.
pub fn similarity_matrix(embeddings: &Vec<Vec<i64>>) -> (m: Vec<Vec<i64>>)
    requires
        embeddings_valid(embeddings.deep_view()),
    ensures
        ({
            let n = embeddings@.len() as int;
            let mv = m.deep_view();
            let embs = embeddings.deep_view();
            &&& crate::layout::sims_wf(mv, n)
            &&& (forall|i: int| 0 <= i < n ==> #[trigger] mv[i][i] == 0)
            &&& (forall|i: int, j: int|
                0 <= i < n && 0 <= j < n && i != j ==> #[trigger] mv[i][j] == spec_cosine_milli(
                    embs[i],
                    embs[j],
                ))
        }),
{
    let ghost embs = embeddings.deep_view();
    let n = embeddings.len();
    let mut m: Vec<Vec<i64>> = Vec::new();
    let mut i: usize = 0;
    while i < n
        invariant
            i <= n == embeddings@.len(),
            embs == embeddings.deep_view(),
            embeddings_valid(embs),
            m@.len() == i,
            forall|a: int| 0 <= a < i ==> (#[trigger] m.deep_view()[a]).len() == n,
            forall|a: int| 0 <= a < i ==> #[trigger] m.deep_view()[a][a] == 0,
            forall|a: int, b: int|
                0 <= a < i && 0 <= b < n && a != b ==> #[trigger] m.deep_view()[a][b]
                    == spec_cosine_milli(embs[a], embs[b]),
            forall|a: int, b: int|
                0 <= a < i && 0 <= b < n ==> -1000 <= #[trigger] m.deep_view()[a][b] <= 1000,
        decreases n - i,
    {
        let mut row: Vec<i64> = Vec::new();
        let mut j: usize = 0;
        while j < n
            invariant
                j <= n == embeddings@.len(),
                i < n,
                embs == embeddings.deep_view(),
                embeddings_valid(embs),
                row@.len() == j,
                forall|b: int| 0 <= b < j && b != i ==> #[trigger] row@[b] == spec_cosine_milli(
                    embs[i as int],
                    embs[b],
                ),
                i < j ==> row@[i as int] == 0,
                forall|b: int| 0 <= b < j ==> -1000 <= #[trigger] row@[b] <= 1000,
            decreases n - j,
        {
            if j == i {
                row.push(0);
            } else {
                proof {
                    lemma_nested_index(embeddings, i as int);
                    lemma_nested_index(embeddings, j as int);
                }
                let c = cosine_milli(&embeddings[i], &embeddings[j]);
                row.push(c);
            }
            j = j + 1;
        }
        let ghost old_m = m.deep_view();
        m.push(row);
        proof {
            assert forall|a: int| 0 <= a < i + 1 implies (#[trigger] m.deep_view()[a]).len() == n
                && m.deep_view()[a][a] == 0 by {
                if a < i {
                    assert(m@[a] == m@.subrange(0, i as int)[a]);
                    assert(m.deep_view()[a] =~= old_m[a]);
                } else {
                    assert(m.deep_view()[a] =~= row@);
                }
            }
            assert forall|a: int, b: int|
                0 <= a < i + 1 && 0 <= b < n implies -1000 <= #[trigger] m.deep_view()[a][b]
                <= 1000 && (a != b ==> m.deep_view()[a][b] == spec_cosine_milli(
                embs[a],
                embs[b],
            )) by {
                if a < i {
                    assert(m.deep_view()[a] =~= old_m[a]);
                } else {
                    assert(m.deep_view()[a] =~= row@);
                }
            }
        }
        i = i + 1;
    }
    m
}

} // verus!

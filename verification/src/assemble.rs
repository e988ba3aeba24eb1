//! Assembling the final concept groups.
//!
//! Each merged group gets its position, its neighbors — every other group
//! with positive continuous similarity — an importance score, and a
//! compact group id.  The merger emits groups in increasing root order, so
//! the compact id of a group is its index.

use vstd::prelude::*;

use crate::error::ApiError;
use crate::layout::sims_wf;
use crate::layout::Vec3;
use crate::merge::MergedGroup;

verus! {

/// Most groups the assembler accepts; keeps every score within a machine
/// word.
pub const MAX_GROUPS: usize = 0x1000_0000;

/// The output entity of the pipeline.
pub struct ConceptGroup {
    /// The member surface forms after merging.
    pub concepts: Vec<String>,
    /// The final 3-D position, in milli-units.
    pub reduced_embedding: Vec3,
    /// Indices of other groups with positive continuous similarity.
    pub connections: Vec<usize>,
    /// The importance score, in milli-units.
    pub importance_score: u64,
    /// The compact, contiguous group id.
    pub group_id: usize,
}

/// The importances of the members, summed over the first `m`.
pub open spec fn sum_imps(imps: Seq<u32>, m: int) -> int
    decreases m,
{
    if m <= 0 {
        0
    } else {
        sum_imps(imps, m - 1) + imps[m - 1]
    }
}

/// The mean importance of the members, or the default for an empty list.
pub open spec fn avg_importance(imps: Seq<u32>) -> int {
    if imps.len() == 0 {
        500
    } else {
        sum_imps(imps, imps.len() as int) / imps.len() as int
    }
}

/// The importance score of a group: a weighted blend of the members' mean
/// importance, the connection count and the member count, floored at a
/// tenth of a unit.
pub open spec fn spec_importance(avg_imp: int, conn: int, cnt: int) -> int {
    let v = avg_imp * 2 / 5 + conn * 400 + cnt * 200;
    if v < 100 {
        100
    } else {
        v
    }
}

/// The connection list of group `i`: exactly the other groups with
/// positive similarity, in increasing order.
pub open spec fn connections_ok(sims: Seq<Seq<i64>>, i: int, conns: Seq<usize>) -> bool {
    &&& (forall|m: int|
        0 <= m < conns.len() ==> (#[trigger] conns[m] as int) < sims.len() && conns[m] as int != i
            && sims[i][conns[m] as int] > 0)
    &&& (forall|m: int| 0 < m < conns.len() ==> conns[m - 1] < #[trigger] conns[m])
    &&& (forall|j: int|
        0 <= j < sims.len() && j != i && #[trigger] sims[i][j] > 0 ==> exists|m: int|
            0 <= m < conns.len() && #[trigger] conns[m] as int == j)
}

/// The full assembler contract: group `g` of the output carries the `g`-th
/// merged group's members, its position, its connection list and its
/// importance score, under the compact id `g`.
pub open spec fn assembled_ok(
    merged: Seq<MergedGroup>,
    positions: Seq<Vec3>,
    sims: Seq<Seq<i64>>,
    out: Seq<ConceptGroup>,
) -> bool {
    &&& out.len() == merged.len()
    &&& (forall|g: int| 0 <= g < out.len() ==> (#[trigger] out[g]).group_id == g)
    &&& (forall|g: int|
        0 <= g < out.len() ==> (#[trigger] out[g]).concepts@.len() == merged[g].members@.len())
    &&& (forall|g: int, m: int|
        0 <= g < out.len() && 0 <= m < merged[g].members@.len() ==> (#[trigger] out[
            g
        ].concepts@[m])@ == merged[g].members@[m]@)
    &&& (forall|g: int| 0 <= g < out.len() ==> (#[trigger] out[g]).reduced_embedding == positions[g])
    &&& (forall|g: int| 0 <= g < out.len() ==> connections_ok(sims, g, (#[trigger] out[g]).connections@))
    &&& (forall|g: int|
        0 <= g < out.len() ==> (#[trigger] out[g]).importance_score as int == spec_importance(
            avg_importance(merged[g].member_importances@),
            out[g].connections@.len() as int,
            merged[g].members@.len() as int,
        ))
}

/// Connections are symmetric: when the similarity matrix is symmetric,
/// group `j` appears among `i`'s connections exactly when `i` appears
/// among `j`'s.
pub proof fn lemma_connections_symmetric(
    merged: Seq<MergedGroup>,
    positions: Seq<Vec3>,
    sims: Seq<Seq<i64>>,
    out: Seq<ConceptGroup>,
    i: int,
    j: int,
)
    requires
        assembled_ok(merged, positions, sims, out),
        sims.len() == out.len(),
        forall|a: int, b: int|
            0 <= a < sims.len() && 0 <= b < sims.len() ==> #[trigger] sims[a][b] == sims[b][a],
        0 <= i < out.len(),
        0 <= j < out.len(),
        i != j,
    ensures
        (exists|m: int| 0 <= m < out[i].connections@.len() && out[i].connections@[m] as int == j)
            <==> (exists|m: int|
            0 <= m < out[j].connections@.len() && out[j].connections@[m] as int == i),
{
    assert(connections_ok(sims, i, out[i].connections@));
    assert(connections_ok(sims, j, out[j].connections@));
    if exists|m: int| 0 <= m < out[i].connections@.len() && out[i].connections@[m] as int == j {
        let m = choose|m: int|
            0 <= m < out[i].connections@.len() && #[trigger] out[i].connections@[m] as int == j;
        assert(sims[i][out[i].connections@[m] as int] > 0);
        assert(sims[j][i] > 0);
    }
    if exists|m: int| 0 <= m < out[j].connections@.len() && out[j].connections@[m] as int == i {
        let m = choose|m: int|
            0 <= m < out[j].connections@.len() && #[trigger] out[j].connections@[m] as int == i;
        assert(sims[j][out[j].connections@[m] as int] > 0);
        assert(sims[i][j] > 0);
    }
}

/// The connection list of one group.
fn collect_connections(sims: &Vec<Vec<i64>>, g: usize, n: usize) -> (conns: Vec<usize>)
    requires
        n == sims@.len(),
        g < n,
        sims_wf(sims.deep_view(), n as int),
    ensures
        connections_ok(sims.deep_view(), g as int, conns@),
        conns@.len() < n,
{
    let ghost sv = sims.deep_view();
    let mut conns: Vec<usize> = Vec::new();
    let mut j: usize = 0;
    proof {
        crate::merge::lemma_nested_index(sims, g as int);
    }
    while j < n
        invariant
            j <= n == sims@.len(),
            g < n,
            sv == sims.deep_view(),
            sims_wf(sv, n as int),
            sv[g as int] == sims@[g as int]@,
            forall|m: int|
                0 <= m < conns@.len() ==> (#[trigger] conns@[m] as int) < j && conns@[m] as int
                    != g && sv[g as int][conns@[m] as int] > 0,
            forall|m: int| 0 < m < conns@.len() ==> conns@[m - 1] < #[trigger] conns@[m],
            forall|b: int|
                0 <= b < j && b != g && #[trigger] sv[g as int][b] > 0 ==> exists|m: int|
                    0 <= m < conns@.len() && #[trigger] conns@[m] as int == b,
            conns@.len() <= j,
            g < j ==> conns@.len() < j,
        decreases n - j,
    {
        let ghost old_conns = conns@;
        if j != g && sims[g][j] > 0 {
            conns.push(j);
            proof {
                assert(conns@[conns@.len() - 1] == j);
                assert forall|b: int|
                    0 <= b < j + 1 && b != g && #[trigger] sv[g as int][b] > 0 implies exists|
                    m: int,
                |
                    0 <= m < conns@.len() && #[trigger] conns@[m] as int == b by {
                    if b == j {
                        assert(conns@[conns@.len() - 1] as int == b);
                    } else {
                        let mm = choose|m: int|
                            0 <= m < old_conns.len() && #[trigger] old_conns[m] as int == b;
                        assert(conns@[mm] as int == b);
                    }
                }
            }
        }
        j = j + 1;
    }
    conns
}

/// The importance score of one group.
fn importance_score(imps: &Vec<u32>, conn_count: usize, member_count: usize) -> (r: u64)
    requires
        conn_count <= MAX_GROUPS,
        member_count <= MAX_GROUPS,
        imps@.len() <= MAX_GROUPS,
        forall|m: int| 0 <= m < imps@.len() ==> #[trigger] imps@[m] <= 1000,
    ensures
        r as int == spec_importance(
            avg_importance(imps@),
            conn_count as int,
            member_count as int,
        ),
{
    let cnt = imps.len();
    let avg: u64 = if cnt == 0 {
        500
    } else {
        let mut sum: u64 = 0;
        let mut m: usize = 0;
        while m < cnt
            invariant
                m <= cnt == imps@.len() <= MAX_GROUPS,
                forall|t: int| 0 <= t < imps@.len() ==> #[trigger] imps@[t] <= 1000,
                sum as int == sum_imps(imps@, m as int),
                sum <= m * 1000,
            decreases cnt - m,
        {
            proof {
                assert((m + 1) * 1000 == m * 1000 + 1000) by (nonlinear_arith);
            }
            sum = sum + (imps[m] as u64);
            m = m + 1;
        }
        proof {
            assert(cnt as int * 1000 <= MAX_GROUPS as int * 1000) by (nonlinear_arith)
                requires
                    cnt <= MAX_GROUPS,
            ;
            assert(0 <= sum as int / cnt as int <= sum as int) by (nonlinear_arith)
                requires
                    cnt as int >= 1,
                    sum as int >= 0,
            ;
        }
        sum / (cnt as u64)
    };
    let v: u64 = avg * 2 / 5 + (conn_count as u64) * 400 + (member_count as u64) * 200;
    if v < 100 {
        100
    } else {
        v
    }
}

/// Assembles the final concept groups from the merged groups, their
/// positions and the continuous similarity matrix.
///
/// Fails with `DimensionalityError` exactly when the three inputs disagree
/// in length or there are too many groups.  On success, group `g` carries
/// the `g`-th merged group's member texts, the `g`-th position, the
/// neighbors with positive similarity, the importance score, and the
/// compact id `g` — so the ids are exactly `0 .. k`.
pub fn assemble_groups(
    merged: &Vec<MergedGroup>,
    positions: &Vec<Vec3>,
    sims: &Vec<Vec<i64>>,
) -> (r: Result<Vec<ConceptGroup>, ApiError>)
    requires
        sims_wf(sims.deep_view(), sims@.len() as int),
        forall|g: int, m: int|
            0 <= g < merged@.len() && 0 <= m < merged@[g].member_importances@.len()
                ==> #[trigger] merged@[g].member_importances@[m] <= 1000,
        forall|g: int|
            0 <= g < merged@.len() ==> (#[trigger] merged@[g]).members@.len() <= MAX_GROUPS
                && merged@[g].member_importances@.len() <= MAX_GROUPS,
    ensures
        ({
            let ok = merged@.len() == positions@.len() && merged@.len() == sims@.len()
                && merged@.len() <= MAX_GROUPS;
            &&& r is Err <==> !ok
            &&& r is Err ==> r->Err_0 == ApiError::DimensionalityError
            &&& r is Ok ==> assembled_ok(merged@, positions@, sims.deep_view(), r->Ok_0@)
        }),
{
    let n = merged.len();
    if n != positions.len() || n != sims.len() || n > MAX_GROUPS {
        return Err(ApiError::DimensionalityError);
    }
    let ghost sv = sims.deep_view();
    let mut out: Vec<ConceptGroup> = Vec::new();
    let mut g: usize = 0;
    while g < n
        invariant
            g <= n == merged@.len(),
            n == positions@.len() == sims@.len() <= MAX_GROUPS,
            sv == sims.deep_view(),
            sims_wf(sv, n as int),
            forall|a: int, m: int|
                0 <= a < merged@.len() && 0 <= m < merged@[a].member_importances@.len()
                    ==> #[trigger] merged@[a].member_importances@[m] <= 1000,
            forall|a: int|
                0 <= a < merged@.len() ==> (#[trigger] merged@[a]).members@.len() <= MAX_GROUPS
                    && merged@[a].member_importances@.len() <= MAX_GROUPS,
            out@.len() == g,
            forall|a: int| 0 <= a < g ==> (#[trigger] out@[a]).group_id == a,
            forall|a: int|
                0 <= a < g ==> (#[trigger] out@[a]).concepts@.len() == merged@[a].members@.len(),
            forall|a: int, m: int|
                0 <= a < g && 0 <= m < merged@[a].members@.len() ==> (#[trigger] out@[
                    a
                ].concepts@[m])@ == merged@[a].members@[m]@,
            forall|a: int|
                0 <= a < g ==> (#[trigger] out@[a]).reduced_embedding == positions@[a],
            forall|a: int| 0 <= a < g ==> connections_ok(sv, a, (#[trigger] out@[a]).connections@),
            forall|a: int|
                0 <= a < g ==> (#[trigger] out@[a]).importance_score as int == spec_importance(
                    avg_importance(merged@[a].member_importances@),
                    out@[a].connections@.len() as int,
                    merged@[a].members@.len() as int,
                ),
        decreases n - g,
    {
        // Copy the member texts.
        let src = &merged[g];
        let mut concepts: Vec<String> = Vec::new();
        let mut m: usize = 0;
        while m < src.members.len()
            invariant
                m <= src.members@.len(),
                src == merged@[g as int],
                g < merged@.len(),
                concepts@.len() == m,
                forall|t: int|
                    0 <= t < m ==> (#[trigger] concepts@[t])@ == merged@[g as int].members@[t]@,
            decreases src.members@.len() - m,
        {
            concepts.push(src.members[m].clone());
            m = m + 1;
        }
        let conns = collect_connections(sims, g, n);
        let score = importance_score(&src.member_importances, conns.len(), src.members.len());
        let group = ConceptGroup {
            concepts,
            reduced_embedding: positions[g],
            connections: conns,
            importance_score: score,
            group_id: g,
        };
        out.push(group);
        g = g + 1;
    }
    Ok(out)
}

} // verus!

//! The request pipeline: validating inputs, folding prior concepts in,
//! merging, laying out, assembling.
//!
//! The callers perform the outside work — language-model calls, embedding
//! calls, store reads, the principal-component projection — and hand the
//! results in as plain values; everything that decides is here.

use vstd::prelude::*;

use crate::assemble::assemble_groups;
use crate::assemble::assembled_ok;
use crate::assemble::ConceptGroup;
use crate::assemble::MAX_GROUPS;
use crate::concepts::Concept;
use crate::embedding::emb_wf;
use crate::embedding::spec_cosine_milli;
use crate::error::ApiError;
use crate::layout::params_wf;
use crate::layout::run_layout;
use crate::layout::seed_positions;
use crate::layout::sims_wf;
use crate::layout::spec_seed;
use crate::layout::state_after;
use crate::layout::state_bounded;
use crate::layout::state_of;
use crate::layout::LayoutParams;
use crate::layout::Vec3;
use crate::layout::MAX_NODES;
use crate::layout::PROJ_LIMIT;
use crate::merge::embeddings_valid;
use crate::merge::similarity_matrix;
use crate::merge::MergedGroup;

verus! {

/// What a vectorize request asks for: processing the given text, or
/// fetching a URL first.
pub enum RequestSource {
    /// Process this text directly.
    Text(String),
    /// Scrape this URL, then process the extracted text.
    Url(String),
}

/// Resolves a request body: exactly one of `text` and `url` must be given.
pub fn resolve_input(input: &crate::api::TextInput) -> (r: Result<RequestSource, ApiError>)
    ensures
        r is Err <==> (input.text is Some) == (input.url is Some),
        r is Err ==> r->Err_0 == ApiError::InvalidInput,
        input.text is Some && input.url is None ==> (r matches Ok(RequestSource::Text(t)) && t@
            == input.text->0@),
        input.url is Some && input.text is None ==> (r matches Ok(RequestSource::Url(u)) && u@
            == input.url->0@),
{
    match (&input.text, &input.url) {
        (Some(t), None) => Ok(RequestSource::Text(t.clone())),
        (None, Some(u)) => Ok(RequestSource::Url(u.clone())),
        _ => Err(ApiError::InvalidInput),
    }
}

/// Whether one embedding vector is within the library's bounds.
fn embedding_in_bounds(e: &Vec<i64>) -> (r: bool)
    ensures
        r == emb_wf(e@),
{
    if e.len() > crate::embedding::MAX_DIM {
        return false;
    }
    let mut d: usize = 0;
    while d < e.len()
        invariant
            d <= e@.len(),
            e@.len() <= crate::embedding::MAX_DIM,
            forall|t: int|
                0 <= t < d ==> -crate::embedding::EMB_LIMIT <= #[trigger] e@[t]
                    <= crate::embedding::EMB_LIMIT,
        decreases e@.len() - d,
    {
        if e[d] < -crate::embedding::EMB_LIMIT || e[d] > crate::embedding::EMB_LIMIT {
            return false;
        }
        d = d + 1;
    }
    true
}

/// Whether a stored row's embedding is usable: nonempty and within the
/// library's bounds.
pub open spec fn prior_row_ok(row: (Concept, Vec<i64>)) -> bool {
    row.1@.len() >= 1 && emb_wf(row.1@)
}

/// The rows that survive sanitation: exactly the usable ones, in order.
pub open spec fn kept_rows(priors: Seq<(Concept, Vec<i64>)>) -> Seq<(Concept, Vec<i64>)>
    decreases priors.len(),
{
    if priors.len() == 0 {
        Seq::<(Concept, Vec<i64>)>::empty()
    } else {
        let rest = kept_rows(priors.drop_first());
        if prior_row_ok(priors[0]) {
            seq![priors[0]] + rest
        } else {
            rest
        }
    }
}

proof fn lemma_kept_rows_push(priors: Seq<(Concept, Vec<i64>)>, row: (Concept, Vec<i64>))
    ensures
        kept_rows(priors.push(row)) == kept_rows(priors) + (if prior_row_ok(row) {
            seq![row]
        } else {
            Seq::<(Concept, Vec<i64>)>::empty()
        }),
    decreases priors.len(),
{
    let pushed = priors.push(row);
    if priors.len() == 0 {
        assert(pushed[0] == row);
        assert(pushed.drop_first() =~= Seq::<(Concept, Vec<i64>)>::empty());
        assert(kept_rows(pushed.drop_first()) == Seq::<(Concept, Vec<i64>)>::empty());
        if prior_row_ok(row) {
            assert(kept_rows(pushed) =~= seq![row]);
            assert(kept_rows(priors) + seq![row] =~= seq![row]);
        } else {
            assert(kept_rows(pushed) =~= Seq::<(Concept, Vec<i64>)>::empty());
            assert(kept_rows(priors) + Seq::<(Concept, Vec<i64>)>::empty() =~= kept_rows(priors));
        }
    } else {
        assert(pushed[0] == priors[0]);
        assert(pushed.drop_first() =~= priors.drop_first().push(row));
        lemma_kept_rows_push(priors.drop_first(), row);
        let tail = if prior_row_ok(row) {
            seq![row]
        } else {
            Seq::<(Concept, Vec<i64>)>::empty()
        };
        if prior_row_ok(priors[0]) {
            assert(kept_rows(pushed) =~= seq![priors[0]] + (kept_rows(priors.drop_first())
                + tail));
            assert(kept_rows(priors) + tail =~= seq![priors[0]] + (kept_rows(priors.drop_first())
                + tail));
        }
    }
}

/// Drops prior rows whose stored embedding is unusable — empty, too long,
/// or out of component bounds.  A corrupt row never fails the request: the
/// result is exactly the usable rows, in order, each concept still paired
/// with its own embedding.
pub fn sanitize_priors(priors: Vec<(Concept, Vec<i64>)>) -> (r: (Vec<Concept>, Vec<Vec<i64>>))
    ensures
        ({
            let kept = kept_rows(priors@);
            &&& r.0@.len() == kept.len()
            &&& r.1@.len() == kept.len()
            &&& (forall|i: int|
                0 <= i < kept.len() ==> #[trigger] r.0@[i] == kept[i].0 && r.1@[i] == kept[i].1)
        }),
        forall|i: int|
            0 <= i < r.1@.len() ==> (#[trigger] r.1@[i]@).len() >= 1 && emb_wf(r.1@[i]@),
{
    let ghost all = priors@;
    let n0 = priors.len();
    let mut concepts: Vec<Concept> = Vec::new();
    let mut embeddings: Vec<Vec<i64>> = Vec::new();
    let mut rest = priors;
    let mut taken: usize = 0;
    while rest.len() > 0
        invariant
            taken + rest@.len() == all.len(),
            all.len() == n0,
            rest@ =~= all.skip(taken as int),
            concepts@.len() == embeddings@.len(),
            concepts@.len() == kept_rows(all.take(taken as int)).len(),
            forall|i: int|
                0 <= i < concepts@.len() ==> #[trigger] concepts@[i] == kept_rows(
                    all.take(taken as int),
                )[i].0 && embeddings@[i] == kept_rows(all.take(taken as int))[i].1,
            forall|k: int|
                0 <= k < embeddings@.len() ==> (#[trigger] embeddings@[k]@).len() >= 1 && emb_wf(
                    embeddings@[k]@,
                ),
        decreases rest@.len(),
    {
        let (c, e) = rest.remove(0);
        proof {
            assert((c, e) == all[taken as int]);
            assert(all.take(taken + 1) =~= all.take(taken as int).push(all[taken as int]));
            lemma_kept_rows_push(all.take(taken as int), all[taken as int]);
            assert(rest@ =~= all.skip(taken + 1));
        }
        if e.len() >= 1 && embedding_in_bounds(&e) {
            proof {
                assert(prior_row_ok(all[taken as int]));
                assert(kept_rows(all.take(taken + 1)) =~= kept_rows(all.take(taken as int)).push(
                    all[taken as int],
                ));
            }
            concepts.push(c);
            embeddings.push(e);
        } else {
            proof {
                assert(!prior_row_ok(all[taken as int]));
                assert(kept_rows(all.take(taken + 1)) =~= kept_rows(all.take(taken as int)));
            }
        }
        taken = taken + 1;
    }
    proof {
        assert(all.take(all.len() as int) =~= all);
    }
    (concepts, embeddings)
}

/// Joins the freshly extracted concepts with the prior ones.
///
/// Fails with `NoConceptsExtracted` when nothing new was extracted, and
/// with `EmbeddingGenerationError` when the embedder returned a different
/// count than requested; otherwise the new lists come first, priors after.
pub fn combine_with_priors(
    new_concepts: Vec<Concept>,
    new_embeddings: Vec<Vec<i64>>,
    prior_concepts: Vec<Concept>,
    prior_embeddings: Vec<Vec<i64>>,
) -> (r: Result<(Vec<Concept>, Vec<Vec<i64>>), ApiError>)
    requires
        prior_concepts@.len() == prior_embeddings@.len(),
    ensures
        new_concepts@.len() == 0 ==> (r matches Err(e) && e == ApiError::NoConceptsExtracted),
        new_concepts@.len() > 0 && new_concepts@.len() != new_embeddings@.len() ==> (r matches Err(
            e,
        ) && e == ApiError::EmbeddingGenerationError),
        new_concepts@.len() > 0 && new_concepts@.len() == new_embeddings@.len() ==> (r matches Ok(
            p,
        ) && p.0@ == new_concepts@ + prior_concepts@ && p.1@ == new_embeddings@
            + prior_embeddings@),
{
    if new_concepts.len() == 0 {
        return Err(ApiError::NoConceptsExtracted);
    }
    if new_concepts.len() != new_embeddings.len() {
        return Err(ApiError::EmbeddingGenerationError);
    }
    let mut concepts = new_concepts;
    let mut embeddings = new_embeddings;
    let mut pc = prior_concepts;
    let mut pe = prior_embeddings;
    let ghost pcs = pc@;
    let ghost pes = pe@;
    let ghost base_c = concepts@;
    let ghost base_e = embeddings@;
    let mut i: usize = 0;
    let n = pc.len();
    while i < n
        invariant
            i <= n,
            pc@.len() == n - i,
            pe@.len() == n - i,
            n == pcs.len() == pes.len(),
            pc@ =~= pcs.skip(i as int),
            pe@ =~= pes.skip(i as int),
            concepts@ =~= base_c + pcs.take(i as int),
            embeddings@ =~= base_e + pes.take(i as int),
        decreases n - i,
    {
        let c = pc.remove(0);
        let e = pe.remove(0);
        concepts.push(c);
        embeddings.push(e);
        proof {
            assert(pc@ =~= pcs.skip(i + 1));
            assert(pe@ =~= pes.skip(i + 1));
            assert(concepts@ =~= base_c + pcs.take(i + 1));
            assert(embeddings@ =~= base_e + pes.take(i + 1));
        }
        i = i + 1;
    }
    proof {
        assert(concepts@ =~= base_c + pcs);
        assert(embeddings@ =~= base_e + pes);
    }
    Ok((concepts, embeddings))
}

/// The continuous similarity matrix of the merged groups' averaged
/// embeddings, as a mathematical object: all cosines kept, diagonal 0.
pub open spec fn cont_sims(avgs: Seq<Seq<i64>>) -> Seq<Seq<i64>> {
    Seq::new(
        avgs.len(),
        |i: int|
            Seq::new(
                avgs.len(),
                |j: int|
                    if i == j {
                        0i64
                    } else {
                        spec_cosine_milli(avgs[i], avgs[j]) as i64
                    },
            ),
    )
}

/// The averaged embeddings of the merged groups.
pub open spec fn avgs_of(merged: Seq<MergedGroup>) -> Seq<Seq<i64>> {
    Seq::new(merged.len(), |g: int| merged[g].avg_embedding@)
}

/// Copies out the averaged embeddings of the merged groups.
fn copy_avgs(merged: &Vec<MergedGroup>) -> (avgs: Vec<Vec<i64>>)
    ensures
        avgs@.len() == merged@.len(),
        avgs.deep_view() == avgs_of(merged@),
{
    let n = merged.len();
    let mut avgs: Vec<Vec<i64>> = Vec::new();
    let mut g: usize = 0;
    while g < n
        invariant
            g <= n == merged@.len(),
            avgs@.len() == g,
            forall|k: int| 0 <= k < g ==> #[trigger] avgs@[k]@ == merged@[k].avg_embedding@,
        decreases n - g,
    {
        let copy = copy_vec(&merged[g].avg_embedding);
        avgs.push(copy);
        g = g + 1;
    }
    proof {
        assert forall|k: int| 0 <= k < n implies #[trigger] avgs.deep_view()[k] == avgs_of(
            merged@,
        )[k] by {
            assert(avgs.deep_view()[k] =~= avgs@[k]@);
        }
        assert(avgs.deep_view() =~= avgs_of(merged@));
    }
    avgs
}

/// Copies an embedding vector.
fn copy_vec(v: &Vec<i64>) -> (r: Vec<i64>)
    ensures
        r@ == v@,
{
    let mut out: Vec<i64> = Vec::new();
    let mut i: usize = 0;
    while i < v.len()
        invariant
            i <= v@.len(),
            out@ =~= v@.take(i as int),
        decreases v@.len() - i,
    {
        out.push(v[i]);
        proof {
            assert(out@ =~= v@.take(i + 1));
        }
        i = i + 1;
    }
    proof {
        assert(out@ =~= v@);
    }
    out
}

/// Checks the layout parameters against the fixed-point ranges.
fn params_check(p: &LayoutParams) -> (r: bool)
    ensures
        r == params_wf(*p),
{
    0 <= p.attraction && p.attraction <= crate::layout::PARAM_LIMIT && 0 <= p.repulsion
        && p.repulsion <= crate::layout::PARAM_LIMIT && 0 <= p.center_gravity && p.center_gravity
        <= crate::layout::PARAM_LIMIT && 0 <= p.damping && p.damping <= 1000 && 0
        <= p.max_velocity && p.max_velocity <= crate::layout::PARAM_LIMIT && p.iterations
        <= crate::layout::MAX_ITERATIONS
}

/// Checks that every projection coordinate is in range.
fn proj_check(proj: &Vec<Vec3>) -> (r: bool)
    ensures
        r == state_bounded(state_of(proj@), PROJ_LIMIT as int),
{
    let mut i: usize = 0;
    while i < proj.len()
        invariant
            i <= proj@.len(),
            forall|k: int|
                0 <= k < i ==> {
                    let t = #[trigger] state_of(proj@)[k];
                    -PROJ_LIMIT <= t.0 <= PROJ_LIMIT && -PROJ_LIMIT <= t.1 <= PROJ_LIMIT
                        && -PROJ_LIMIT <= t.2 <= PROJ_LIMIT
                },
        decreases proj@.len() - i,
    {
        proof {
            assert(state_of(proj@)[i as int] == (
                proj@[i as int].x as int,
                proj@[i as int].y as int,
                proj@[i as int].z as int,
            ));
        }
        let v = &proj[i];
        if v.x < -PROJ_LIMIT || v.x > PROJ_LIMIT || v.y < -PROJ_LIMIT || v.y > PROJ_LIMIT || v.z
            < -PROJ_LIMIT || v.z > PROJ_LIMIT {
            return false;
        }
        i = i + 1;
    }
    proof {
        assert(state_bounded(state_of(proj@), PROJ_LIMIT as int));
    }
    true
}

/// Checks the member lists of the merged groups: counts within range,
/// importances within the scale.
fn groups_check(merged: &Vec<MergedGroup>) -> (r: bool)
    ensures
        r == ((forall|g: int, m: int|
            0 <= g < merged@.len() && 0 <= m < merged@[g].member_importances@.len()
                ==> #[trigger] merged@[g].member_importances@[m] <= 1000) && (forall|g: int|
            0 <= g < merged@.len() ==> (#[trigger] merged@[g]).members@.len() <= MAX_GROUPS
                && merged@[g].member_importances@.len() <= MAX_GROUPS)),
{
    let n = merged.len();
    let mut g: usize = 0;
    while g < n
        invariant
            g <= n == merged@.len(),
            forall|a: int, m: int|
                0 <= a < g && 0 <= m < merged@[a].member_importances@.len() ==> #[trigger] merged@[
                    a
                ].member_importances@[m] <= 1000,
            forall|a: int|
                0 <= a < g ==> (#[trigger] merged@[a]).members@.len() <= MAX_GROUPS && merged@[
                    a
                ].member_importances@.len() <= MAX_GROUPS,
        decreases n - g,
    {
        let grp = &merged[g];
        if grp.members.len() > MAX_GROUPS || grp.member_importances.len() > MAX_GROUPS {
            return false;
        }
        let mut m: usize = 0;
        while m < grp.member_importances.len()
            invariant
                m <= grp.member_importances@.len(),
                grp == merged@[g as int],
                g < merged@.len(),
                forall|t: int|
                    0 <= t < m ==> #[trigger] merged@[g as int].member_importances@[t] <= 1000,
            decreases grp.member_importances@.len() - m,
        {
            if grp.member_importances[m] > 1000 {
                return false;
            }
            m = m + 1;
        }
        g = g + 1;
    }
    true
}

/// What a successful layout phase returns: the groups are assembled over
/// the continuous similarity matrix of the averaged embeddings, at the
/// positions the simulation reached after `t` steps from the
/// projection-derived seed.
pub open spec fn layout_phase_ok(
    merged: Seq<MergedGroup>,
    proj: Seq<Vec3>,
    params: LayoutParams,
    out: Seq<ConceptGroup>,
    t: int,
) -> bool {
    exists|positions: Seq<Vec3>|
        {
            &&& #[trigger] state_of(positions) == state_after(
                spec_seed(state_of(proj)),
                cont_sims(avgs_of(merged)),
                params,
                t,
            )
            &&& positions.len() == merged.len()
            &&& assembled_ok(merged, positions, cont_sims(avgs_of(merged)), out)
        }
}

/// The inputs under which the layout phase succeeds.
pub open spec fn layout_inputs_ok(
    merged: Seq<MergedGroup>,
    proj: Seq<Vec3>,
    params: LayoutParams,
) -> bool {
    &&& merged.len() == proj.len()
    &&& 1 <= merged.len() <= MAX_NODES
    &&& merged.len() <= MAX_GROUPS
    &&& params_wf(params)
    &&& state_bounded(state_of(proj), PROJ_LIMIT as int)
    &&& embeddings_valid(avgs_of(merged))
    &&& (forall|g: int, m: int|
        0 <= g < merged.len() && 0 <= m < merged[g].member_importances@.len() ==> #[trigger] merged[
            g
        ].member_importances@[m] <= 1000)
    &&& (forall|g: int|
        0 <= g < merged.len() ==> (#[trigger] merged[g]).members@.len() <= MAX_GROUPS && merged[
            g
        ].member_importances@.len() <= MAX_GROUPS)
}

/// Lays out and assembles the merged groups.
///
/// `proj` is the 3-D projection of the averaged embeddings that seeds the
/// simulation; with at most two groups its values are ignored.  Fails with
/// `DimensionalityError` exactly when [`layout_inputs_ok`] does not hold;
/// otherwise the result satisfies [`layout_phase_ok`] at `t` = the number
/// of simulation steps taken, whose per-step kinetic energies come back
/// with the groups.
pub fn layout_phase(
    merged: &Vec<MergedGroup>,
    proj: &Vec<Vec3>,
    params: &LayoutParams,
) -> (r: Result<(Vec<ConceptGroup>, Vec<u64>), ApiError>)
    ensures
        r is Err ==> r->Err_0 == ApiError::DimensionalityError,
        r is Ok <==> layout_inputs_ok(merged@, proj@, *params),
        r is Ok ==> ({
            let (out, energies) = r->Ok_0;
            &&& layout_phase_ok(merged@, proj@, *params, out@, energies@.len() as int)
            &&& energies@.len() <= params.iterations
        }),
{
    let n = merged.len();
    let avgs = copy_avgs(merged);
    let ok = n == proj.len() && 1 <= n && n <= crate::layout::MAX_NODES && n <= MAX_GROUPS
        && params_check(params) && proj_check(proj) && crate::merge::check_embeddings(&avgs)
        && groups_check(merged);
    if !ok {
        return Err(ApiError::DimensionalityError);
    }
    let sims = similarity_matrix(&avgs);
    proof {
        lemma_cont_sims_match(&sims, avgs.deep_view());
        assert(sims.deep_view() == cont_sims(avgs_of(merged@)));
    }
    let seed = seed_positions(proj);
    proof {
        assert(state_bounded(state_of(seed@), crate::layout::SEED_LIMIT as int)) by {
            assert forall|k: int| 0 <= k < state_of(seed@).len() implies {
                let t = #[trigger] state_of(seed@)[k];
                &&& -crate::layout::SEED_LIMIT <= t.0 <= crate::layout::SEED_LIMIT
                &&& -crate::layout::SEED_LIMIT <= t.1 <= crate::layout::SEED_LIMIT
                &&& -crate::layout::SEED_LIMIT <= t.2 <= crate::layout::SEED_LIMIT
            } by {
                assert(-5000 <= state_of(seed@)[k].0 <= 5000);
            }
        }
    }
    let (positions, energies) = run_layout(seed, &sims, params);
    match assemble_groups(merged, &positions, &sims) {
        Ok(out) => {
            proof {
                assert(layout_phase_ok(
                    merged@,
                    proj@,
                    *params,
                    out@,
                    energies@.len() as int,
                )) by {
                    assert(state_of(positions@) == state_after(
                        spec_seed(state_of(proj@)),
                        cont_sims(avgs_of(merged@)),
                        *params,
                        energies@.len() as int,
                    ));
                    assert(assembled_ok(
                        merged@,
                        positions@,
                        cont_sims(avgs_of(merged@)),
                        out@,
                    ));
                }
            }
            Ok((out, energies))
        },
        Err(_) => {
            proof {
                assert(false);
            }
            Err(ApiError::DimensionalityError)
        },
    }
}

/// The exec similarity matrix over the averaged embeddings equals the
/// mathematical one.
proof fn lemma_cont_sims_match(sims: &Vec<Vec<i64>>, avgs: Seq<Seq<i64>>)
    requires
        sims.deep_view().len() == avgs.len(),
        sims_wf(sims.deep_view(), avgs.len() as int),
        forall|i: int| 0 <= i < avgs.len() ==> #[trigger] sims.deep_view()[i][i] == 0,
        forall|i: int, j: int|
            0 <= i < avgs.len() && 0 <= j < avgs.len() && i != j ==> #[trigger] sims.deep_view()[
                i
            ][j] == spec_cosine_milli(avgs[i], avgs[j]),
    ensures
        sims.deep_view() == cont_sims(avgs),
{
    assert forall|i: int| 0 <= i < avgs.len() implies sims.deep_view()[i] =~= cont_sims(avgs)[i] by {
        assert forall|j: int| 0 <= j < avgs.len() implies sims.deep_view()[i][j] == cont_sims(
            avgs,
        )[i][j] by {
            if i != j {
                let v = sims.deep_view()[i][j];
                assert(v as int == spec_cosine_milli(avgs[i], avgs[j]));
                assert((spec_cosine_milli(avgs[i], avgs[j]) as i64) == v);
            }
        }
    }
    assert(sims.deep_view() =~= cont_sims(avgs));
}

} // verus!

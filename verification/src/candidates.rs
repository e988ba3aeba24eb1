//! Candidate keywords: the statistical scoring's verified tail.
//!
//! The callers run the keyphrase and term-frequency scorers and normalize
//! their scores into milli-units; this module filters the scored phrases,
//! collapses morphological variants onto one surviving surface form by
//! stemming, and ranks the survivors.

use vstd::prelude::*;
use vstd::string::StrSliceExecFns;
use vstd::string::StringExecFns;

use crate::concepts::is_space;
use crate::concepts::space_char;
use crate::concepts::token_count;

verus! {

/// A candidate keyword: a phrase and a score in milli-units.
pub struct CandidateKeyword {
    pub phrase: String,
    pub score: u32,
}

/// The stem of a single word, as the external English stemmer returns it.
pub uninterp spec fn stem_of(w: Seq<char>) -> Seq<char>;

/// Relies on rust_stemmers: Stemmer::create with the English Snowball
/// algorithm, whose stem is a function of the word alone.
#[verifier::external_body]
fn stem_word(w: &str) -> (r: String)
    ensures
        r@ == stem_of(w@),
{
    rust_stemmers::Stemmer::create(rust_stemmers::Algorithm::English).stem(w).to_string()
}

/// Appends a stemmed token to a stem key under construction.
pub open spec fn key_append(out: Seq<char>, tok: Seq<char>) -> Seq<char> {
    if out.len() == 0 {
        stem_of(tok)
    } else {
        out + seq![' '] + stem_of(tok)
    }
}

/// The stem-key scan folded over the first `i` characters: the key built
/// from the finished tokens, and the token still open.
pub open spec fn stem_fold(s: Seq<char>, i: int) -> (Seq<char>, Seq<char>)
    decreases i,
{
    if i <= 0 {
        (Seq::<char>::empty(), Seq::<char>::empty())
    } else {
        let prev = stem_fold(s, i - 1);
        if is_space(s[i - 1]) {
            if prev.1.len() > 0 {
                (key_append(prev.0, prev.1), Seq::<char>::empty())
            } else {
                prev
            }
        } else {
            (prev.0, prev.1.push(s[i - 1]))
        }
    }
}

/// The stem key of a phrase: every whitespace-separated token stemmed,
/// rejoined with single spaces.
pub open spec fn stem_key_of(s: Seq<char>) -> Seq<char> {
    let last = stem_fold(s, s.len() as int);
    if last.1.len() > 0 {
        key_append(last.0, last.1)
    } else {
        last.0
    }
}

/// Stems every token of a phrase and joins the stems with spaces.
pub fn stem_phrase(phrase: &str) -> (r: String)
    ensures
        r@ == stem_key_of(phrase@),
{
    let n = phrase.unicode_len();
    let mut out = String::new();
    let mut cur: Vec<char> = Vec::new();
    let mut i: usize = 0;
    while i < n
        invariant
            i <= n == phrase@.len(),
            (out@, cur@) == stem_fold(phrase@, i as int),
        decreases n - i,
    {
        let c = phrase.get_char(i);
        if space_char(c) {
            if cur.len() > 0 {
                let tok = crate::slug::chars_to_string(&cur);
                let stemmed = stem_word(tok.as_str());
                if out.as_str().is_empty() {
                    out = stemmed;
                } else {
                    out.append(" ");
                    out.append(stemmed.as_str());
                }
                cur = Vec::new();
                proof {
                    reveal_strlit(" ");
                }
            }
        } else {
            cur.push(c);
        }
        i = i + 1;
    }
    if cur.len() > 0 {
        let tok = crate::slug::chars_to_string(&cur);
        let stemmed = stem_word(tok.as_str());
        if out.as_str().is_empty() {
            out = stemmed;
        } else {
            out.append(" ");
            out.append(stemmed.as_str());
        }
        proof {
            reveal_strlit(" ");
        }
    }
    out
}

/// Whether a scored phrase passes the filter: one to three tokens and at
/// least two characters.
pub open spec fn passes_filter(c: CandidateKeyword) -> bool {
    0 < token_count(c.phrase@) <= 3 && c.phrase@.len() >= 2
}

/// The same phrase with its score clamped into the scale.
pub open spec fn clamped(c: CandidateKeyword) -> CandidateKeyword {
    CandidateKeyword {
        phrase: c.phrase,
        score: if c.score <= 1000 {
            c.score
        } else {
            1000u32
        },
    }
}

/// The filter's result: exactly the passing entries, in order, with their
/// scores clamped.
pub open spec fn filtered(cands: Seq<CandidateKeyword>) -> Seq<CandidateKeyword>
    decreases cands.len(),
{
    if cands.len() == 0 {
        Seq::<CandidateKeyword>::empty()
    } else {
        let rest = filtered(cands.drop_first());
        if passes_filter(cands[0]) {
            seq![clamped(cands[0])] + rest
        } else {
            rest
        }
    }
}

proof fn lemma_filtered_push(cands: Seq<CandidateKeyword>, c: CandidateKeyword)
    ensures
        filtered(cands.push(c)) == filtered(cands) + (if passes_filter(c) {
            seq![clamped(c)]
        } else {
            Seq::<CandidateKeyword>::empty()
        }),
    decreases cands.len(),
{
    let pushed = cands.push(c);
    if cands.len() == 0 {
        assert(pushed[0] == c);
        assert(pushed.drop_first() =~= Seq::<CandidateKeyword>::empty());
        assert(filtered(pushed.drop_first()) == Seq::<CandidateKeyword>::empty());
        if passes_filter(c) {
            assert(filtered(pushed) =~= seq![clamped(c)]);
            assert(filtered(cands) + seq![clamped(c)] =~= seq![clamped(c)]);
        } else {
            assert(filtered(pushed) =~= Seq::<CandidateKeyword>::empty());
            assert(filtered(cands) + Seq::<CandidateKeyword>::empty() =~= filtered(cands));
        }
    } else {
        assert(pushed[0] == cands[0]);
        assert(pushed.drop_first() =~= cands.drop_first().push(c));
        lemma_filtered_push(cands.drop_first(), c);
        let tail = if passes_filter(c) {
            seq![clamped(c)]
        } else {
            Seq::<CandidateKeyword>::empty()
        };
        if passes_filter(cands[0]) {
            assert(filtered(pushed) =~= seq![clamped(cands[0])] + (filtered(cands.drop_first())
                + tail));
            assert(filtered(cands) + tail =~= seq![clamped(cands[0])] + (filtered(
                cands.drop_first(),
            ) + tail));
        }
    }
}

/// Every filtered entry is within bounds.
proof fn lemma_filtered_bounds(cands: Seq<CandidateKeyword>)
    ensures
        forall|g: int|
            0 <= g < filtered(cands).len() ==> {
                let c = #[trigger] filtered(cands)[g];
                &&& 0 < token_count(c.phrase@) <= 3
                &&& c.phrase@.len() >= 2
                &&& c.score <= 1000
            },
    decreases cands.len(),
{
    if cands.len() > 0 {
        lemma_filtered_bounds(cands.drop_first());
        if passes_filter(cands[0]) {
            assert forall|g: int| 0 <= g < filtered(cands).len() implies {
                let c = #[trigger] filtered(cands)[g];
                &&& 0 < token_count(c.phrase@) <= 3
                &&& c.phrase@.len() >= 2
                &&& c.score <= 1000
            } by {
                if g == 0 {
                    assert(filtered(cands)[0] == clamped(cands[0]));
                } else {
                    assert(filtered(cands)[g] == filtered(cands.drop_first())[g - 1]);
                }
            }
        } else {
            assert(filtered(cands) == filtered(cands.drop_first()));
        }
    }
}

/// Filters scored phrases: at most three tokens, at least two characters,
/// scores clamped into the scale.
fn filter_candidates(cands: Vec<CandidateKeyword>) -> (r: Vec<CandidateKeyword>)
    ensures
        r@ == filtered(cands@),
{
    let ghost all = cands@;
    let n0 = cands.len();
    let mut out: Vec<CandidateKeyword> = Vec::new();
    let mut rest = cands;
    let mut taken: usize = 0;
    while rest.len() > 0
        invariant
            taken + rest@.len() == all.len(),
            all.len() == n0,
            rest@ =~= all.skip(taken as int),
            out@ == filtered(all.take(taken as int)),
        decreases rest@.len(),
    {
        let c = rest.remove(0);
        proof {
            assert(c == all[taken as int]);
            assert(all.take(taken + 1) =~= all.take(taken as int).push(all[taken as int]));
            lemma_filtered_push(all.take(taken as int), all[taken as int]);
            assert(rest@ =~= all.skip(taken + 1));
        }
        let tokens = crate::concepts::count_tokens(c.phrase.as_str());
        let chars = c.phrase.as_str().unicode_len();
        if 0 < tokens && tokens <= 3 && chars >= 2 {
            let score = if c.score <= 1000 {
                c.score
            } else {
                1000
            };
            let ghost cc = c;
            out.push(CandidateKeyword { phrase: c.phrase, score });
            proof {
                assert(out@.last() == clamped(cc));
                assert(out@ =~= filtered(all.take(taken + 1)));
            }
        } else {
            proof {
                assert(!passes_filter(all[taken as int]));
                assert(out@ =~= filtered(all.take(taken + 1)));
            }
        }
        taken = taken + 1;
    }
    proof {
        assert(all.take(all.len() as int) =~= all);
    }
    out
}

/// The candidate-set invariant after stem deduplication: distinct stem
/// keys, and the filter's guarantees carried through.
#[verifier::opaque]
pub open spec fn candidates_ok(out: Seq<CandidateKeyword>) -> bool {
    &&& (forall|a: int, b: int|
        0 <= a < b < out.len() ==> stem_key_of((#[trigger] out[a]).phrase@) != stem_key_of(
            (#[trigger] out[b]).phrase@,
        ))
    &&& (forall|g: int|
        0 <= g < out.len() ==> {
            let c = #[trigger] out[g];
            &&& 0 < token_count(c.phrase@) <= 3
            &&& c.phrase@.len() >= 2
            &&& c.score <= 1000
        })
}

/// How many of the first `i` entries carry the given stem key.
pub open spec fn cnt_key(f: Seq<CandidateKeyword>, key: Seq<char>, i: int) -> int
    decreases i,
{
    if i <= 0 {
        0
    } else {
        cnt_key(f, key, i - 1) + if stem_key_of(f[i - 1].phrase@) == key {
            1int
        } else {
            0int
        }
    }
}

proof fn lemma_cnt_key_bounded(f: Seq<CandidateKeyword>, key: Seq<char>, i: int)
    requires
        0 <= i,
    ensures
        0 <= cnt_key(f, key, i) <= i,
    decreases i,
{
    if i > 0 {
        lemma_cnt_key_bounded(f, key, i - 1);
    }
}

proof fn lemma_cnt_key_zero(f: Seq<CandidateKeyword>, key: Seq<char>, i: int)
    requires
        0 <= i <= f.len(),
        forall|k: int| 0 <= k < i ==> stem_key_of((#[trigger] f[k]).phrase@) != key,
    ensures
        cnt_key(f, key, i) == 0,
    decreases i,
{
    if i > 0 {
        lemma_cnt_key_zero(f, key, i - 1);
    }
}

/// The score a stem group's survivor ends with: the best variant's score,
/// boosted by a tenth of a unit when more than one variant merged, capped
/// at the scale.
pub open spec fn boosted_score(base: int, variants: int) -> int {
    if variants >= 2 {
        if base + 100 <= 1000 {
            base + 100
        } else {
            1000
        }
    } else {
        base
    }
}

/// What one surviving candidate says about the filtered input `f`: its
/// phrase is the best-scoring variant of its stem group, and its score is
/// that variant's score under the boost rule.
#[verifier::opaque]
pub open spec fn survivor_ok(f: Seq<CandidateKeyword>, c: CandidateKeyword) -> bool {
    exists|k: int|
        {
            &&& 0 <= k < f.len()
            &&& (#[trigger] f[k]).phrase@ == c.phrase@
            &&& (forall|k2: int|
                0 <= k2 < f.len() && stem_key_of((#[trigger] f[k2]).phrase@) == stem_key_of(
                    f[k].phrase@,
                ) ==> f[k2].score <= f[k].score)
            &&& c.score as int == boosted_score(
                f[k].score as int,
                cnt_key(f, stem_key_of(f[k].phrase@), f.len() as int),
            )
        }
}

/// Whether some entry of `out` carries the given stem key.
pub open spec fn key_in(key: Seq<char>, out: Seq<CandidateKeyword>) -> bool
    decreases out.len(),
{
    if out.len() == 0 {
        false
    } else {
        stem_key_of(out[0].phrase@) == key || key_in(key, out.drop_first())
    }
}

/// Every stem key of `f` appears among the keys of `out`.
pub open spec fn keys_covered(f: Seq<CandidateKeyword>, out: Seq<CandidateKeyword>) -> bool
    decreases f.len(),
{
    if f.len() == 0 {
        true
    } else {
        key_in(stem_key_of(f[0].phrase@), out) && keys_covered(f.drop_first(), out)
    }
}

/// Every stem key of `all` appears in `out` or in `rest`.
pub open spec fn keys_covered_split(
    all: Seq<CandidateKeyword>,
    out: Seq<CandidateKeyword>,
    rest: Seq<CandidateKeyword>,
) -> bool
    decreases all.len(),
{
    if all.len() == 0 {
        true
    } else {
        (key_in(stem_key_of(all[0].phrase@), out) || key_in(stem_key_of(all[0].phrase@), rest))
            && keys_covered_split(all.drop_first(), out, rest)
    }
}

/// An entry at a known index puts its key in the list.
proof fn lemma_key_in_at(key: Seq<char>, out: Seq<CandidateKeyword>, g: int)
    requires
        0 <= g < out.len(),
        stem_key_of(out[g].phrase@) == key,
    ensures
        key_in(key, out),
    decreases g,
{
    if g > 0 {
        assert(out.drop_first()[g - 1] == out[g]);
        lemma_key_in_at(key, out.drop_first(), g - 1);
    }
}

/// A key survives insertion of another entry.
proof fn lemma_key_in_insert(key: Seq<char>, xs: Seq<CandidateKeyword>, pos: int, x: CandidateKeyword)
    requires
        0 <= pos <= xs.len(),
        key_in(key, xs),
    ensures
        key_in(key, xs.insert(pos, x)),
    decreases xs.len(),
{
    let ins = xs.insert(pos, x);
    if pos == 0 {
        assert(ins.drop_first() =~= xs);
        assert(key_in(key, ins.drop_first()));
    } else {
        assert(ins[0] == xs[0]);
        if stem_key_of(xs[0].phrase@) == key {
            assert(stem_key_of(ins[0].phrase@) == key);
        } else {
            lemma_key_in_insert(key, xs.drop_first(), pos - 1, x);
            assert(ins.drop_first() =~= xs.drop_first().insert(pos - 1, x));
        }
    }
}

/// A key carried by one list is carried by a phrasewise-equal list.
proof fn lemma_key_in_transfer(
    key: Seq<char>,
    xs: Seq<CandidateKeyword>,
    ys: Seq<CandidateKeyword>,
)
    requires
        key_in(key, xs),
        ys.len() == xs.len(),
        forall|g: int| 0 <= g < ys.len() ==> (#[trigger] ys[g]).phrase@ == xs[g].phrase@,
    ensures
        key_in(key, ys),
    decreases xs.len(),
{
    if stem_key_of(xs[0].phrase@) == key {
        assert(ys[0].phrase@ == xs[0].phrase@);
    } else {
        assert(forall|g: int|
            0 <= g < ys.drop_first().len() ==> (#[trigger] ys.drop_first()[g]).phrase@
                == xs.drop_first()[g].phrase@) by {
            assert(forall|g: int|
                0 <= g < ys.len() - 1 ==> #[trigger] ys.drop_first()[g] == ys[g + 1]);
            assert(forall|g: int|
                0 <= g < xs.len() - 1 ==> #[trigger] xs.drop_first()[g] == xs[g + 1]);
        }
        lemma_key_in_transfer(key, xs.drop_first(), ys.drop_first());
    }
}

/// A key carried by a covered list is carried by the covering list.
proof fn lemma_key_in_trans(
    key: Seq<char>,
    mid: Seq<CandidateKeyword>,
    out: Seq<CandidateKeyword>,
)
    requires
        key_in(key, mid),
        keys_covered(mid, out),
    ensures
        key_in(key, out),
    decreases mid.len(),
{
    if stem_key_of(mid[0].phrase@) == key {
        assert(key_in(stem_key_of(mid[0].phrase@), out));
    } else {
        lemma_key_in_trans(key, mid.drop_first(), out);
    }
}

/// Coverage composes across a pipeline stage.
proof fn lemma_keys_covered_trans(
    f: Seq<CandidateKeyword>,
    mid: Seq<CandidateKeyword>,
    out: Seq<CandidateKeyword>,
)
    requires
        keys_covered(f, mid),
        keys_covered(mid, out),
    ensures
        keys_covered(f, out),
    decreases f.len(),
{
    if f.len() > 0 {
        lemma_key_in_trans(stem_key_of(f[0].phrase@), mid, out);
        lemma_keys_covered_trans(f.drop_first(), mid, out);
    }
}

/// Coverage carries over a list with the same phrases pointwise.
proof fn lemma_covered_transfer(
    f: Seq<CandidateKeyword>,
    xs: Seq<CandidateKeyword>,
    ys: Seq<CandidateKeyword>,
)
    requires
        keys_covered(f, xs),
        ys.len() == xs.len(),
        forall|g: int| 0 <= g < ys.len() ==> (#[trigger] ys[g]).phrase@ == xs[g].phrase@,
    ensures
        keys_covered(f, ys),
    decreases f.len(),
{
    if f.len() > 0 {
        lemma_key_in_transfer(stem_key_of(f[0].phrase@), xs, ys);
        lemma_covered_transfer(f.drop_first(), xs, ys);
    }
}

// ----- The dedup fold invariant, in named parts -----

/// The cached keys are the stem keys of the accumulator entries.
#[verifier::opaque]
pub open spec fn inv_keys(out: Seq<CandidateKeyword>, keys: Seq<String>) -> bool {
    forall|g: int| 0 <= g < out.len() ==> (#[trigger] keys[g])@ == stem_key_of(out[g].phrase@)
}

/// Accumulator entries carry pairwise distinct stem keys.
#[verifier::opaque]
pub open spec fn inv_distinct(out: Seq<CandidateKeyword>) -> bool {
    forall|a: int, b: int|
        0 <= a < b < out.len() ==> stem_key_of((#[trigger] out[a]).phrase@) != stem_key_of(
            (#[trigger] out[b]).phrase@,
        )
}

/// Every accumulator entry is one of the first `i` inputs, surface and
/// score.
#[verifier::opaque]
pub open spec fn inv_origin(f: Seq<CandidateKeyword>, out: Seq<CandidateKeyword>, i: int) -> bool {
    forall|g: int|
        0 <= g < out.len() ==> exists|k: int|
            0 <= k < i && (#[trigger] out[g]).phrase@ == f[k].phrase@ && out[g].score == f[
                k
            ].score
}

/// Every accumulator entry beats all seen variants of its key.
#[verifier::opaque]
pub open spec fn inv_best(f: Seq<CandidateKeyword>, out: Seq<CandidateKeyword>, i: int) -> bool {
    forall|g: int, k: int|
        #![trigger out[g], f[k]]
        0 <= g < out.len() && 0 <= k < i && stem_key_of(f[k].phrase@) == stem_key_of(
            out[g].phrase@,
        ) ==> f[k].score <= out[g].score
}

/// Every seen input's key is in the accumulator.
#[verifier::opaque]
pub open spec fn inv_covered(f: Seq<CandidateKeyword>, out: Seq<CandidateKeyword>, i: int) -> bool {
    forall|k: int|
        0 <= k < i ==> exists|g: int|
            0 <= g < out.len() && stem_key_of((#[trigger] f[k]).phrase@) == stem_key_of(
                out[g].phrase@,
            )
}

/// The counts are the seen multiplicities of the cached keys.
#[verifier::opaque]
pub open spec fn inv_counts(
    f: Seq<CandidateKeyword>,
    keys: Seq<String>,
    counts: Seq<usize>,
    i: int,
) -> bool {
    forall|g: int| 0 <= g < counts.len() ==> #[trigger] counts[g] as int == cnt_key(f, keys[g]@, i)
}

/// The dedup fold invariant over the first `i` filtered entries.
pub open spec fn stem_dedup_inv(
    f: Seq<CandidateKeyword>,
    out: Seq<CandidateKeyword>,
    keys: Seq<String>,
    counts: Seq<usize>,
    i: int,
) -> bool {
    &&& out.len() == keys.len()
    &&& out.len() == counts.len()
    &&& inv_keys(out, keys)
    &&& inv_distinct(out)
    &&& inv_origin(f, out, i)
    &&& inv_best(f, out, i)
    &&& inv_covered(f, out, i)
    &&& inv_counts(f, keys, counts, i)
}

proof fn lemma_inv_empty(f: Seq<CandidateKeyword>)
    ensures
        stem_dedup_inv(
            f,
            Seq::<CandidateKeyword>::empty(),
            Seq::<String>::empty(),
            Seq::<usize>::empty(),
            0,
        ),
{
    reveal(inv_keys);
    reveal(inv_distinct);
    reveal(inv_origin);
    reveal(inv_best);
    reveal(inv_covered);
    reveal(inv_counts);
}

// ----- Update step: a seen key absorbs one more variant -----

/// The pointwise effect of the update step on the accumulator.
pub open spec fn update_shape(
    f: Seq<CandidateKeyword>,
    old_out: Seq<CandidateKeyword>,
    new_out: Seq<CandidateKeyword>,
    gg: int,
    i: int,
) -> bool {
    &&& new_out.len() == old_out.len()
    &&& (forall|g2: int|
        0 <= g2 < new_out.len() && g2 != gg ==> #[trigger] new_out[g2] == old_out[g2])
    &&& ((f[i].score <= old_out[gg].score && new_out[gg] == old_out[gg]) || (f[i].score
        > old_out[gg].score && new_out[gg].phrase@ == f[i].phrase@ && new_out[gg].score == f[
        i
    ].score))
}

proof fn lemma_update_keys(
    f: Seq<CandidateKeyword>,
    old_out: Seq<CandidateKeyword>,
    new_out: Seq<CandidateKeyword>,
    keys: Seq<String>,
    gg: int,
    i: int,
)
    requires
        0 <= i < f.len(),
        0 <= gg < old_out.len(),
        old_out.len() == keys.len(),
        inv_keys(old_out, keys),
        keys[gg]@ == stem_key_of(f[i].phrase@),
        update_shape(f, old_out, new_out, gg, i),
    ensures
        inv_keys(new_out, keys),
        stem_key_of(new_out[gg].phrase@) == stem_key_of(old_out[gg].phrase@),
{
    reveal(inv_keys);
    assert(stem_key_of(old_out[gg].phrase@) == keys[gg]@);
    assert forall|g: int| 0 <= g < new_out.len() implies (#[trigger] keys[g])@ == stem_key_of(
        new_out[g].phrase@,
    ) by {
        if g != gg {
            assert(new_out[g] == old_out[g]);
        }
    }
}

proof fn lemma_update_distinct(
    f: Seq<CandidateKeyword>,
    old_out: Seq<CandidateKeyword>,
    new_out: Seq<CandidateKeyword>,
    keys: Seq<String>,
    gg: int,
    i: int,
)
    requires
        0 <= i < f.len(),
        0 <= gg < old_out.len(),
        old_out.len() == keys.len(),
        inv_keys(old_out, keys),
        inv_distinct(old_out),
        keys[gg]@ == stem_key_of(f[i].phrase@),
        update_shape(f, old_out, new_out, gg, i),
    ensures
        inv_distinct(new_out),
{
    reveal(inv_keys);
    reveal(inv_distinct);
    assert(stem_key_of(new_out[gg].phrase@) == stem_key_of(old_out[gg].phrase@));
    assert forall|a: int, b: int| 0 <= a < b < new_out.len() implies stem_key_of(
        (#[trigger] new_out[a]).phrase@,
    ) != stem_key_of((#[trigger] new_out[b]).phrase@) by {
        assert(stem_key_of(new_out[a].phrase@) == stem_key_of(old_out[a].phrase@));
        assert(stem_key_of(new_out[b].phrase@) == stem_key_of(old_out[b].phrase@));
    }
}

proof fn lemma_update_origin(
    f: Seq<CandidateKeyword>,
    old_out: Seq<CandidateKeyword>,
    new_out: Seq<CandidateKeyword>,
    gg: int,
    i: int,
)
    requires
        0 <= i < f.len(),
        0 <= gg < old_out.len(),
        inv_origin(f, old_out, i),
        update_shape(f, old_out, new_out, gg, i),
    ensures
        inv_origin(f, new_out, i + 1),
{
    reveal(inv_origin);
    assert forall|g: int| 0 <= g < new_out.len() implies exists|k: int|
        0 <= k < i + 1 && (#[trigger] new_out[g]).phrase@ == f[k].phrase@ && new_out[g].score
            == f[k].score by {
        if g != gg || new_out[g] == old_out[g] {
            let k0 = choose|k: int|
                0 <= k < i && (#[trigger] old_out[g]).phrase@ == f[k].phrase@ && old_out[g].score
                    == f[k].score;
            assert(new_out[g].phrase@ == f[k0].phrase@ && new_out[g].score == f[k0].score);
        } else {
            assert(new_out[g].phrase@ == f[i].phrase@ && new_out[g].score == f[i].score);
        }
    }
}

proof fn lemma_update_best(
    f: Seq<CandidateKeyword>,
    old_out: Seq<CandidateKeyword>,
    new_out: Seq<CandidateKeyword>,
    keys: Seq<String>,
    gg: int,
    i: int,
)
    requires
        0 <= i < f.len(),
        0 <= gg < old_out.len(),
        old_out.len() == keys.len(),
        inv_keys(old_out, keys),
        inv_distinct(old_out),
        inv_best(f, old_out, i),
        keys[gg]@ == stem_key_of(f[i].phrase@),
        update_shape(f, old_out, new_out, gg, i),
    ensures
        inv_best(f, new_out, i + 1),
{
    reveal(inv_keys);
    reveal(inv_distinct);
    reveal(inv_best);
    assert(stem_key_of(new_out[gg].phrase@) == stem_key_of(old_out[gg].phrase@));
    assert(new_out[gg].score >= old_out[gg].score && new_out[gg].score >= f[i].score);
    assert forall|g: int, k: int|
        #![trigger new_out[g], f[k]]
        0 <= g < new_out.len() && 0 <= k < i + 1 && stem_key_of(f[k].phrase@) == stem_key_of(
            new_out[g].phrase@,
        ) implies f[k].score <= new_out[g].score by {
        assert(stem_key_of(new_out[g].phrase@) == stem_key_of(old_out[g].phrase@));
        if g != gg {
            assert(new_out[g] == old_out[g]);
            if k == i {
                assert(stem_key_of(old_out[g].phrase@) != stem_key_of(old_out[gg].phrase@));
            }
        } else {
            if k < i {
                assert(f[k].score <= old_out[gg].score);
            }
        }
    }
}

proof fn lemma_update_covered(
    f: Seq<CandidateKeyword>,
    old_out: Seq<CandidateKeyword>,
    new_out: Seq<CandidateKeyword>,
    keys: Seq<String>,
    gg: int,
    i: int,
)
    requires
        0 <= i < f.len(),
        0 <= gg < old_out.len(),
        old_out.len() == keys.len(),
        inv_keys(old_out, keys),
        inv_covered(f, old_out, i),
        keys[gg]@ == stem_key_of(f[i].phrase@),
        update_shape(f, old_out, new_out, gg, i),
    ensures
        inv_covered(f, new_out, i + 1),
{
    reveal(inv_keys);
    reveal(inv_covered);
    assert(stem_key_of(new_out[gg].phrase@) == stem_key_of(old_out[gg].phrase@));
    assert forall|k: int| 0 <= k < i + 1 implies exists|g: int|
        0 <= g < new_out.len() && stem_key_of((#[trigger] f[k]).phrase@) == stem_key_of(
            new_out[g].phrase@,
        ) by {
        if k < i {
            let g0 = choose|g: int|
                0 <= g < old_out.len() && stem_key_of((#[trigger] f[k]).phrase@) == stem_key_of(
                    old_out[g].phrase@,
                );
            if g0 != gg {
                assert(new_out[g0] == old_out[g0]);
            }
            assert(stem_key_of(new_out[g0].phrase@) == stem_key_of(old_out[g0].phrase@));
            assert(stem_key_of(f[k].phrase@) == stem_key_of(new_out[g0].phrase@));
        } else {
            assert(stem_key_of(old_out[gg].phrase@) == keys[gg]@);
            assert(stem_key_of(f[k].phrase@) == stem_key_of(new_out[gg].phrase@));
        }
    }
}

proof fn lemma_update_counts(
    f: Seq<CandidateKeyword>,
    old_out: Seq<CandidateKeyword>,
    keys: Seq<String>,
    old_counts: Seq<usize>,
    new_counts: Seq<usize>,
    gg: int,
    i: int,
)
    requires
        0 <= i < f.len(),
        old_out.len() == keys.len(),
        old_out.len() == old_counts.len(),
        0 <= gg < old_out.len(),
        inv_keys(old_out, keys),
        inv_distinct(old_out),
        inv_counts(f, keys, old_counts, i),
        keys[gg]@ == stem_key_of(f[i].phrase@),
        new_counts.len() == old_counts.len(),
        forall|g2: int|
            0 <= g2 < new_counts.len() && g2 != gg ==> #[trigger] new_counts[g2] == old_counts[
                g2
            ],
        new_counts[gg] as int == old_counts[gg] as int + 1,
    ensures
        inv_counts(f, keys, new_counts, i + 1),
{
    reveal(inv_keys);
    reveal(inv_distinct);
    reveal(inv_counts);
    assert forall|g2: int| 0 <= g2 < new_counts.len() implies #[trigger] new_counts[g2] as int
        == cnt_key(f, keys[g2]@, i + 1) by {
        if g2 == gg {
            assert(stem_key_of(f[i].phrase@) == keys[g2]@);
        } else {
            assert(keys[g2]@ == stem_key_of(old_out[g2].phrase@));
            assert(stem_key_of(old_out[g2].phrase@) != stem_key_of(old_out[gg].phrase@));
            assert(stem_key_of(f[i].phrase@) != keys[g2]@);
        }
    }
}

// ----- Insert step: a fresh key opens a group -----

proof fn lemma_insert_inv(
    f: Seq<CandidateKeyword>,
    old_out: Seq<CandidateKeyword>,
    old_keys: Seq<String>,
    old_counts: Seq<usize>,
    key: String,
    i: int,
)
    requires
        0 <= i < f.len(),
        stem_dedup_inv(f, old_out, old_keys, old_counts, i),
        key@ == stem_key_of(f[i].phrase@),
        forall|t: int| 0 <= t < old_keys.len() ==> (#[trigger] old_keys[t])@ != key@,
    ensures
        stem_dedup_inv(
            f,
            old_out.push(f[i]),
            old_keys.push(key),
            old_counts.push(1usize),
            i + 1,
        ),
{
    let new_out = old_out.push(f[i]);
    let new_keys = old_keys.push(key);
    let new_counts = old_counts.push(1usize);
    let last = new_out.len() - 1;
    lemma_insert_fresh(f, old_out, old_keys, key, i);
    assert(inv_keys(new_out, new_keys)) by {
        reveal(inv_keys);
        assert forall|g: int| 0 <= g < new_out.len() implies (#[trigger] new_keys[g])@
            == stem_key_of(new_out[g].phrase@) by {
            if g < last {
                assert(new_keys[g] == old_keys[g] && new_out[g] == old_out[g]);
            } else {
                assert(new_keys[g] == key && new_out[g] == f[i]);
            }
        }
    }
    assert(inv_distinct(new_out)) by {
        reveal(inv_keys);
        reveal(inv_distinct);
        assert forall|a: int, b: int| 0 <= a < b < new_out.len() implies stem_key_of(
            (#[trigger] new_out[a]).phrase@,
        ) != stem_key_of((#[trigger] new_out[b]).phrase@) by {
            if b == last {
                assert(new_out[a] == old_out[a]);
                assert(old_keys[a]@ == stem_key_of(old_out[a].phrase@));
                assert(old_keys[a]@ != key@);
                assert(new_out[b] == f[i]);
            } else {
                assert(new_out[a] == old_out[a] && new_out[b] == old_out[b]);
            }
        }
    }
    assert(inv_origin(f, new_out, i + 1)) by {
        reveal(inv_origin);
        assert forall|g: int| 0 <= g < new_out.len() implies exists|k: int|
            0 <= k < i + 1 && (#[trigger] new_out[g]).phrase@ == f[k].phrase@ && new_out[g].score
                == f[k].score by {
            if g < last {
                let k0 = choose|k: int|
                    0 <= k < i && (#[trigger] old_out[g]).phrase@ == f[k].phrase@ && old_out[
                        g
                    ].score == f[k].score;
                assert(new_out[g].phrase@ == f[k0].phrase@ && new_out[g].score == f[k0].score);
            } else {
                assert(new_out[g].phrase@ == f[i].phrase@ && new_out[g].score == f[i].score);
            }
        }
    }
    assert(inv_best(f, new_out, i + 1)) by {
        reveal(inv_keys);
        reveal(inv_best);
        assert forall|g: int, k: int|
            #![trigger new_out[g], f[k]]
            0 <= g < new_out.len() && 0 <= k < i + 1 && stem_key_of(f[k].phrase@) == stem_key_of(
                new_out[g].phrase@,
            ) implies f[k].score <= new_out[g].score by {
            if g < last {
                assert(new_out[g] == old_out[g]);
                if k == i {
                    assert(old_keys[g]@ == stem_key_of(old_out[g].phrase@));
                    assert(old_keys[g]@ != key@);
                }
            } else {
                assert(new_out[g] == f[i]);
                if k < i {
                    assert(stem_key_of(f[k].phrase@) != key@);
                }
            }
        }
    }
    assert(inv_covered(f, new_out, i + 1)) by {
        reveal(inv_covered);
        assert forall|k: int| 0 <= k < i + 1 implies exists|g: int|
            0 <= g < new_out.len() && stem_key_of((#[trigger] f[k]).phrase@) == stem_key_of(
                new_out[g].phrase@,
            ) by {
            if k < i {
                let g0 = choose|g: int|
                    0 <= g < old_out.len() && stem_key_of((#[trigger] f[k]).phrase@)
                        == stem_key_of(old_out[g].phrase@);
                assert(new_out[g0] == old_out[g0]);
                assert(stem_key_of(f[k].phrase@) == stem_key_of(new_out[g0].phrase@));
            } else {
                assert(new_out[last] == f[i]);
                assert(stem_key_of(f[k].phrase@) == stem_key_of(new_out[last].phrase@));
            }
        }
    }
    assert(inv_counts(f, new_keys, new_counts, i + 1)) by {
        reveal(inv_keys);
        reveal(inv_counts);
        assert forall|g: int| 0 <= g < new_counts.len() implies #[trigger] new_counts[g] as int
            == cnt_key(f, new_keys[g]@, i + 1) by {
            if g < last {
                assert(new_counts[g] == old_counts[g] && new_keys[g] == old_keys[g]);
                assert(old_keys[g]@ == stem_key_of(old_out[g].phrase@));
                assert(old_keys[g]@ != key@);
                assert(stem_key_of(f[i].phrase@) != new_keys[g]@);
            } else {
                assert(new_keys[g] == key);
                lemma_cnt_key_zero(f, key@, i);
                assert(stem_key_of(f[i].phrase@) == key@);
            }
        }
    }
}

/// A key absent from the cache was carried by no seen input.
proof fn lemma_insert_fresh(
    f: Seq<CandidateKeyword>,
    old_out: Seq<CandidateKeyword>,
    old_keys: Seq<String>,
    key: String,
    i: int,
)
    requires
        0 <= i <= f.len(),
        old_out.len() == old_keys.len(),
        inv_keys(old_out, old_keys),
        inv_covered(f, old_out, i),
        forall|t: int| 0 <= t < old_keys.len() ==> (#[trigger] old_keys[t])@ != key@,
    ensures
        forall|k: int| 0 <= k < i ==> stem_key_of((#[trigger] f[k]).phrase@) != key@,
{
    reveal(inv_keys);
    reveal(inv_covered);
    assert forall|k: int| 0 <= k < i implies stem_key_of((#[trigger] f[k]).phrase@) != key@ by {
        let g0 = choose|g: int|
            0 <= g < old_out.len() && stem_key_of((#[trigger] f[k]).phrase@) == stem_key_of(
                old_out[g].phrase@,
            );
        assert(old_keys[g0]@ == stem_key_of(old_out[g0].phrase@));
        if stem_key_of(f[k].phrase@) == key@ {
            assert(old_keys[g0]@ == key@);
            assert(false);
        }
    }
}

// ----- The exec fold -----

/// One dedup step: fold filtered entry `i` into the accumulator.
fn stem_dedup_step(
    out: &mut Vec<CandidateKeyword>,
    keys: &mut Vec<String>,
    counts: &mut Vec<usize>,
    c: &CandidateKeyword,
    Ghost(f): Ghost<Seq<CandidateKeyword>>,
    Ghost(i): Ghost<int>,
)
    requires
        0 <= i < f.len(),
        f.len() <= usize::MAX,
        *c == f[i],
        stem_dedup_inv(f, old(out)@, old(keys)@, old(counts)@, i),
    ensures
        stem_dedup_inv(f, final(out)@, final(keys)@, final(counts)@, i + 1),
{
    let ghost old_out = out@;
    let ghost old_keys = keys@;
    let ghost old_counts = counts@;
    let key = stem_phrase(c.phrase.as_str());
    let mut found: Option<usize> = None;
    let mut g: usize = 0;
    while g < keys.len()
        invariant
            g <= keys@.len(),
            keys@ == old_keys,
            out@ == old_out,
            counts@ == old_counts,
            key@ == stem_key_of(f[i].phrase@),
            match found {
                Some(gg) => gg < keys@.len() && keys@[gg as int]@ == key@,
                None => forall|t: int| 0 <= t < g ==> (#[trigger] keys@[t])@ != key@,
            },
        decreases keys@.len() - g,
    {
        if found.is_none() && keys[g] == key {
            found = Some(g);
        }
        g = g + 1;
    }
    match found {
        Some(gg) => {
            proof {
                assert(old_counts[gg as int] as int == cnt_key(f, old_keys[gg as int]@, i)) by {
                    reveal(inv_counts);
                }
                lemma_cnt_key_bounded(f, old_keys[gg as int]@, i);
            }
            if c.score > out[gg].score {
                let score = c.score;
                let text = c.phrase.clone();
                out[gg] = CandidateKeyword { phrase: text, score };
            }
            let bumped = counts[gg] + 1;
            counts[gg] = bumped;
            proof {
                assert(update_shape(f, old_out, out@, gg as int, i));
                lemma_update_keys(f, old_out, out@, old_keys, gg as int, i);
                lemma_update_distinct(f, old_out, out@, old_keys, gg as int, i);
                lemma_update_origin(f, old_out, out@, gg as int, i);
                lemma_update_best(f, old_out, out@, old_keys, gg as int, i);
                lemma_update_covered(f, old_out, out@, old_keys, gg as int, i);
                lemma_update_counts(f, old_out, old_keys, old_counts, counts@, gg as int, i);
            }
        },
        None => {
            let score = c.score;
            let text = c.phrase.clone();
            out.push(CandidateKeyword { phrase: text, score });
            keys.push(key);
            counts.push(1);
            proof {
                assert(out@[out@.len() - 1] == f[i]);
                assert(out@ =~= old_out.push(f[i]));
                assert(keys@ =~= old_keys.push(keys@[keys@.len() - 1]));
                assert(counts@ =~= old_counts.push(1usize));
                lemma_insert_inv(f, old_out, old_keys, old_counts, keys@[keys@.len() - 1], i);
            }
        },
    }
}

/// Collapses candidates that share a stem key, keeping the best-scoring
/// surface form; a key that merged more than one variant earns a single
/// boost of a tenth of a unit, capped at the scale.
fn dedup_by_stem(cands: Vec<CandidateKeyword>) -> (r: Vec<CandidateKeyword>)
    requires
        forall|g: int|
            0 <= g < cands@.len() ==> {
                let c = #[trigger] cands@[g];
                &&& 0 < token_count(c.phrase@) <= 3
                &&& c.phrase@.len() >= 2
                &&& c.score <= 1000
            },
    ensures
        candidates_ok(r@),
        forall|g: int| 0 <= g < r@.len() ==> survivor_ok(cands@, #[trigger] r@[g]),
        keys_covered(cands@, r@),
{
    let ghost f = cands@;
    let n = cands.len();
    let mut out: Vec<CandidateKeyword> = Vec::new();
    let mut keys: Vec<String> = Vec::new();
    let mut counts: Vec<usize> = Vec::new();
    proof {
        lemma_inv_empty(f);
        assert(out@ =~= Seq::<CandidateKeyword>::empty());
        assert(keys@ =~= Seq::<String>::empty());
        assert(counts@ =~= Seq::<usize>::empty());
    }
    let mut i: usize = 0;
    while i < n
        invariant
            i <= n == cands@.len(),
            f == cands@,
            stem_dedup_inv(f, out@, keys@, counts@, i as int),
        decreases n - i,
    {
        let c = &cands[i];
        stem_dedup_step(&mut out, &mut keys, &mut counts, c, Ghost(f), Ghost(i as int));
        i = i + 1;
    }
    boost_survivors(out, &keys, &counts, Ghost(f))
}

// ----- The boost pass -----

/// Builds one survivor: the cached best of a key, with the boost applied.
proof fn lemma_mk_survivor(
    f: Seq<CandidateKeyword>,
    base: CandidateKeyword,
    variants: usize,
    res: CandidateKeyword,
)
    requires
        exists|k: int|
            0 <= k < f.len() && (#[trigger] f[k]).phrase@ == base.phrase@ && base.score == f[
                k
            ].score,
        forall|k: int|
            0 <= k < f.len() && stem_key_of((#[trigger] f[k]).phrase@) == stem_key_of(
                base.phrase@,
            ) ==> f[k].score <= base.score,
        variants as int == cnt_key(f, stem_key_of(base.phrase@), f.len() as int),
        forall|k: int|
            0 <= k < f.len() ==> {
                let c = #[trigger] f[k];
                &&& 0 < token_count(c.phrase@) <= 3
                &&& c.phrase@.len() >= 2
                &&& c.score <= 1000
            },
        res.phrase@ == base.phrase@,
        res.score as int == boosted_score(base.score as int, variants as int),
    ensures
        survivor_ok(f, res),
        0 < token_count(res.phrase@) <= 3,
        res.phrase@.len() >= 2,
        res.score <= 1000,
{
    reveal(survivor_ok);
    let k0 = choose|k: int|
        0 <= k < f.len() && (#[trigger] f[k]).phrase@ == base.phrase@ && base.score == f[k].score;
    assert(stem_key_of(f[k0].phrase@) == stem_key_of(base.phrase@));
    assert forall|k2: int|
        0 <= k2 < f.len() && stem_key_of((#[trigger] f[k2]).phrase@) == stem_key_of(
            f[k0].phrase@,
        ) implies f[k2].score <= f[k0].score by {
        assert(stem_key_of(f[k2].phrase@) == stem_key_of(base.phrase@));
    }
    assert(res.score as int == boosted_score(
        f[k0].score as int,
        cnt_key(f, stem_key_of(f[k0].phrase@), f.len() as int),
    ));
    assert(0 < token_count(f[k0].phrase@) <= 3 && f[k0].phrase@.len() >= 2 && f[k0].score
        <= 1000);
}

/// What the fold invariant says of one cached group.
proof fn lemma_group_facts(
    f: Seq<CandidateKeyword>,
    out: Seq<CandidateKeyword>,
    keys: Seq<String>,
    counts: Seq<usize>,
    g: int,
)
    requires
        stem_dedup_inv(f, out, keys, counts, f.len() as int),
        0 <= g < out.len(),
    ensures
        exists|k: int|
            0 <= k < f.len() && (#[trigger] f[k]).phrase@ == out[g].phrase@ && out[g].score == f[
                k
            ].score,
        forall|k: int|
            0 <= k < f.len() && stem_key_of((#[trigger] f[k]).phrase@) == stem_key_of(
                out[g].phrase@,
            ) ==> f[k].score <= out[g].score,
        counts[g] as int == cnt_key(f, stem_key_of(out[g].phrase@), f.len() as int),
{
    reveal(inv_keys);
    reveal(inv_origin);
    reveal(inv_best);
    reveal(inv_counts);
    let k0 = choose|k: int|
        0 <= k < f.len() && (#[trigger] out[g]).phrase@ == f[k].phrase@ && out[g].score == f[
            k
        ].score;
    assert(f[k0].phrase@ == out[g].phrase@ && out[g].score == f[k0].score);
    assert forall|k: int|
        0 <= k < f.len() && stem_key_of((#[trigger] f[k]).phrase@) == stem_key_of(
            out[g].phrase@,
        ) implies f[k].score <= out[g].score by {
        assert(stem_key_of(f[k].phrase@) == stem_key_of(out[g].phrase@));
    }
    assert(keys[g]@ == stem_key_of(out[g].phrase@));
}

/// Distinct keys carry over to phrasewise-equal lists, as the raw clause
/// the candidate-set invariant holds.
proof fn lemma_mk_candidates_ok(
    xs: Seq<CandidateKeyword>,
    ys: Seq<CandidateKeyword>,
)
    requires
        inv_distinct(xs),
        ys.len() == xs.len(),
        forall|g: int| 0 <= g < ys.len() ==> (#[trigger] ys[g]).phrase@ == xs[g].phrase@,
        forall|g: int|
            0 <= g < ys.len() ==> {
                let c = #[trigger] ys[g];
                &&& 0 < token_count(c.phrase@) <= 3
                &&& c.phrase@.len() >= 2
                &&& c.score <= 1000
            },
    ensures
        candidates_ok(ys),
{
    reveal(inv_distinct);
    reveal(candidates_ok);
    assert forall|a: int, b: int| 0 <= a < b < ys.len() implies stem_key_of(
        (#[trigger] ys[a]).phrase@,
    ) != stem_key_of((#[trigger] ys[b]).phrase@) by {
        assert(ys[a].phrase@ == xs[a].phrase@);
        assert(ys[b].phrase@ == xs[b].phrase@);
    }
}

/// Coverage of the cache becomes coverage of the boosted survivors.
proof fn lemma_cache_covered(
    f: Seq<CandidateKeyword>,
    out: Seq<CandidateKeyword>,
    keys: Seq<String>,
    counts: Seq<usize>,
)
    requires
        stem_dedup_inv(f, out, keys, counts, f.len() as int),
    ensures
        keys_covered(f, out),
{
    lemma_cache_covered_from(f, out, keys, counts, 0);
    assert(f.skip(0) =~= f);
}

proof fn lemma_cache_covered_from(
    f: Seq<CandidateKeyword>,
    out: Seq<CandidateKeyword>,
    keys: Seq<String>,
    counts: Seq<usize>,
    j: int,
)
    requires
        stem_dedup_inv(f, out, keys, counts, f.len() as int),
        0 <= j <= f.len(),
    ensures
        keys_covered(f.skip(j), out),
    decreases f.len() - j,
{
    if j == f.len() {
        assert(f.skip(j) =~= Seq::<CandidateKeyword>::empty());
    } else {
        assert(f.skip(j)[0] == f[j]);
        assert(exists|g: int|
            0 <= g < out.len() && stem_key_of((#[trigger] f[j]).phrase@) == stem_key_of(
                out[g].phrase@,
            )) by {
            reveal(inv_covered);
        }
        let g0 = choose|g: int|
            0 <= g < out.len() && stem_key_of((#[trigger] f[j]).phrase@) == stem_key_of(
                out[g].phrase@,
            );
        lemma_key_in_at(stem_key_of(f[j].phrase@), out, g0);
        lemma_cache_covered_from(f, out, keys, counts, j + 1);
        assert(f.skip(j).drop_first() =~= f.skip(j + 1));
    }
}

/// Applies the boost: a key that merged several variants gains a tenth of
/// a unit on its best score, capped at the scale.
fn boost_survivors(
    out: Vec<CandidateKeyword>,
    keys: &Vec<String>,
    counts: &Vec<usize>,
    Ghost(f): Ghost<Seq<CandidateKeyword>>,
) -> (r: Vec<CandidateKeyword>)
    requires
        stem_dedup_inv(f, out@, keys@, counts@, f.len() as int),
        forall|k: int|
            0 <= k < f.len() ==> {
                let c = #[trigger] f[k];
                &&& 0 < token_count(c.phrase@) <= 3
                &&& c.phrase@.len() >= 2
                &&& c.score <= 1000
            },
    ensures
        candidates_ok(r@),
        forall|g: int| 0 <= g < r@.len() ==> survivor_ok(f, #[trigger] r@[g]),
        keys_covered(f, r@),
{
    let m = out.len();
    let mut result: Vec<CandidateKeyword> = Vec::new();
    let mut g: usize = 0;
    while g < m
        invariant
            g <= m,
            m == out@.len(),
            stem_dedup_inv(f, out@, keys@, counts@, f.len() as int),
            forall|k: int|
                0 <= k < f.len() ==> {
                    let c = #[trigger] f[k];
                    &&& 0 < token_count(c.phrase@) <= 3
                    &&& c.phrase@.len() >= 2
                    &&& c.score <= 1000
                },
            result@.len() == g,
            forall|a: int| 0 <= a < g ==> (#[trigger] result@[a]).phrase@ == out@[a].phrase@,
            forall|a: int| 0 <= a < g ==> survivor_ok(f, #[trigger] result@[a]),
            forall|a: int|
                0 <= a < g ==> {
                    let c = #[trigger] result@[a];
                    &&& 0 < token_count(c.phrase@) <= 3
                    &&& c.phrase@.len() >= 2
                    &&& c.score <= 1000
                },
        decreases m - g,
    {
        proof {
            lemma_group_facts(f, out@, keys@, counts@, g as int);
        }
        let base = out[g].score;
        let text = out[g].phrase.clone();
        let score = if counts[g] >= 2 {
            if base + 100 <= 1000 {
                base + 100
            } else {
                1000
            }
        } else {
            base
        };
        let ghost before = result@;
        result.push(CandidateKeyword { phrase: text, score });
        proof {
            assert(forall|a: int| 0 <= a < g ==> #[trigger] result@[a] == before[a]);
            assert(result@[g as int].phrase@ == out@[g as int].phrase@);
            assert(result@[g as int].score as int == boosted_score(
                out@[g as int].score as int,
                counts@[g as int] as int,
            ));
            lemma_mk_survivor(f, out@[g as int], counts[g as int], result@[g as int]);
        }
        g = g + 1;
    }
    proof {
        lemma_mk_candidates_ok(out@, result@);
        lemma_cache_covered(f, out@, keys@, counts@);
        lemma_covered_transfer(f, out@, result@);
    }
    result
}

// ----- Ranking -----

/// The sort loop invariant bridge: a step moves the head of `rest` into
/// `out` at its rank.
proof fn lemma_split_step(
    all: Seq<CandidateKeyword>,
    before: Seq<CandidateKeyword>,
    now: Seq<CandidateKeyword>,
    old_rest: Seq<CandidateKeyword>,
    rest: Seq<CandidateKeyword>,
    c: CandidateKeyword,
    pos: int,
)
    requires
        keys_covered_split(all, before, old_rest),
        old_rest.len() >= 1,
        c == old_rest[0],
        rest.len() == old_rest.len() - 1,
        forall|b: int| 0 <= b < rest.len() ==> #[trigger] rest[b] == old_rest[b + 1],
        0 <= pos <= before.len(),
        now.len() == before.len() + 1,
        forall|g: int| 0 <= g < pos ==> #[trigger] now[g] == before[g],
        forall|g: int| pos < g < now.len() ==> #[trigger] now[g] == before[g - 1],
        now[pos] == c,
    ensures
        keys_covered_split(all, now, rest),
    decreases all.len(),
{
    if all.len() > 0 {
        assert(now =~= before.insert(pos, c));
        assert(rest =~= old_rest.drop_first());
        let k0 = stem_key_of(all[0].phrase@);
        if key_in(k0, before) {
            lemma_key_in_insert(k0, before, pos, c);
        } else {
            assert(key_in(k0, old_rest));
            if stem_key_of(old_rest[0].phrase@) == k0 {
                assert(now[pos] == c && c == old_rest[0]);
                lemma_key_in_at(k0, now, pos);
            } else {
                assert(key_in(k0, old_rest.drop_first()));
                assert(key_in(k0, rest));
            }
        }
        lemma_split_step(all.drop_first(), before, now, old_rest, rest, c, pos);
    }
}

proof fn lemma_split_init(all: Seq<CandidateKeyword>, rest: Seq<CandidateKeyword>)
    requires
        rest == all,
    ensures
        keys_covered_split(all, Seq::<CandidateKeyword>::empty(), rest),
{
    lemma_split_init_from(all, 0);
    assert(all.skip(0) =~= all);
}

proof fn lemma_split_init_from(all: Seq<CandidateKeyword>, j: int)
    requires
        0 <= j <= all.len(),
    ensures
        keys_covered_split(all.skip(j), Seq::<CandidateKeyword>::empty(), all),
    decreases all.len() - j,
{
    if j == all.len() {
        assert(all.skip(j) =~= Seq::<CandidateKeyword>::empty());
    } else {
        assert(all.skip(j)[0] == all[j]);
        lemma_key_in_at(stem_key_of(all[j].phrase@), all, j);
        lemma_split_init_from(all, j + 1);
        assert(all.skip(j).drop_first() =~= all.skip(j + 1));
    }
}

proof fn lemma_split_done(
    all: Seq<CandidateKeyword>,
    out: Seq<CandidateKeyword>,
    rest: Seq<CandidateKeyword>,
)
    requires
        keys_covered_split(all, out, rest),
        rest.len() == 0,
    ensures
        keys_covered(all, out),
    decreases all.len(),
{
    if all.len() > 0 {
        assert(!key_in(stem_key_of(all[0].phrase@), rest));
        lemma_split_done(all.drop_first(), out, rest);
    }
}

/// The raw clauses behind the candidate-set invariant, for callers that
/// take the set apart.
proof fn lemma_candidates_ok_facts(out: Seq<CandidateKeyword>)
    requires
        candidates_ok(out),
    ensures
        forall|a: int, b: int|
            0 <= a < b < out.len() ==> stem_key_of((#[trigger] out[a]).phrase@) != stem_key_of(
                (#[trigger] out[b]).phrase@,
            ),
        forall|g: int|
            0 <= g < out.len() ==> {
                let c = #[trigger] out[g];
                &&& 0 < token_count(c.phrase@) <= 3
                &&& c.phrase@.len() >= 2
                &&& c.score <= 1000
            },
{
    reveal(candidates_ok);
}

/// And back: the raw clauses assemble the invariant.
proof fn lemma_candidates_ok_intro(out: Seq<CandidateKeyword>)
    requires
        forall|a: int, b: int|
            0 <= a < b < out.len() ==> stem_key_of((#[trigger] out[a]).phrase@) != stem_key_of(
                (#[trigger] out[b]).phrase@,
            ),
        forall|g: int|
            0 <= g < out.len() ==> {
                let c = #[trigger] out[g];
                &&& 0 < token_count(c.phrase@) <= 3
                &&& c.phrase@.len() >= 2
                &&& c.score <= 1000
            },
    ensures
        candidates_ok(out),
{
    reveal(candidates_ok);
}

/// Sorts candidates by score, highest first, by insertion; every
/// per-element property and every stem key of the input survive.
fn sort_by_score(cands: Vec<CandidateKeyword>, Ghost(f): Ghost<Seq<CandidateKeyword>>) -> (r: Vec<
    CandidateKeyword,
>)
    requires
        candidates_ok(cands@),
        forall|g: int| 0 <= g < cands@.len() ==> survivor_ok(f, #[trigger] cands@[g]),
    ensures
        candidates_ok(r@),
        forall|a: int, b: int|
            0 <= a < b < r@.len() ==> (#[trigger] r@[a]).score >= (#[trigger] r@[b]).score,
        forall|g: int| 0 <= g < r@.len() ==> survivor_ok(f, #[trigger] r@[g]),
        keys_covered(cands@, r@),
{
    let ghost all = cands@;
    proof {
        lemma_candidates_ok_facts(all);
    }
    let mut out: Vec<CandidateKeyword> = Vec::new();
    let mut rest = cands;
    proof {
        assert(out@ =~= Seq::<CandidateKeyword>::empty());
        lemma_split_init(all, rest@);
    }
    while rest.len() > 0
        invariant
            forall|a: int, b: int|
                0 <= a < b < out@.len() ==> (#[trigger] out@[a]).score >= (#[trigger] out@[
                    b
                ]).score,
            forall|a: int, b: int|
                0 <= a < b < out@.len() ==> stem_key_of((#[trigger] out@[a]).phrase@)
                    != stem_key_of((#[trigger] out@[b]).phrase@),
            forall|a: int, b: int|
                0 <= a < b < rest@.len() ==> stem_key_of((#[trigger] rest@[a]).phrase@)
                    != stem_key_of((#[trigger] rest@[b]).phrase@),
            forall|a: int, b: int|
                #![trigger out@[a], rest@[b]]
                0 <= a < out@.len() && 0 <= b < rest@.len() ==> stem_key_of(out@[a].phrase@)
                    != stem_key_of(rest@[b].phrase@),
            forall|g: int|
                0 <= g < out@.len() ==> {
                    let c = #[trigger] out@[g];
                    &&& 0 < token_count(c.phrase@) <= 3
                    &&& c.phrase@.len() >= 2
                    &&& c.score <= 1000
                },
            forall|g: int|
                0 <= g < rest@.len() ==> {
                    let c = #[trigger] rest@[g];
                    &&& 0 < token_count(c.phrase@) <= 3
                    &&& c.phrase@.len() >= 2
                    &&& c.score <= 1000
                },
            forall|g: int| 0 <= g < out@.len() ==> survivor_ok(f, #[trigger] out@[g]),
            forall|g: int| 0 <= g < rest@.len() ==> survivor_ok(f, #[trigger] rest@[g]),
            keys_covered_split(all, out@, rest@),
        decreases rest@.len(),
    {
        let ghost old_rest = rest@;
        let c = rest.remove(0);
        proof {
            assert(c == old_rest[0]);
            assert(forall|g: int| 0 <= g < rest@.len() ==> #[trigger] rest@[g] == old_rest[g + 1]);
        }
        // Find the insertion point: after every at-least-as-large score.
        let mut pos: usize = 0;
        while pos < out.len() && out[pos].score >= c.score
            invariant
                pos <= out@.len(),
                forall|t: int| 0 <= t < pos ==> (#[trigger] out@[t]).score >= c.score,
            decreases out@.len() - pos,
        {
            pos = pos + 1;
        }
        let ghost before = out@;
        out.insert(pos, c);
        proof {
            assert(out@ =~= before.insert(pos as int, c));
            assert(forall|g: int| 0 <= g < pos ==> #[trigger] out@[g] == before[g]);
            assert(forall|g: int| pos < g < out@.len() ==> #[trigger] out@[g] == before[g - 1]);
            assert(out@[pos as int] == c);
            assert forall|a: int, b: int|
                0 <= a < b < out@.len() implies (#[trigger] out@[a]).score >= (#[trigger] out@[
                b
            ]).score by {
                if b == pos {
                } else if a == pos {
                    assert(out@[b] == before[b - 1]);
                    assert(!(before[pos as int].score >= c.score) || pos as int >= before.len());
                }
            }
            assert forall|a: int, b: int|
                0 <= a < b < out@.len() implies stem_key_of((#[trigger] out@[a]).phrase@)
                != stem_key_of((#[trigger] out@[b]).phrase@) by {
                if a == pos {
                    assert(out@[b] == before[b - 1]);
                    assert(stem_key_of(out@[a].phrase@) != stem_key_of(before[b - 1].phrase@));
                } else if b == pos {
                    assert(out@[a] == before[a]);
                    assert(stem_key_of(before[a].phrase@) != stem_key_of(c.phrase@));
                }
            }
            assert forall|a: int, b: int|
                #![trigger out@[a], rest@[b]]
                0 <= a < out@.len() && 0 <= b < rest@.len() implies stem_key_of(out@[a].phrase@)
                != stem_key_of(rest@[b].phrase@) by {
                if a == pos {
                    assert(rest@[b] == old_rest[b + 1]);
                    assert(stem_key_of(old_rest[0].phrase@) != stem_key_of(
                        old_rest[b + 1].phrase@,
                    ));
                } else {
                    if a < pos {
                        assert(out@[a] == before[a]);
                    } else {
                        assert(out@[a] == before[a - 1]);
                    }
                    assert(rest@[b] == old_rest[b + 1]);
                }
            }
            assert forall|g: int| 0 <= g < out@.len() implies survivor_ok(
                f,
                #[trigger] out@[g],
            ) by {
                if g < pos {
                    assert(out@[g] == before[g]);
                } else if g > pos {
                    assert(out@[g] == before[g - 1]);
                } else {
                    assert(out@[g] == c);
                }
            }
            lemma_split_step(all, before, out@, old_rest, rest@, c, pos as int);
        }
    }
    proof {
        lemma_split_done(all, out@, rest@);
        lemma_candidates_ok_intro(out@);
    }
    out
}

/// Finishes candidate extraction: filter, stem-deduplicate, rank, cap.
///
/// Over the filtered input — the entries with one to three tokens and at
/// least two characters, scores clamped — the result holds one survivor
/// per stem key (all keys represented unless the cap cut the list), each
/// survivor being the best-scoring variant of its group with the boost
/// rule applied, ordered by score highest first.
pub fn finalize_candidates(scored: Vec<CandidateKeyword>, max_candidates: usize) -> (r: Vec<
    CandidateKeyword,
>)
    ensures
        ({
            let f = filtered(scored@);
            &&& candidates_ok(r@)
            &&& r@.len() <= max_candidates
            &&& (forall|a: int, b: int|
                0 <= a < b < r@.len() ==> (#[trigger] r@[a]).score >= (#[trigger] r@[b]).score)
            &&& (forall|g: int| 0 <= g < r@.len() ==> survivor_ok(f, #[trigger] r@[g]))
            &&& (r@.len() == max_candidates || keys_covered(f, r@))
        }),
{
    let ghost f = filtered(scored@);
    let filtered_cands = filter_candidates(scored);
    proof {
        lemma_filtered_bounds(scored@);
    }
    let deduped = dedup_by_stem(filtered_cands);
    let ghost dd = deduped@;
    let mut sorted = sort_by_score(deduped, Ghost(f));
    proof {
        lemma_keys_covered_trans(f, dd, sorted@);
    }
    if sorted.len() > max_candidates {
        proof {
            lemma_candidates_ok_facts(sorted@);
        }
        while sorted.len() > max_candidates
            invariant
                sorted@.len() >= max_candidates,
                forall|a: int, b: int|
                    0 <= a < b < sorted@.len() ==> stem_key_of((#[trigger] sorted@[a]).phrase@)
                        != stem_key_of((#[trigger] sorted@[b]).phrase@),
                forall|g: int|
                    0 <= g < sorted@.len() ==> {
                        let c = #[trigger] sorted@[g];
                        &&& 0 < token_count(c.phrase@) <= 3
                        &&& c.phrase@.len() >= 2
                        &&& c.score <= 1000
                    },
                forall|a: int, b: int|
                    0 <= a < b < sorted@.len() ==> (#[trigger] sorted@[a]).score >= (
                    #[trigger] sorted@[b]).score,
                forall|g: int| 0 <= g < sorted@.len() ==> survivor_ok(f, #[trigger] sorted@[g]),
            decreases sorted@.len(),
        {
            let ghost before = sorted@;
            sorted.pop();
            proof {
                assert(sorted@ =~= before.take(before.len() - 1));
                assert(forall|g: int|
                    0 <= g < sorted@.len() ==> #[trigger] sorted@[g] == before[g]);
            }
        }
        proof {
            assert(sorted@.len() == max_candidates);
            lemma_candidates_ok_intro(sorted@);
        }
    }
    sorted
}

} // verus!

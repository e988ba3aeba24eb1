//! Concepts: short normalized phrases with an importance weight.
//!
//! This module carries the pure half of concept generation: cleaning and
//! validating the names an external language model returns, and merging
//! the per-chunk results of a long text, keeping the highest importance
//! for each name.

use vstd::prelude::*;
use vstd::string::StrSliceExecFns;

verus! {

/// Importance weights live in `[0, 1]`, carried in milli-units.
pub const IMPORTANCE_SCALE: u32 = 1000;

/// The importance a concept gets when its source does not rate it.
pub const DEFAULT_IMPORTANCE: u32 = 500;

/// A concept: a normalized short phrase and its importance in milli-units.
pub struct Concept {
    pub concept: String,
    pub importance: u32,
}

/// A well-formed concept carries an importance within the scale.
pub open spec fn concept_wf(c: &Concept) -> bool {
    c.importance <= IMPORTANCE_SCALE
}

impl Concept {
    /// Builds a concept, clamping the importance into the scale.
    pub fn new(concept: String, importance: u32) -> (r: Concept)
        ensures
            concept_wf(&r),
            r.concept@ == concept@,
            r.importance == if importance <= IMPORTANCE_SCALE {
                importance as int
            } else {
                IMPORTANCE_SCALE as int
            },
    {
        let imp = if importance <= IMPORTANCE_SCALE {
            importance
        } else {
            IMPORTANCE_SCALE
        };
        Concept { concept, importance: imp }
    }
}

/// The lowercased form of a string, as the external lowercasing returns
/// it.
pub uninterp spec fn lower_of(s: Seq<char>) -> Seq<char>;

/// Relies on str::to_lowercase: the result is a function of the input
/// characters alone.
#[verifier::external_body]
pub(crate) fn lowercase(s: &str) -> (r: String)
    ensures
        r@ == lower_of(s@),
{
    s.to_lowercase()
}

/// True when a character is whitespace: the Unicode whitespace set.
pub open spec fn is_space(c: char) -> bool {
    ||| c == ' ' || c == '\t' || c == '\n' || c == '\r' || c == '\u{b}' || c == '\u{c}'
    ||| c == '\u{85}' || c == '\u{a0}' || c == '\u{1680}'
    ||| ('\u{2000}' <= c && c <= '\u{200a}')
    ||| c == '\u{2028}' || c == '\u{2029}' || c == '\u{202f}' || c == '\u{205f}' || c == '\u{3000}'
}

/// Exec mirror of [`is_space`].
pub fn space_char(c: char) -> (r: bool)
    ensures
        r == is_space(c),
{
    c == ' ' || c == '\t' || c == '\n' || c == '\r' || c == '\u{b}' || c == '\u{c}' || c == '\u{85}'
        || c == '\u{a0}' || c == '\u{1680}' || ('\u{2000}' <= c && c <= '\u{200a}') || c
        == '\u{2028}' || c == '\u{2029}' || c == '\u{202f}' || c == '\u{205f}' || c == '\u{3000}'
}

/// A word character for the cleaner: alphanumeric or underscore.
pub open spec fn is_word_char(c: char) -> bool {
    crate::slug::alphanumeric(c) || c == '_'
}

/// The first cleaning pass: everything except word characters, whitespace
/// and apostrophes becomes a space.
pub open spec fn blank_punct(s: Seq<char>) -> Seq<char> {
    s.map_values(
        |c: char|
            if is_word_char(c) || is_space(c) || c == '\'' {
                c
            } else {
                ' '
            },
    )
}

/// The second cleaning pass: an apostrophe next to whitespace collapses
/// with it into a single space, scanning left to right.
pub open spec fn strip_quotes(s: Seq<char>, i: int) -> Seq<char>
    decreases s.len() - i,
{
    if i >= s.len() {
        Seq::<char>::empty()
    } else if i + 1 < s.len() && ((is_space(s[i]) && s[i + 1] == '\'') || (s[i] == '\'' && is_space(
        s[i + 1],
    ))) {
        seq![' '] + strip_quotes(s, i + 2)
    } else {
        seq![s[i]] + strip_quotes(s, i + 1)
    }
}

/// One step of the final pass: whitespace only marks a pending separator;
/// any other character lands after a single space when a separator is
/// pending.
pub open spec fn squeeze_step(state: (Seq<char>, bool), c: char) -> (Seq<char>, bool) {
    if is_space(c) {
        (state.0, true)
    } else {
        let out = if state.1 && state.0.len() > 0 {
            state.0.push(' ')
        } else {
            state.0
        };
        (out.push(c), false)
    }
}

/// The final pass folded over the first `i` characters.
pub open spec fn squeeze_fold(s: Seq<char>, i: int) -> (Seq<char>, bool)
    decreases i,
{
    if i <= 0 {
        (Seq::<char>::empty(), false)
    } else {
        squeeze_step(squeeze_fold(s, i - 1), s[i - 1])
    }
}

/// The third cleaning pass: whitespace runs collapse to single spaces and
/// the ends are trimmed.
pub open spec fn squeeze_spaces(s: Seq<char>) -> Seq<char> {
    squeeze_fold(s, s.len() as int).0
}

/// The whole cleaner: punctuation blanked, stray apostrophes dropped,
/// whitespace normalized.
pub open spec fn clean_of(s: Seq<char>) -> Seq<char> {
    squeeze_spaces(strip_quotes(blank_punct(s), 0))
}

/// Replaces punctuation with spaces, drops apostrophes that touch
/// whitespace, collapses whitespace runs and trims the ends.
pub fn clean_text(text: &str) -> (r: String)
    ensures
        r@ == clean_of(text@),
{
    let n = text.unicode_len();
    // Pass 1: blank out everything that is not a word character, space or
    // apostrophe.
    let mut pass1: Vec<char> = Vec::new();
    let mut i: usize = 0;
    while i < n
        invariant
            i <= n == text@.len(),
            pass1@ =~= blank_punct(text@).take(i as int),
        decreases n - i,
    {
        let c = text.get_char(i);
        if word_char(c) || space_char(c) || c == '\'' {
            pass1.push(c);
        } else {
            pass1.push(' ');
        }
        proof {
            assert(pass1@ =~= blank_punct(text@).take(i + 1));
        }
        i = i + 1;
    }
    proof {
        assert(pass1@ =~= blank_punct(text@));
    }
    // Pass 2: drop apostrophes that touch whitespace.
    let ghost p1 = pass1@;
    let mut pass2: Vec<char> = Vec::new();
    let mut j: usize = 0;
    while j < pass1.len()
        invariant
            j <= pass1@.len(),
            p1 == pass1@,
            pass2@ + strip_quotes(p1, j as int) =~= strip_quotes(p1, 0),
        decreases pass1@.len() - j,
    {
        let c = pass1[j];
        let pair = if j + 1 < pass1.len() {
            let d = pass1[j + 1];
            (space_char(c) && d == '\'') || (c == '\'' && space_char(d))
        } else {
            false
        };
        let ghost before = pass2@;
        if pair {
            pass2.push(' ');
            proof {
                assert(before + strip_quotes(p1, j as int) =~= strip_quotes(p1, 0));
                assert(strip_quotes(p1, j as int) =~= seq![' '] + strip_quotes(p1, j + 2));
                assert(pass2@ + strip_quotes(p1, j + 2) =~= strip_quotes(p1, 0));
            }
            j = j + 2;
        } else {
            pass2.push(c);
            proof {
                assert(before + strip_quotes(p1, j as int) =~= strip_quotes(p1, 0));
                assert(strip_quotes(p1, j as int) =~= seq![p1[j as int]] + strip_quotes(p1, j + 1));
                assert(pass2@ + strip_quotes(p1, j + 1) =~= strip_quotes(p1, 0));
            }
            j = j + 1;
        }
    }
    proof {
        assert(pass2@ =~= strip_quotes(p1, 0));
    }
    // Pass 3: collapse whitespace runs and trim.
    let ghost p2 = pass2@;
    let mut out: Vec<char> = Vec::new();
    let mut pending = false;
    let mut k: usize = 0;
    while k < pass2.len()
        invariant
            k <= pass2@.len(),
            p2 == pass2@,
            (out@, pending) == squeeze_fold(p2, k as int),
        decreases pass2@.len() - k,
    {
        let c = pass2[k];
        if space_char(c) {
            pending = true;
        } else {
            if pending && out.len() > 0 {
                out.push(' ');
            }
            out.push(c);
            pending = false;
        }
        k = k + 1;
    }
    crate::slug::chars_to_string(&out)
}

/// Exec test for a word character; relies on the alphanumeric test.
fn word_char(c: char) -> (r: bool)
    ensures
        r == is_word_char(c),
{
    crate::slug::alphanumeric_char(c) || c == '_'
}

/// The normalized form of a concept name: cleaned, lowercased, and every
/// token replaced by its stem, rejoined with single spaces.
pub open spec fn lemma_of(s: Seq<char>) -> Seq<char> {
    crate::candidates::stem_key_of(lower_of(clean_of(s)))
}

/// Lemmatizes a concept name: the cleaner, then lowercasing, then the
/// per-token stemmer the candidate keys use.
pub fn lemmatize_concept(concept: &str) -> (r: String)
    ensures
        r@ == lemma_of(concept@),
{
    let cleaned = clean_text(concept);
    let lowered = lowercase(cleaned.as_str());
    crate::candidates::stem_phrase(lowered.as_str())
}

/// How many whitespace-separated tokens the first `i` characters hold,
/// with whether a token was open at position `i`.
pub open spec fn token_fold(s: Seq<char>, i: int) -> (int, bool)
    decreases i,
{
    if i <= 0 {
        (0, false)
    } else {
        let prev = token_fold(s, i - 1);
        if is_space(s[i - 1]) {
            (prev.0, false)
        } else if prev.1 {
            prev
        } else {
            (prev.0 + 1, true)
        }
    }
}

/// The number of whitespace-separated tokens.
pub open spec fn token_count(s: Seq<char>) -> int {
    token_fold(s, s.len() as int).0
}

/// Counts whitespace-separated tokens.
pub fn count_tokens(text: &str) -> (r: usize)
    ensures
        r as int == token_count(text@),
{
    let n = text.unicode_len();
    let mut count: usize = 0;
    let mut open = false;
    let mut i: usize = 0;
    while i < n
        invariant
            i <= n == text@.len(),
            count <= i,
            (count as int, open) == token_fold(text@, i as int),
        decreases n - i,
    {
        let c = text.get_char(i);
        if space_char(c) {
            open = false;
        } else if !open {
            count = count + 1;
            open = true;
        }
        i = i + 1;
    }
    count
}

/// Validates and normalizes one concept entry a language model returned:
/// empty names and names of more than three tokens are dropped; the name
/// is cleaned, lowercased and stemmed per token; a missing importance
/// defaults, an out-of-scale one is clamped.
pub fn normalize_concept(name: &str, importance: Option<u32>) -> (r: Option<Concept>)
    ensures
        (r is Some) <==> (0 < token_count(name@) <= 3),
        r matches Some(c) ==> c.concept@ == lemma_of(name@) && concept_wf(&c)
            && c.importance as int == (match importance {
            Some(v) => if v <= IMPORTANCE_SCALE {
                v as int
            } else {
                IMPORTANCE_SCALE as int
            },
            None => DEFAULT_IMPORTANCE as int,
        }),
{
    let tokens = count_tokens(name);
    proof {
        lemma_token_count_bounded(name@, name@.len() as int);
    }
    if tokens == 0 || tokens > 3 {
        return None;
    }
    let cleaned = lemmatize_concept(name);
    let imp = match importance {
        Some(v) => if v <= IMPORTANCE_SCALE {
            v
        } else {
            IMPORTANCE_SCALE
        },
        None => DEFAULT_IMPORTANCE,
    };
    Some(Concept { concept: cleaned, importance: imp })
}

proof fn lemma_token_count_bounded(s: Seq<char>, i: int)
    requires
        0 <= i <= s.len(),
    ensures
        0 <= token_fold(s, i).0 <= i,
    decreases i,
{
    if i > 0 {
        lemma_token_count_bounded(s, i - 1);
    }
}

/// The context-window hint passed to the language model: a third of the
/// byte length plus headroom, floored at 4096.
pub fn compute_num_ctx(text_len: usize) -> (r: u64)
    ensures
        r == if text_len / 3 + 1024 > 4096 {
            (text_len / 3 + 1024) as int
        } else {
            4096int
        },
{
    let estimated: u64 = (text_len as u64) / 3 + 1024;
    if estimated > 4096 {
        estimated
    } else {
        4096
    }
}

/// Whether concept generation should fan out over chunks: texts of six
/// thousand bytes or more are chunked.
pub fn needs_chunking(text_len: usize) -> (r: bool)
    ensures
        r == (text_len >= 6000),
{
    text_len >= 6000
}

/// Merges per-chunk concept lists: entries are deduplicated by lowercased
/// name, keeping the highest importance, in order of first appearance.
///
/// Every output entry is one of the inputs and beats every input that
/// shares its lowercased name; distinct outputs have distinct lowercased
/// names; and every input is represented.
pub fn merge_chunk_concepts(chunk_results: Vec<Vec<Concept>>) -> (r: Vec<Concept>)
    ensures
        dedup_ok(flatten_views(chunk_results@), r@),
        r@ == dedup_fold(
            flatten_views(chunk_results@),
            flatten_views(chunk_results@).len() as int,
        ),
{
    let flat = flatten(chunk_results);
    dedup_keep_max(flat)
}

/// The concatenation of the per-chunk lists.
pub open spec fn flatten_views(lists: Seq<Vec<Concept>>) -> Seq<Concept>
    decreases lists.len(),
{
    if lists.len() == 0 {
        Seq::<Concept>::empty()
    } else {
        lists[0]@ + flatten_views(lists.drop_first())
    }
}

/// Flattens the chunk results into one list.
fn flatten(lists: Vec<Vec<Concept>>) -> (r: Vec<Concept>)
    ensures
        r@ == flatten_views(lists@),
{
    let ghost all = lists@;
    let mut out: Vec<Concept> = Vec::new();
    let mut rest = lists;
    while rest.len() > 0
        invariant
            out@ + flatten_views(rest@) =~= flatten_views(all),
        decreases rest@.len(),
    {
        let ghost pre = rest@;
        let first = rest.remove(0);
        proof {
            assert(rest@ =~= pre.drop_first());
            assert(first == pre[0]);
            assert(flatten_views(pre) =~= pre[0]@ + flatten_views(pre.drop_first()));
        }
        let ghost out_before = out@;
        let mut m: usize = 0;
        while m < first.len()
            invariant
                m <= first@.len(),
                out@ =~= out_before + first@.take(m as int),
            decreases first@.len() - m,
        {
            let c = Concept {
                concept: first[m].concept.clone(),
                importance: first[m].importance,
            };
            proof {
                assert(c == first@[m as int]);
            }
            out.push(c);
            proof {
                assert(out@ =~= out_before + first@.take(m + 1));
            }
            m = m + 1;
        }
        proof {
            assert(out@ =~= out_before + first@);
            assert(out@ + flatten_views(rest@) =~= flatten_views(all));
        }
    }
    proof {
        assert(out@ =~= flatten_views(all));
    }
    out
}

/// What chunk-merging guarantees: for some key cache, the fold invariant
/// holds over the whole input — outputs have pairwise distinct lowercased
/// names, each output is one of the inputs and beats every input sharing
/// its lowercased name, and every input is represented.
pub open spec fn dedup_ok(f: Seq<Concept>, out: Seq<Concept>) -> bool {
    exists|keys: Seq<String>| #[trigger] dedup_inv(f, out, keys, f.len() as int)
}

/// The dedup loop invariant: entries so far have distinct keys, each comes
/// from the first `i` inputs, beats all same-key inputs among them, and
/// covers them.
pub open spec fn dedup_inv(f: Seq<Concept>, out: Seq<Concept>, keys: Seq<String>, i: int) -> bool {
    &&& out.len() == keys.len()
    &&& (forall|g: int| 0 <= g < out.len() ==> (#[trigger] keys[g])@ == lower_of(out[g].concept@))
    &&& (forall|a: int, b: int|
        0 <= a < b < out.len() ==> lower_of((#[trigger] out[a]).concept@) != lower_of(
            (#[trigger] out[b]).concept@,
        ))
    &&& (forall|g: int|
        0 <= g < out.len() ==> exists|k: int|
            0 <= k < i && (#[trigger] out[g]).concept@ == f[k].concept@ && out[g].importance == f[
                k
            ].importance)
    &&& (forall|g: int, k: int|
        #![trigger out[g], f[k]]
        0 <= g < out.len() && 0 <= k < i && lower_of(f[k].concept@) == lower_of(out[g].concept@)
            ==> f[k].importance <= out[g].importance)
    &&& (forall|k: int|
        0 <= k < i ==> exists|g: int|
            0 <= g < out.len() && lower_of((#[trigger] f[k]).concept@) == lower_of(
                out[g].concept@,
            ))
}

/// One dedup step: fold input `i` into the accumulator.
/// One fold step of chunk-merging: a seen key keeps its first position
/// and takes the strictly higher importance (ties keep the earlier
/// entry); a new key is appended.
pub open spec fn spec_dedup_step(f: Seq<Concept>, prev: Seq<Concept>, i: int) -> Seq<Concept> {
    if exists|g: int|
        0 <= g < prev.len() && lower_of((#[trigger] prev[g]).concept@) == lower_of(
            f[i].concept@,
        ) {
        let g = choose|g: int|
            0 <= g < prev.len() && lower_of((#[trigger] prev[g]).concept@) == lower_of(
                f[i].concept@,
            );
        if f[i].importance > prev[g].importance {
            prev.update(g, f[i])
        } else {
            prev
        }
    } else {
        prev.push(f[i])
    }
}

/// The whole chunk-merge as a function of its input — the fold of the
/// steps — so identical inputs give identical outputs, in first-appearance
/// order.
pub open spec fn dedup_fold(f: Seq<Concept>, i: int) -> Seq<Concept>
    decreases i,
{
    if i <= 0 {
        Seq::<Concept>::empty()
    } else {
        spec_dedup_step(f, dedup_fold(f, i - 1), i - 1)
    }
}

fn dedup_step(
    out: &mut Vec<Concept>,
    keys: &mut Vec<String>,
    c: &Concept,
    Ghost(f): Ghost<Seq<Concept>>,
    Ghost(i): Ghost<int>,
)
    requires
        0 <= i < f.len(),
        *c == f[i],
        dedup_inv(f, old(out)@, old(keys)@, i),
    ensures
        dedup_inv(f, final(out)@, final(keys)@, i + 1),
        final(out)@ == spec_dedup_step(f, old(out)@, i),
{
    let key = lowercase(c.concept.as_str());
    // Find an existing entry with this key.
    let mut found: Option<usize> = None;
    let mut g: usize = 0;
    while g < keys.len()
        invariant
            g <= keys@.len(),
            keys@ == old(keys)@,
            out@ == old(out)@,
            key@ == lower_of(f[i].concept@),
            match found {
                Some(gg) => gg < keys@.len() && keys@[gg as int]@ == key@,
                None => forall|t: int| 0 <= t < g ==> (#[trigger] keys@[t])@ != key@,
            },
        decreases keys@.len() - g,
    {
        if found.is_none() && keys[g] == key {
            found = Some(g);
        }
        g = g + 1;
    }
    let ghost prev = out@;
    let ghost prev_keys = keys@;
    match found {
        Some(gg) => {
            proof {
                lemma_step_matches_update(f, prev, prev_keys, gg as int, i);
            }
            dedup_update(out, keys, c, gg, Ghost(f), Ghost(i));
        },
        None => {
            proof {
                lemma_step_matches_insert(f, prev, prev_keys, i);
            }
            dedup_insert(out, keys, c, key, Ghost(f), Ghost(i));
        },
    }
}

/// When the key is cached at `gg`, the fold step is the max-update there.
proof fn lemma_step_matches_update(
    f: Seq<Concept>,
    prev: Seq<Concept>,
    keys: Seq<String>,
    gg: int,
    i: int,
)
    requires
        0 <= i < f.len(),
        dedup_inv(f, prev, keys, i),
        0 <= gg < keys.len(),
        keys[gg]@ == lower_of(f[i].concept@),
    ensures
        spec_dedup_step(f, prev, i) == (if f[i].importance > prev[gg].importance {
            prev.update(gg, f[i])
        } else {
            prev
        }),
{
    assert(lower_of(prev[gg].concept@) == keys[gg]@);
    assert(exists|g2: int|
        0 <= g2 < prev.len() && lower_of((#[trigger] prev[g2]).concept@) == lower_of(
            f[i].concept@,
        )) by {
        assert(lower_of(prev[gg].concept@) == lower_of(f[i].concept@));
    }
    let gsp = choose|g2: int|
        0 <= g2 < prev.len() && lower_of((#[trigger] prev[g2]).concept@) == lower_of(
            f[i].concept@,
        );
    if gsp != gg {
        assert(lower_of(prev[gsp].concept@) == lower_of(prev[gg].concept@));
        assert(false);
    }
}

/// When the key is fresh, the fold step appends.
proof fn lemma_step_matches_insert(
    f: Seq<Concept>,
    prev: Seq<Concept>,
    keys: Seq<String>,
    i: int,
)
    requires
        0 <= i < f.len(),
        dedup_inv(f, prev, keys, i),
        forall|t: int| 0 <= t < keys.len() ==> (#[trigger] keys[t])@ != lower_of(f[i].concept@),
    ensures
        spec_dedup_step(f, prev, i) == prev.push(f[i]),
{
    assert forall|g2: int| 0 <= g2 < prev.len() implies lower_of(
        (#[trigger] prev[g2]).concept@,
    ) != lower_of(f[i].concept@) by {
        assert(keys[g2]@ == lower_of(prev[g2].concept@));
    }
}

/// Folds input `i` into the existing entry `gg` that shares its key.
#[verifier::rlimit(100)]
fn dedup_update(
    out: &mut Vec<Concept>,
    keys: &Vec<String>,
    c: &Concept,
    gg: usize,
    Ghost(f): Ghost<Seq<Concept>>,
    Ghost(i): Ghost<int>,
)
    requires
        0 <= i < f.len(),
        *c == f[i],
        dedup_inv(f, old(out)@, keys@, i),
        gg < keys@.len(),
        keys@[gg as int]@ == lower_of(f[i].concept@),
    ensures
        dedup_inv(f, final(out)@, keys@, i + 1),
        final(out)@ == (if f[i].importance > old(out)@[gg as int].importance {
            old(out)@.update(gg as int, f[i])
        } else {
            old(out)@
        }),
{
    let ghost old_out = out@;
    proof {
        assert(lower_of(old_out[gg as int].concept@) == lower_of(f[i].concept@));
    }
    if c.importance > out[gg].importance {
        let imp = c.importance;
        let text = c.concept.clone();
        out[gg] = Concept { concept: text, importance: imp };
    }
    proof {
        assert(out@.len() == old_out.len());
        assert(out@[gg as int].importance >= f[i].importance);
        assert(out@[gg as int].importance >= old_out[gg as int].importance);
        assert(lower_of(out@[gg as int].concept@) == lower_of(f[i].concept@));
        assert(forall|g2: int| 0 <= g2 < out@.len() && g2 != gg as int ==> #[trigger] out@[g2]
            == old_out[g2]);
        assert forall|g2: int| 0 <= g2 < out@.len() implies exists|k: int|
            0 <= k < i + 1 && (#[trigger] out@[g2]).concept@ == f[k].concept@ && out@[
                g2
            ].importance == f[k].importance by {
            if g2 != gg as int || out@[g2] == old_out[g2] {
                let k0 = choose|k: int|
                    0 <= k < i && (#[trigger] old_out[g2]).concept@ == f[k].concept@ && old_out[
                        g2
                    ].importance == f[k].importance;
                assert(out@[g2].concept@ == f[k0].concept@ && out@[g2].importance == f[
                    k0
                ].importance);
            } else {
                assert(out@[g2].concept@ == f[i].concept@ && out@[g2].importance == f[
                    i
                ].importance);
            }
        }
        assert forall|g2: int, k: int|
            #![trigger out@[g2], f[k]]
            0 <= g2 < out@.len() && 0 <= k < i + 1 && lower_of(f[k].concept@) == lower_of(
                out@[g2].concept@,
            ) implies f[k].importance <= out@[g2].importance by {
            if g2 != gg as int {
                assert(out@[g2] == old_out[g2]);
                if k == i {
                    assert(lower_of(out@[g2].concept@) != lower_of(out@[gg as int].concept@));
                }
            }
        }
        assert forall|k: int| 0 <= k < i + 1 implies exists|g2: int|
            0 <= g2 < out@.len() && lower_of((#[trigger] f[k]).concept@) == lower_of(
                out@[g2].concept@,
            ) by {
            if k < i {
                let g0 = choose|g2: int|
                    0 <= g2 < old_out.len() && lower_of((#[trigger] f[k]).concept@) == lower_of(
                        old_out[g2].concept@,
                    );
                if g0 == gg as int {
                    assert(lower_of(f[k].concept@) == lower_of(out@[gg as int].concept@));
                } else {
                    assert(out@[g0] == old_out[g0]);
                    assert(lower_of(f[k].concept@) == lower_of(out@[g0].concept@));
                }
            } else {
                assert(lower_of(f[k].concept@) == lower_of(out@[gg as int].concept@));
            }
        }
    }
}

/// Appends input `i`, whose key is new.
#[verifier::rlimit(100)]
fn dedup_insert(
    out: &mut Vec<Concept>,
    keys: &mut Vec<String>,
    c: &Concept,
    key: String,
    Ghost(f): Ghost<Seq<Concept>>,
    Ghost(i): Ghost<int>,
)
    requires
        0 <= i < f.len(),
        *c == f[i],
        dedup_inv(f, old(out)@, old(keys)@, i),
        key@ == lower_of(f[i].concept@),
        forall|t: int| 0 <= t < old(keys)@.len() ==> (#[trigger] old(keys)@[t])@ != key@,
    ensures
        dedup_inv(f, final(out)@, final(keys)@, i + 1),
        final(out)@ == old(out)@.push(f[i]),
{
    let ghost old_out = out@;
    let ghost old_keys = keys@;
    let imp = c.importance;
    let text = c.concept.clone();
    out.push(Concept { concept: text, importance: imp });
    keys.push(key);
    proof {
        let last = out@.len() - 1;
        assert(out@[last].concept@ == f[i].concept@ && out@[last].importance == f[i].importance);
        assert(keys@[last]@ == lower_of(out@[last].concept@));
        assert(forall|g2: int| 0 <= g2 < last ==> #[trigger] out@[g2] == old_out[g2]);
        assert(forall|g2: int| 0 <= g2 < last ==> #[trigger] keys@[g2] == old_keys[g2]);
        assert forall|a: int, b: int| 0 <= a < b < out@.len() implies lower_of(
            (#[trigger] out@[a]).concept@,
        ) != lower_of((#[trigger] out@[b]).concept@) by {
            if b == last {
                assert(old_keys[a]@ == lower_of(old_out[a].concept@));
                assert(old_keys[a]@ != key@);
            }
        }
        assert forall|g2: int| 0 <= g2 < out@.len() implies exists|k: int|
            0 <= k < i + 1 && (#[trigger] out@[g2]).concept@ == f[k].concept@ && out@[
                g2
            ].importance == f[k].importance by {
            if g2 < last {
                let k0 = choose|k: int|
                    0 <= k < i && (#[trigger] old_out[g2]).concept@ == f[k].concept@ && old_out[
                        g2
                    ].importance == f[k].importance;
                assert(out@[g2].concept@ == f[k0].concept@ && out@[g2].importance == f[
                    k0
                ].importance);
            } else {
                assert(out@[g2].concept@ == f[i].concept@);
            }
        }
        assert forall|g2: int, k: int|
            #![trigger out@[g2], f[k]]
            0 <= g2 < out@.len() && 0 <= k < i + 1 && lower_of(f[k].concept@) == lower_of(
                out@[g2].concept@,
            ) implies f[k].importance <= out@[g2].importance by {
            if g2 < last {
                if k == i {
                    assert(old_keys[g2]@ == lower_of(old_out[g2].concept@));
                    assert(old_keys[g2]@ != key@);
                }
            } else {
                if k < i {
                    let g0 = choose|g3: int|
                        0 <= g3 < old_out.len() && lower_of((#[trigger] f[k]).concept@)
                            == lower_of(old_out[g3].concept@);
                    assert(old_keys[g0]@ == lower_of(old_out[g0].concept@));
                    if lower_of(f[k].concept@) == lower_of(out@[g2].concept@) {
                        assert(old_keys[g0]@ == key@);
                        assert(false);
                    }
                }
            }
        }
        assert forall|k: int| 0 <= k < i + 1 implies exists|g2: int|
            0 <= g2 < out@.len() && lower_of((#[trigger] f[k]).concept@) == lower_of(
                out@[g2].concept@,
            ) by {
            if k < i {
                let g0 = choose|g2: int|
                    0 <= g2 < old_out.len() && lower_of((#[trigger] f[k]).concept@) == lower_of(
                        old_out[g2].concept@,
                    );
                assert(out@[g0] == old_out[g0]);
                assert(lower_of(f[k].concept@) == lower_of(out@[g0].concept@));
            } else {
                assert(lower_of(f[k].concept@) == lower_of(out@[last].concept@));
            }
        }
    }
}

/// Deduplicates by lowercased name, keeping the highest importance; first
/// appearance fixes the position.
fn dedup_keep_max(flat: Vec<Concept>) -> (r: Vec<Concept>)
    ensures
        dedup_ok(flat@, r@),
        r@ == dedup_fold(flat@, flat@.len() as int),
{
    let ghost f = flat@;
    let n = flat.len();
    let mut out: Vec<Concept> = Vec::new();
    let mut keys: Vec<String> = Vec::new();
    proof {
        assert(out@ =~= dedup_fold(f, 0));
    }
    let mut i: usize = 0;
    while i < n
        invariant
            i <= n == flat@.len(),
            f == flat@,
            dedup_inv(f, out@, keys@, i as int),
            out@ == dedup_fold(f, i as int),
        decreases n - i,
    {
        let c = &flat[i];
        dedup_step(&mut out, &mut keys, c, Ghost(f), Ghost(i as int));
        i = i + 1;
    }
    proof {
        assert(dedup_inv(f, out@, keys@, f.len() as int));
        assert(dedup_ok(f, out@)) by {
            assert(dedup_inv(f, out@, keys@, f.len() as int));
        }
    }
    out
}

} // verus!

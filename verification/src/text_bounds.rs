//! Boundary-aware text splitting.
//!
//! Texts are cut at natural boundaries — sentence ends, paragraph breaks,
//! markdown headings, newlines, whitespace — and never inside a UTF-8 code
//! point.  All reasoning happens over the UTF-8 byte encoding of the text;
//! the specification functions below mirror the tiered scan exactly.

use vstd::prelude::*;
use vstd::string::StringSliceAdditionalSpecFns;
use vstd::utf8::*;

verus! {

broadcast use vstd::string::group_string_axioms, vstd::utf8::group_utf8_lib;

/// True when a whitespace character's encoding starts at byte `i`.
///
/// Covers the ASCII whitespace bytes and the UTF-8 encodings of the
/// non-ASCII Unicode whitespace characters (NEL, NBSP, ogham space mark,
/// the U+2000 family, line and paragraph separators, narrow and medium
/// mathematical spaces, and the ideographic space).
pub open spec fn is_ws_at(b: Seq<u8>, i: int) -> bool {
    &&& 0 <= i < b.len()
    &&& {
        ||| b[i] == 0x09 || b[i] == 0x0a || b[i] == 0x0b || b[i] == 0x0c || b[i] == 0x0d
            || b[i] == 0x20
        ||| (b[i] == 0xc2 && i + 1 < b.len() && (b[i + 1] == 0x85 || b[i + 1] == 0xa0))
        ||| (b[i] == 0xe1 && i + 2 < b.len() && b[i + 1] == 0x9a && b[i + 2] == 0x80)
        ||| (b[i] == 0xe2 && i + 2 < b.len() && b[i + 1] == 0x80 && (0x80 <= b[i + 2] <= 0x8a
            || b[i + 2] == 0xa8 || b[i + 2] == 0xa9 || b[i + 2] == 0xaf))
        ||| (b[i] == 0xe2 && i + 2 < b.len() && b[i + 1] == 0x81 && b[i + 2] == 0x9f)
        ||| (b[i] == 0xe3 && i + 2 < b.len() && b[i + 1] == 0x80 && b[i + 2] == 0x80)
    }
}

/// Exec mirror of [`is_ws_at`].
fn ws_at(b: &[u8], i: usize) -> (r: bool)
    requires
        i < b@.len(),
    ensures
        r == is_ws_at(b@, i as int),
{
    let x = b[i];
    if x == 0x09 || x == 0x0a || x == 0x0b || x == 0x0c || x == 0x0d || x == 0x20 {
        return true;
    }
    if x == 0xc2 && i + 1 < b.len() {
        let y = b[i + 1];
        return y == 0x85 || y == 0xa0;
    }
    if (x == 0xe1 || x == 0xe2 || x == 0xe3) && b.len() - i > 2 {
        let y = b[i + 1];
        let z = b[i + 2];
        if x == 0xe1 {
            return y == 0x9a && z == 0x80;
        }
        if x == 0xe2 {
            if y == 0x80 {
                return (0x80 <= z && z <= 0x8a) || z == 0xa8 || z == 0xa9 || z == 0xaf;
            }
            return y == 0x81 && z == 0x9f;
        }
        return y == 0x80 && z == 0x80;
    }
    false
}

/// The closest char boundary at or before `min(i, b.len())`.
pub open spec fn spec_floor_char_boundary(b: Seq<u8>, i: int) -> int {
    prev_boundary(b, if i < b.len() { i } else { b.len() as int })
}

/// Walks down from `j` to the first position that does not sit inside a
/// multi-byte encoding.
pub open spec fn prev_boundary(b: Seq<u8>, j: int) -> int
    decreases j,
{
    if j <= 0 {
        0
    } else if j == b.len() || !is_continuation_byte(b[j]) {
        j
    } else {
        prev_boundary(b, j - 1)
    }
}

proof fn lemma_prev_boundary_props(b: Seq<u8>, j: int)
    requires
        valid_utf8(b),
        0 <= j <= b.len(),
    ensures
        0 <= prev_boundary(b, j) <= j,
        is_char_boundary(b, prev_boundary(b, j)),
    decreases j,
{
    if j <= 0 {
    } else if j == b.len() || !is_continuation_byte(b[j]) {
    } else {
        lemma_prev_boundary_props(b, j - 1);
    }
}

/// Finds the largest byte index that is at most `index` and falls on a
/// UTF-8 char boundary of `s`.
pub fn floor_char_boundary(s: &str, index: usize) -> (r: usize)
    ensures
        r == spec_floor_char_boundary(s.spec_bytes(), index as int),
        r <= index,
        r <= s.spec_bytes().len(),
        is_char_boundary(s.spec_bytes(), r as int),
{
    let b = s.as_bytes();
    let len = b.len();
    let mut i: usize = if index < len {
        index
    } else {
        len
    };
    while i > 0 && i < len && 0x80 <= b[i] && b[i] <= 0xbf
        invariant
            i <= len,
            len == b@.len(),
            b@ == s.spec_bytes(),
            valid_utf8(b@),
            prev_boundary(b@, i as int) == spec_floor_char_boundary(b@, index as int),
            i <= index,
        decreases i,
    {
        i = i - 1;
    }
    proof {
        lemma_prev_boundary_props(b@, i as int);
        assert(prev_boundary(b@, i as int) == i);
    }
    i
}

/// Lowercases an ASCII letter byte; leaves every other byte unchanged.
pub open spec fn lower_byte(x: u8) -> u8 {
    if 0x41 <= x <= 0x5a {
        (x + 0x20) as u8
    } else {
        x
    }
}

/// True when `w` is one of the known abbreviations that end with a period
/// without ending a sentence.
pub open spec fn is_abbrev_word(w: Seq<u8>) -> bool {
    ||| w2(w, 0x6d, 0x72)  // mr
    ||| w3(w, 0x6d, 0x72, 0x73)  // mrs
    ||| w2(w, 0x6d, 0x73)  // ms
    ||| w2(w, 0x64, 0x72)  // dr
    ||| w4(w, 0x70, 0x72, 0x6f, 0x66)  // prof
    ||| w2(w, 0x73, 0x72)  // sr
    ||| w2(w, 0x6a, 0x72)  // jr
    ||| w2(w, 0x73, 0x74)  // st
    ||| w2(w, 0x76, 0x73)  // vs
    ||| w3(w, 0x65, 0x74, 0x63)  // etc
    ||| w3(w, 0x69, 0x6e, 0x63)  // inc
    ||| w3(w, 0x6c, 0x74, 0x64)  // ltd
    ||| w4(w, 0x64, 0x65, 0x70, 0x74)  // dept
    ||| (w.len() == 6 && w[0] == 0x61 && w[1] == 0x70 && w[2] == 0x70 && w[3] == 0x72 && w[4]
        == 0x6f && w[5] == 0x78)  // approx
    ||| w3(w, 0x66, 0x69, 0x67)  // fig
    ||| w2(w, 0x65, 0x71)  // eq
    ||| w3(w, 0x76, 0x6f, 0x6c)  // vol
    ||| w2(w, 0x6e, 0x6f)  // no
    ||| w3(w, 0x67, 0x65, 0x6e)  // gen
    ||| w3(w, 0x67, 0x6f, 0x76)  // gov
    ||| w2(w, 0x65, 0x67)  // eg
    ||| w2(w, 0x69, 0x65)  // ie
}

/// True when `w` is a common top-level domain, so that a period after it is
/// read as part of a URL rather than a sentence end.
pub open spec fn is_tld_word(w: Seq<u8>) -> bool {
    ||| w3(w, 0x63, 0x6f, 0x6d)  // com
    ||| w3(w, 0x6f, 0x72, 0x67)  // org
    ||| w3(w, 0x6e, 0x65, 0x74)  // net
    ||| w2(w, 0x69, 0x6f)  // io
    ||| w3(w, 0x65, 0x64, 0x75)  // edu
    ||| w3(w, 0x67, 0x6f, 0x76)  // gov
    ||| w2(w, 0x63, 0x6f)  // co
}

pub open spec fn w2(w: Seq<u8>, a: u8, b: u8) -> bool {
    w.len() == 2 && w[0] == a && w[1] == b
}

pub open spec fn w3(w: Seq<u8>, a: u8, b: u8, c: u8) -> bool {
    w.len() == 3 && w[0] == a && w[1] == b && w[2] == c
}

pub open spec fn w4(w: Seq<u8>, a: u8, b: u8, c: u8, d: u8) -> bool {
    w.len() == 4 && w[0] == a && w[1] == b && w[2] == c && w[3] == d
}

/// The byte index of the last whitespace character that starts at or before
/// position `p`, or -1 when there is none.
pub open spec fn last_ws_from(b: Seq<u8>, p: int) -> int
    decreases p + 1,
{
    if p < 0 {
        -1
    } else if is_ws_at(b, p) {
        p
    } else {
        last_ws_from(b, p - 1)
    }
}

/// The word that ends at `q` (inclusive): the bytes after the last
/// whitespace character before `q`, lowercased.
pub open spec fn word_ending_at(b: Seq<u8>, q: int) -> Seq<u8> {
    let ws = last_ws_from(b, q - 1);
    b.subrange(ws + 1, q + 1).map_values(|x: u8| lower_byte(x))
}

/// True when the token before the period at `q + 1` is an abbreviation, a
/// top-level domain, or a lone letter (an initial), so that the match is
/// rejected as a sentence end.
pub open spec fn abbrev_at(b: Seq<u8>, q: int) -> bool {
    let w = word_ending_at(b, q);
    ||| (w.len() == 1 && (0x61 <= w[0] <= 0x7a))
    ||| is_abbrev_word(w)
    ||| is_tld_word(w)
}

/// Decides whether the text position `match_start` — the character just
/// before sentence-ending punctuation — closes an abbreviation, a TLD or a
/// single-letter initial instead of a sentence.
pub fn is_abbreviation(text: &str, match_start: usize) -> (r: bool)
    requires
        match_start < text.spec_bytes().len(),
    ensures
        r == abbrev_at(text.spec_bytes(), match_start as int),
{
    let b = text.as_bytes();
    // Walk backward to the last whitespace character before the word.
    // `word_start - 1` plays the role of the scan position, so that the
    // index stays unsigned.
    let mut word_start: usize = match_start;
    while word_start > 0 && !ws_at(b, word_start - 1)
        invariant
            word_start <= match_start < b@.len(),
            last_ws_from(b@, word_start - 1) == last_ws_from(b@, match_start - 1),
        decreases word_start,
    {
        word_start = word_start - 1;
    }
    proof {
        assert(last_ws_from(b@, word_start - 1) == word_start - 1 || (word_start == 0
            && last_ws_from(b@, -1) == -1));
    }
    // Lowercase the word in place.
    let mut w: Vec<u8> = Vec::new();
    let mut k = word_start;
    while k <= match_start
        invariant
            word_start <= k <= match_start + 1 <= b@.len(),
            w@ == b@.subrange(word_start as int, k as int).map_values(|x: u8| lower_byte(x)),
        decreases match_start + 1 - k,
    {
        let x = b[k];
        if 0x41 <= x && x <= 0x5a {
            w.push(x + 0x20);
        } else {
            w.push(x);
        }
        proof {
            assert(w@ =~= b@.subrange(word_start as int, k + 1 as int).map_values(
                |x: u8| lower_byte(x),
            ));
        }
        k = k + 1;
    }
    proof {
        assert(w@ =~= word_ending_at(b@, match_start as int));
    }
    if w.len() == 1 && 0x61 <= w[0] && w[0] <= 0x7a {
        return true;
    }
    listed_abbrev(&w) || listed_tld(&w)
}

fn listed_abbrev(w: &Vec<u8>) -> (r: bool)
    ensures
        r == is_abbrev_word(w@),
{
    let n = w.len();
    if n == 2 {
        let (a, b) = (w[0], w[1]);
        (a == 0x6d && b == 0x72) || (a == 0x6d && b == 0x73) || (a == 0x64 && b == 0x72) || (a
            == 0x73 && b == 0x72) || (a == 0x6a && b == 0x72) || (a == 0x73 && b == 0x74) || (a
            == 0x76 && b == 0x73) || (a == 0x65 && b == 0x71) || (a == 0x6e && b == 0x6f) || (a
            == 0x65 && b == 0x67) || (a == 0x69 && b == 0x65)
    } else if n == 3 {
        let (a, b, c) = (w[0], w[1], w[2]);
        (a == 0x6d && b == 0x72 && c == 0x73) || (a == 0x65 && b == 0x74 && c == 0x63) || (a
            == 0x69 && b == 0x6e && c == 0x63) || (a == 0x6c && b == 0x74 && c == 0x64) || (a
            == 0x66 && b == 0x69 && c == 0x67) || (a == 0x76 && b == 0x6f && c == 0x6c) || (a
            == 0x67 && b == 0x65 && c == 0x6e) || (a == 0x67 && b == 0x6f && c == 0x76)
    } else if n == 4 {
        let (a, b, c, d) = (w[0], w[1], w[2], w[3]);
        (a == 0x70 && b == 0x72 && c == 0x6f && d == 0x66) || (a == 0x64 && b == 0x65 && c == 0x70
            && d == 0x74)
    } else if n == 6 {
        w[0] == 0x61 && w[1] == 0x70 && w[2] == 0x70 && w[3] == 0x72 && w[4] == 0x6f && w[5]
            == 0x78
    } else {
        false
    }
}

/// A sentence-boundary candidate at `q`: a lowercase letter, comma or
/// closing parenthesis, then `.`, `!` or `?`, then whitespace or the end of
/// the window.
pub open spec fn sentence_candidate_at(b: Seq<u8>, q: int) -> bool {
    &&& 0 <= q
    &&& q + 1 < b.len()
    &&& (0x61 <= b[q] <= 0x7a || b[q] == 0x2c || b[q] == 0x29)
    &&& (b[q + 1] == 0x2e || b[q + 1] == 0x21 || b[q + 1] == 0x3f)
    &&& (q + 2 == b.len() || is_ws_at(b, q + 2))
}

/// A candidate that the scan accepts: far enough into the window, and not
/// closing an abbreviation.
pub open spec fn accepted_cut_at(b: Seq<u8>, q: int, min_pos: int) -> bool {
    sentence_candidate_at(b, q) && q + 2 >= min_pos && !abbrev_at(b, q)
}

/// The cut position (two bytes past the match start) of the last accepted
/// sentence candidate strictly below `q`, or -1 when there is none.
pub open spec fn last_sentence_cut_upto(b: Seq<u8>, min_pos: int, q: int) -> int
    decreases q,
{
    if q <= 0 {
        -1
    } else if accepted_cut_at(b, q - 1, min_pos) {
        q + 1
    } else {
        last_sentence_cut_upto(b, min_pos, q - 1)
    }
}

/// The last position at or below `p` where the two bytes `x`, `y` occur in
/// a row, or -1.
pub open spec fn last_pair_from(b: Seq<u8>, x: u8, y: u8, p: int) -> int
    decreases p + 1,
{
    if p < 0 {
        -1
    } else if p + 1 < b.len() && b[p] == x && b[p + 1] == y {
        p
    } else {
        last_pair_from(b, x, y, p - 1)
    }
}

/// The last position at or below `p` holding the byte `x`, or -1.
pub open spec fn last_byte_from(b: Seq<u8>, x: u8, p: int) -> int
    decreases p + 1,
{
    if p < 0 {
        -1
    } else if p < b.len() && b[p] == x {
        p
    } else {
        last_byte_from(b, x, p - 1)
    }
}

/// The tiered boundary scan over a window: the last accepted sentence end,
/// else the last paragraph break, markdown heading or newline past the 20%
/// mark, else the last whitespace, else the full window.
pub open spec fn find_boundary_spec(w: Seq<u8>) -> int {
    let min_pos = w.len() as int / 5;
    let sentence = last_sentence_cut_upto(w, min_pos, w.len() as int);
    let para = last_pair_from(w, 0x0a, 0x0a, w.len() - 2);
    let heading = last_pair_from(w, 0x0a, 0x23, w.len() - 2);
    let newline = last_byte_from(w, 0x0a, w.len() - 1);
    let ws = last_ws_from(w, w.len() - 1);
    if sentence >= 0 {
        sentence
    } else if para >= min_pos && para >= 1 {
        para
    } else if heading >= min_pos && heading >= 1 {
        heading
    } else if newline >= min_pos && newline >= 1 {
        newline
    } else if ws > 0 {
        ws
    } else {
        w.len() as int
    }
}

/// A whitespace character never starts with a UTF-8 continuation byte.
proof fn lemma_ws_not_continuation(b: Seq<u8>, i: int)
    requires
        is_ws_at(b, i),
    ensures
        !is_continuation_byte(b[i]),
{
}

proof fn lemma_last_ws_bounds(b: Seq<u8>, p: int)
    ensures
        last_ws_from(b, p) == -1 || (0 <= last_ws_from(b, p) <= p && is_ws_at(
            b,
            last_ws_from(b, p),
        )),
    decreases p + 1,
{
    if p < 0 {
    } else if is_ws_at(b, p) {
    } else {
        lemma_last_ws_bounds(b, p - 1);
    }
}

proof fn lemma_last_pair_bounds(b: Seq<u8>, x: u8, y: u8, p: int)
    ensures
        last_pair_from(b, x, y, p) == -1 || (0 <= last_pair_from(b, x, y, p) <= p
            && last_pair_from(b, x, y, p) + 1 < b.len() && b[last_pair_from(b, x, y, p)] == x),
    decreases p + 1,
{
    if p < 0 {
    } else if p + 1 < b.len() && b[p] == x && b[p + 1] == y {
    } else {
        lemma_last_pair_bounds(b, x, y, p - 1);
    }
}

proof fn lemma_last_byte_bounds(b: Seq<u8>, x: u8, p: int)
    ensures
        last_byte_from(b, x, p) == -1 || (0 <= last_byte_from(b, x, p) <= p && last_byte_from(
            b,
            x,
            p,
        ) < b.len() && b[last_byte_from(b, x, p)] == x),
    decreases p + 1,
{
    if p < 0 {
    } else if p < b.len() && b[p] == x {
    } else {
        lemma_last_byte_bounds(b, x, p - 1);
    }
}

proof fn lemma_last_sentence_cut_bounds(b: Seq<u8>, min_pos: int, q: int)
    requires
        q <= b.len(),
    ensures
        ({
            let s = last_sentence_cut_upto(b, min_pos, q);
            s == -1 || (2 <= s <= b.len() && (s == b.len() || is_ws_at(b, s)))
        }),
    decreases q,
{
    if q <= 0 {
    } else if accepted_cut_at(b, q - 1, min_pos) {
    } else {
        lemma_last_sentence_cut_upto_monotone(b, min_pos, q);
        lemma_last_sentence_cut_bounds(b, min_pos, q - 1);
    }
}

proof fn lemma_last_sentence_cut_upto_monotone(b: Seq<u8>, min_pos: int, q: int)
    requires
        q >= 1,
        !accepted_cut_at(b, q - 1, min_pos),
    ensures
        last_sentence_cut_upto(b, min_pos, q) == last_sentence_cut_upto(b, min_pos, q - 1),
{
}

/// The boundary the tiered scan picks always falls on a char boundary of
/// the window.
proof fn lemma_find_boundary_in_window(w: Seq<u8>)
    requires
        valid_utf8(w),
        w.len() >= 1,
    ensures
        1 <= find_boundary_spec(w) <= w.len(),
        is_char_boundary(w, find_boundary_spec(w)),
{
    let min_pos = w.len() as int / 5;
    let r = find_boundary_spec(w);
    lemma_last_sentence_cut_bounds(w, min_pos, w.len() as int);
    lemma_last_pair_bounds(w, 0x0a, 0x0a, w.len() - 2);
    lemma_last_pair_bounds(w, 0x0a, 0x23, w.len() - 2);
    lemma_last_byte_bounds(w, 0x0a, w.len() - 1);
    lemma_last_ws_bounds(w, w.len() - 1);
    if r < w.len() {
        assert(!is_continuation_byte(w[r])) by {
            let sentence = last_sentence_cut_upto(w, min_pos, w.len() as int);
            if sentence >= 0 && r == sentence {
                lemma_ws_not_continuation(w, r);
            } else if is_ws_at(w, r) {
                lemma_ws_not_continuation(w, r);
            }
        }
        is_char_boundary_iff_not_is_continuation_byte(w, r);
    } else {
        is_char_boundary_start_end_of_seq(w);
    }
}

/// Exec mirror of the tiered scan.
fn find_last_boundary(w: &[u8]) -> (r: usize)
    requires
        w@.len() >= 1,
    ensures
        r == find_boundary_spec(w@),
        1 <= r <= w@.len(),
{
    let len = w.len();
    let ghost min_pos_g = w@.len() as int / 5;
    let min_pos = len / 5;

    // Tier A: last accepted sentence-boundary candidate.
    let mut sentence: Option<usize> = None;
    let mut q: usize = 0;
    while q < len - 1
        invariant
            q <= len == w@.len(),
            len >= 1,
            min_pos == min_pos_g,
            opt_pos(sentence) == last_sentence_cut_upto(w@, min_pos_g, q as int),
        decreases len - q,
    {
        let c = w[q];
        let p = w[q + 1];
        if ((0x61 <= c && c <= 0x7a) || c == 0x2c || c == 0x29) && (p == 0x2e || p == 0x21 || p
            == 0x3f) && (q + 2 == len || ws_at(w, q + 2)) {
            if q + 2 >= min_pos && !abbrev_check(w, q) {
                sentence = Some(q + 2);
            }
        }
        q = q + 1;
    }
    proof {
        assert(q + 1 >= len);
        if (q as int) < w@.len() {
            assert(!accepted_cut_at(w@, q as int, min_pos_g));
            assert(last_sentence_cut_upto(w@, min_pos_g, w@.len() as int) == last_sentence_cut_upto(
                w@,
                min_pos_g,
                q as int,
            ));
        }
    }
    proof {
        lemma_last_sentence_cut_bounds(w@, min_pos_g, w@.len() as int);
        lemma_last_pair_bounds(w@, 0x0a, 0x0a, w@.len() - 2);
        lemma_last_pair_bounds(w@, 0x0a, 0x23, w@.len() - 2);
        lemma_last_byte_bounds(w@, 0x0a, w@.len() - 1);
        lemma_last_ws_bounds(w@, w@.len() - 1);
    }
    if let Some(s) = sentence {
        return s;
    }

    // Tier B: last paragraph break.
    if let Some(para) = rfind_pair(w, 0x0a, 0x0a) {
        if para >= min_pos && para >= 1 {
            return para;
        }
    }
    // Tier C: last markdown heading.
    if let Some(heading) = rfind_pair(w, 0x0a, 0x23) {
        if heading >= min_pos && heading >= 1 {
            return heading;
        }
    }
    // Tier D: last single newline.
    if let Some(newline) = rfind_byte(w, 0x0a) {
        if newline >= min_pos && newline >= 1 {
            return newline;
        }
    }
    // Tier E: last whitespace character.
    if let Some(ws) = rfind_ws(w) {
        if ws > 0 {
            return ws;
        }
    }
    // Tier F: the full window.
    len
}

/// Reads an optional position as an integer, with -1 for "none".
pub open spec fn opt_pos(r: Option<usize>) -> int {
    match r {
        None => -1,
        Some(v) => v as int,
    }
}

/// Exec counterpart of [`abbrev_at`].
fn abbrev_check(b: &[u8], q: usize) -> (r: bool)
    requires
        q < b@.len(),
    ensures
        r == abbrev_at(b@, q as int),
{
    // The scan below matches `is_abbreviation` on a `&str`; it re-runs the
    // same byte logic directly on the window slice.
    let mut word_start: usize = q;
    while word_start > 0 && !ws_at(b, word_start - 1)
        invariant
            word_start <= q < b@.len(),
            last_ws_from(b@, word_start - 1) == last_ws_from(b@, q - 1),
        decreases word_start,
    {
        word_start = word_start - 1;
    }
    let mut w: Vec<u8> = Vec::new();
    let mut k = word_start;
    while k <= q
        invariant
            word_start <= k <= q + 1 <= b@.len(),
            w@ == b@.subrange(word_start as int, k as int).map_values(|x: u8| lower_byte(x)),
        decreases q + 1 - k,
    {
        let x = b[k];
        if 0x41 <= x && x <= 0x5a {
            w.push(x + 0x20);
        } else {
            w.push(x);
        }
        proof {
            assert(w@ =~= b@.subrange(word_start as int, k + 1 as int).map_values(
                |x: u8| lower_byte(x),
            ));
        }
        k = k + 1;
    }
    proof {
        assert(w@ =~= word_ending_at(b@, q as int));
    }
    if w.len() == 1 && 0x61 <= w[0] && w[0] <= 0x7a {
        return true;
    }
    listed_abbrev(&w) || listed_tld(&w)
}

/// Rightmost occurrence of the byte pair `x`, `y`, as an `isize` so that -1
/// can mean "none".
fn rfind_pair(w: &[u8], x: u8, y: u8) -> (r: Option<usize>)
    requires
        w@.len() >= 1,
    ensures
        opt_pos(r) == last_pair_from(w@, x, y, w@.len() - 2),
{
    let len = w.len();
    let mut p: usize = len - 1;
    while p > 0
        invariant
            p <= len - 1,
            len == w@.len(),
            last_pair_from(w@, x, y, len - 2) == last_pair_from(w@, x, y, p - 1),
        decreases p,
    {
        if w[p - 1] == x && w[p] == y {
            return Some(p - 1);
        }
        p = p - 1;
    }
    None
}

/// Rightmost occurrence of the byte `x`, or -1.
fn rfind_byte(w: &[u8], x: u8) -> (r: Option<usize>)
    requires
        w@.len() >= 1,
    ensures
        opt_pos(r) == last_byte_from(w@, x, w@.len() - 1),
{
    let len = w.len();
    let mut p: usize = len;
    while p > 0
        invariant
            p <= len == w@.len(),
            last_byte_from(w@, x, len - 1) == last_byte_from(w@, x, p - 1),
        decreases p,
    {
        if w[p - 1] == x {
            return Some(p - 1);
        }
        p = p - 1;
    }
    None
}

/// Rightmost position where a whitespace character starts, or -1.
fn rfind_ws(w: &[u8]) -> (r: Option<usize>)
    requires
        w@.len() >= 1,
    ensures
        opt_pos(r) == last_ws_from(w@, w@.len() - 1),
{
    let len = w.len();
    let mut p: usize = len;
    while p > 0
        invariant
            p <= len == w@.len(),
            last_ws_from(w@, len - 1) == last_ws_from(w@, p - 1),
        decreases p,
    {
        if ws_at(w, p - 1) {
            return Some(p - 1);
        }
        p = p - 1;
    }
    None
}

fn listed_tld(w: &Vec<u8>) -> (r: bool)
    ensures
        r == is_tld_word(w@),
{
    let n = w.len();
    if n == 2 {
        let (a, b) = (w[0], w[1]);
        (a == 0x69 && b == 0x6f) || (a == 0x63 && b == 0x6f)
    } else if n == 3 {
        let (a, b, c) = (w[0], w[1], w[2]);
        (a == 0x63 && b == 0x6f && c == 0x6d) || (a == 0x6f && b == 0x72 && c == 0x67) || (a
            == 0x6e && b == 0x65 && c == 0x74) || (a == 0x65 && b == 0x64 && c == 0x75) || (a
            == 0x67 && b == 0x6f && c == 0x76)
    } else {
        false
    }
}


/// The UTF-8 bytes of the `"..."` suffix appended after a cut.
pub open spec fn dots() -> Seq<u8> {
    seq![0x2eu8, 0x2eu8, 0x2eu8]
}

/// Encoding a concatenation of character sequences concatenates their
/// encodings.
pub proof fn lemma_encode_concat(a: Seq<char>, b: Seq<char>)
    ensures
        encode_utf8(a + b) == encode_utf8(a) + encode_utf8(b),
    decreases a.len(),
{
    if a.len() == 0 {
        assert(a + b =~= b);
        assert(encode_utf8(a) + encode_utf8(b) =~= encode_utf8(b));
    } else {
        assert((a + b).drop_first() =~= a.drop_first() + b);
        lemma_encode_concat(a.drop_first(), b);
        assert(encode_utf8(a + b) =~= encode_utf8(a) + encode_utf8(b));
    }
}

/// Truncates `text` to at most `max_bytes` bytes at the best natural
/// boundary and appends `"..."`; texts that already fit are returned
/// unchanged.
///
/// The contract pins the cut down byte for byte: when the text fits, the
/// result is the text; otherwise the result is the prefix of the text
/// chosen by the tiered scan over the largest char-safe window, followed by
/// the three-dot marker.  The result never exceeds `max_bytes + 3` bytes.
pub fn truncate_at_sentence_boundary(text: &str, max_bytes: usize) -> (r: String)
    ensures
        ({
            let b = text.spec_bytes();
            let safe_end = spec_floor_char_boundary(b, max_bytes as int);
            let cut = find_boundary_spec(b.subrange(0, safe_end));
            &&& b.len() <= max_bytes ==> r@ == text@
            &&& b.len() > max_bytes && safe_end == 0 ==> r@ == Seq::<char>::empty()
            &&& b.len() > max_bytes && safe_end > 0 ==> encode_utf8(r@) == b.subrange(0, cut)
                + dots()
            &&& encode_utf8(r@).len() <= max_bytes + 3
        }),
{
    let b = text.as_bytes();
    let ghost bs = text.spec_bytes();
    if b.len() <= max_bytes {
        let r = text.to_owned();
        proof {
            assert(encode_utf8(r@) == bs);
        }
        return r;
    }
    let safe_end = floor_char_boundary(text, max_bytes);
    if safe_end == 0 {
        let r = String::new();
        proof {
            assert(encode_utf8(r@) =~= Seq::<u8>::empty());
        }
        return r;
    }
    let (window, _) = text.split_at(safe_end);
    let ghost wb = bs.subrange(0, safe_end as int);
    proof {
        assert(window.spec_bytes() =~= wb);
        assert(valid_utf8(wb));
        lemma_find_boundary_in_window(wb);
    }
    let pos = find_last_boundary(window.as_bytes());
    let (prefix, _) = window.split_at(pos);
    let mut r = prefix.to_owned();
    proof {
        assert(prefix.spec_bytes() =~= wb.subrange(0, pos as int));
        assert(wb.subrange(0, pos as int) =~= bs.subrange(0, pos as int));
        reveal_strlit("...");
        assert("..."@.len() == 3);
        assert("..."@[0] == '.' && "..."@[1] == '.' && "..."@[2] == '.');
        assert(is_ascii_chars("..."@));
        is_ascii_chars_encode_utf8("..."@);
        assert(encode_utf8("..."@) =~= dots());
    }
    r.append("...");
    proof {
        lemma_encode_concat(prefix@, "..."@);
        assert(encode_utf8(r@) =~= bs.subrange(0, pos as int) + dots());
    }
    r
}

/// A chunk layout over the text bytes: chunk `i` is `b[starts[i] .. ends[i]]`,
/// the first chunk starts at 0, the last ends at the end of the text, every
/// chunk is nonempty, and each chunk starts no later than its predecessor
/// ends (the shared part is the overlap) while still making progress.
pub open spec fn chunk_bounds_ok(b: Seq<u8>, starts: Seq<int>, ends: Seq<int>) -> bool {
    &&& starts.len() == ends.len()
    &&& starts.len() >= 1
    &&& starts[0] == 0
    &&& ends[ends.len() - 1] == b.len()
    &&& (forall|i: int|
        0 <= i < starts.len() ==> 0 <= #[trigger] starts[i] < #[trigger] ends[i] <= b.len())
    &&& (forall|i: int|
        0 <= i < starts.len() - 1 ==> #[trigger] starts[i + 1] <= ends[i] && starts[i] < starts[
            i + 1
        ])
    &&& (forall|i: int| 0 <= i < ends.len() - 1 ==> #[trigger] ends[i] <= ends[i + 1])
}

/// The chunks are exactly the slices that the layout describes.
pub open spec fn chunks_match(
    b: Seq<u8>,
    chunks: Seq<Seq<char>>,
    starts: Seq<int>,
    ends: Seq<int>,
) -> bool {
    &&& chunks.len() == starts.len()
    &&& (forall|i: int|
        0 <= i < chunks.len() ==> encode_utf8(#[trigger] chunks[i]) == b.subrange(
            starts[i],
            ends[i],
        ))
}

/// Some chunk layout explains the chunks: slices that cover the whole
/// text with never-receding ends, each at most `max_len` bytes, each
/// overlapping its successor by at most `ov` bytes plus a char-boundary
/// allowance.
pub open spec fn is_chunking(b: Seq<u8>, chunks: Seq<Seq<char>>, max_len: int, ov: int) -> bool {
    exists|starts: Seq<int>, ends: Seq<int>|
        {
            &&& #[trigger] chunk_bounds_ok(b, starts, ends)
            &&& chunks_match(b, chunks, starts, ends)
            &&& (forall|i: int|
                0 <= i < starts.len() ==> ends[i] - #[trigger] starts[i] <= max_len)
            &&& (forall|i: int|
                0 <= i < starts.len() - 1 ==> ends[i] - #[trigger] starts[i + 1] <= ov + 3)
        }
}

/// Every byte position of the text lies inside some chunk of a layout.
pub proof fn lemma_chunks_cover_all(b: Seq<u8>, starts: Seq<int>, ends: Seq<int>, p: int)
    requires
        chunk_bounds_ok(b, starts, ends),
        0 <= p < b.len(),
    ensures
        exists|i: int| 0 <= i < starts.len() && #[trigger] starts[i] <= p < ends[i],
{
    lemma_chunks_cover_all_helper(b, starts, ends, p, starts.len() as int - 1);
}

proof fn lemma_chunks_cover_all_helper(
    b: Seq<u8>,
    starts: Seq<int>,
    ends: Seq<int>,
    p: int,
    k: int,
)
    requires
        chunk_bounds_ok(b, starts, ends),
        0 <= k < starts.len(),
        0 <= p < ends[k],
    ensures
        exists|i: int| 0 <= i <= k && #[trigger] starts[i] <= p < ends[i],
    decreases k,
{
    if starts[k] <= p {
        assert(starts[k] <= p < ends[k]);
    } else {
        assert(k > 0);
        assert(starts[(k - 1) + 1] <= ends[k - 1]);
        assert(p < starts[k] <= ends[k - 1]);
        lemma_chunks_cover_all_helper(b, starts, ends, p, k - 1);
    }
}

/// Rebuilds a prefix of the text from the first `k` chunks by dropping each
/// chunk's overlap with its predecessor.
pub open spec fn reassembled(
    chunks: Seq<Seq<char>>,
    starts: Seq<int>,
    ends: Seq<int>,
    k: int,
) -> Seq<u8>
    decreases k,
{
    if k <= 0 {
        seq![]
    } else if k == 1 {
        encode_utf8(chunks[0])
    } else {
        reassembled(chunks, starts, ends, k - 1) + encode_utf8(chunks[k - 1]).skip(
            ends[k - 2] - starts[k - 1],
        )
    }
}

/// Concatenating the chunks without their overlap regions yields the
/// text: full coverage with no gaps and no repetition.
pub proof fn lemma_chunks_reassemble(
    b: Seq<u8>,
    chunks: Seq<Seq<char>>,
    starts: Seq<int>,
    ends: Seq<int>,
)
    requires
        chunk_bounds_ok(b, starts, ends),
        chunks_match(b, chunks, starts, ends),
    ensures
        reassembled(chunks, starts, ends, chunks.len() as int) == b,
{
    lemma_chunks_reassemble_helper(b, chunks, starts, ends, chunks.len() as int);
    assert(b.subrange(0, ends[ends.len() - 1]) =~= b);
}

proof fn lemma_chunks_reassemble_helper(
    b: Seq<u8>,
    chunks: Seq<Seq<char>>,
    starts: Seq<int>,
    ends: Seq<int>,
    k: int,
)
    requires
        chunk_bounds_ok(b, starts, ends),
        chunks_match(b, chunks, starts, ends),
        1 <= k <= chunks.len(),
    ensures
        reassembled(chunks, starts, ends, k) == b.subrange(0, ends[k - 1]),
    decreases k,
{
    if k == 1 {
        assert(encode_utf8(chunks[0]) == b.subrange(starts[0], ends[0]));
        assert(b.subrange(starts[0], ends[0]) =~= b.subrange(0, ends[0]));
    } else {
        lemma_chunks_reassemble_helper(b, chunks, starts, ends, k - 1);
        let piece = encode_utf8(chunks[k - 1]);
        assert(piece == b.subrange(starts[k - 1], ends[k - 1]));
        assert(piece.skip(ends[k - 2] - starts[k - 1]) =~= b.subrange(ends[k - 2], ends[k - 1]));
        assert(b.subrange(0, ends[k - 2]) + b.subrange(ends[k - 2], ends[k - 1]) =~= b.subrange(
            0,
            ends[k - 1],
        ));
    }
}

/// Splits `text` into overlapping chunks at natural boundaries.
///
/// Texts no longer than `chunk_size` come back as one chunk.  Otherwise the
/// chunks are slices of the text that cover it completely with
/// never-receding ends; each one except the last is cut at the boundary the
/// tiered scan picks inside its window, and the next chunk starts at most
/// `overlap` bytes (plus a char-boundary allowance of three) before that
/// cut, always at a char boundary and always making forward progress.
/// Every chunk stays within `chunk_size` bytes; a `chunk_size` below four
/// is raised to one whole character, since a UTF-8 character can take four
/// bytes.
#[verifier::rlimit(100)]
pub fn chunk_text(text: &str, chunk_size: usize, overlap: usize) -> (r: Vec<String>)
    ensures
        ({
            let b = text.spec_bytes();
            &&& r@.len() >= 1
            &&& b.len() <= chunk_size ==> r.deep_view() =~= seq![text@]
            &&& b.len() > chunk_size ==> is_chunking(
                b,
                r.deep_view(),
                if chunk_size >= 4 {
                    chunk_size as int
                } else {
                    4
                },
                overlap as int,
            )
        }),
{
    let b = text.as_bytes();
    let ghost bs = text.spec_bytes();
    let n = b.len();
    if n <= chunk_size {
        let mut r: Vec<String> = Vec::new();
        r.push(text.to_owned());
        proof {
            assert(r.deep_view() =~= seq![text@]);
        }
        return r;
    }
    let ghost max_len: int = if chunk_size >= 4 {
        chunk_size as int
    } else {
        4
    };
    let mut chunks: Vec<String> = Vec::new();
    let ghost mut gstarts: Seq<int> = Seq::empty();
    let ghost mut gends: Seq<int> = Seq::empty();
    let mut start: usize = 0;
    let mut last_end: usize = 0;
    while n - start > chunk_size
        invariant
            b@ == bs,
            bs == text.spec_bytes(),
            n == bs.len(),
            n > chunk_size,
            valid_utf8(bs),
            start <= n,
            is_char_boundary(bs, start as int),
            chunks@.len() == gstarts.len(),
            gstarts.len() == gends.len(),
            gstarts.len() == 0 ==> start == 0 && last_end == 0,
            gstarts.len() >= 1 ==> gstarts[0] == 0 && start <= gends[gends.len() - 1]
                && gstarts[gstarts.len() - 1] < start && last_end as int == gends[gends.len()
                - 1] && gends[gends.len() - 1] - start <= overlap + 3,
            forall|i: int|
                0 <= i < gstarts.len() ==> 0 <= #[trigger] gstarts[i] < #[trigger] gends[i] <= n,
            forall|i: int|
                0 <= i < gstarts.len() - 1 ==> #[trigger] gstarts[i + 1] <= gends[i] && gstarts[i]
                    < gstarts[i + 1],
            forall|i: int| 0 <= i < gends.len() - 1 ==> #[trigger] gends[i] <= gends[i + 1],
            forall|i: int|
                0 <= i < gstarts.len() - 1 ==> gends[i] - #[trigger] gstarts[i + 1] <= overlap
                    + 3,
            forall|i: int|
                0 <= i < chunks@.len() ==> encode_utf8(#[trigger] chunks@[i]@) == bs.subrange(
                    gstarts[i],
                    gends[i],
                ),
            forall|i: int| 0 <= i < gstarts.len() ==> gends[i] - #[trigger] gstarts[i] <= max_len,
            max_len == if chunk_size >= 4 {
                chunk_size as int
            } else {
                4
            },
        decreases n - start,
    {
        let window_end = floor_char_boundary(text, start + chunk_size);
        proof {
            lemma_prev_boundary_at_least(bs, start as int, (start + chunk_size) as int);
        }
        let actual_end: usize;
        if window_end <= start {
            // Fewer than one whole character fits in the window; advance
            // past the single character at `start`.
            let ghost suffix = bs.subrange(start as int, n as int);
            proof {
                valid_utf8_split(bs, start as int);
                assert(valid_utf8(suffix));
                assert(suffix.len() > 0);
            }
            let ghost l = length_of_first_scalar(suffix);
            proof {
                lemma_first_scalar_shape(suffix);
            }
            let mut j = start + 1;
            while j < n && 0x80 <= b[j] && b[j] <= 0xbf
                invariant
                    b@ == bs,
                    n == bs.len(),
                    valid_utf8(bs),
                    start < j <= n,
                    suffix == bs.subrange(start as int, n as int),
                    valid_utf8(suffix),
                    l == length_of_first_scalar(suffix),
                    1 <= l <= 4,
                    l <= suffix.len(),
                    j - start <= l,
                    forall|k: int| 0 < k < l && k < suffix.len() ==> is_continuation_byte(
                        #[trigger] suffix[k],
                    ),
                    is_char_boundary(suffix, l),
                decreases n - j,
            {
                proof {
                    if j - start == l {
                        if (l as int) < suffix.len() {
                            is_char_boundary_iff_not_is_continuation_byte(suffix, l);
                            assert(!is_continuation_byte(suffix[l]));
                            assert(suffix[l] == bs[j as int]);
                            assert(false);
                        } else {
                            assert(j == n);
                            assert(false);
                        }
                    }
                }
                j = j + 1;
            }
            proof {
                assert(j - start <= 4);
                if j < n {
                    assert(!is_continuation_byte(bs[j as int]));
                    is_char_boundary_iff_not_is_continuation_byte(bs, j as int);
                } else {
                    is_char_boundary_start_end_of_seq(bs);
                }
            }
            actual_end = j;
        } else {
            let (pre, _) = text.split_at(window_end);
            let ghost wb = bs.subrange(start as int, window_end as int);
            proof {
                lemma_boundary_in_prefix(bs, window_end as int, start as int);
                assert(pre.spec_bytes() =~= bs.subrange(0, window_end as int));
            }
            let (_, window) = pre.split_at(start);
            proof {
                valid_utf8_split(bs.subrange(0, window_end as int), start as int);
                assert(window.spec_bytes() =~= wb);
                assert(valid_utf8(wb));
                lemma_find_boundary_in_window(wb);
            }
            let pos = find_last_boundary(window.as_bytes());
            actual_end = start + pos;
            proof {
                if (pos as int) < wb.len() {
                    is_char_boundary_iff_not_is_continuation_byte(wb, pos as int);
                    assert(!is_continuation_byte(wb[pos as int]));
                    assert(wb[pos as int] == bs[actual_end as int]);
                    is_char_boundary_iff_not_is_continuation_byte(bs, actual_end as int);
                } else {
                    assert(actual_end == window_end);
                }
            }
        }
        // A cut that does not reach past the previous chunk's end would
        // only repeat covered bytes; it is not emitted.
        if chunks.len() == 0 || actual_end > last_end {
            let (pre2, _) = text.split_at(actual_end);
            proof {
                lemma_boundary_in_prefix(bs, actual_end as int, start as int);
                assert(pre2.spec_bytes() =~= bs.subrange(0, actual_end as int));
            }
            let (_, piece) = pre2.split_at(start);
            proof {
                valid_utf8_split(bs.subrange(0, actual_end as int), start as int);
            }
            chunks.push(piece.to_owned());
            proof {
                assert(encode_utf8(piece@) =~= bs.subrange(start as int, actual_end as int));
                gstarts = gstarts.push(start as int);
                gends = gends.push(actual_end as int);
            }
            last_end = actual_end;
        }
        let next: usize = if actual_end > overlap {
            proof {
                lemma_floor_within_three(bs, actual_end - overlap);
            }
            let os = floor_char_boundary(text, actual_end - overlap);
            if os > start {
                os
            } else {
                actual_end
            }
        } else {
            actual_end
        };
        start = next;
    }
    if start < n {
        let (_, tail) = text.split_at(start);
        chunks.push(tail.to_owned());
        proof {
            assert(encode_utf8(tail@) =~= bs.subrange(start as int, n as int));
            gstarts = gstarts.push(start as int);
            gends = gends.push(n as int);
        }
    }
    proof {
        assert(gends[gends.len() - 1] == n);
        assert(chunk_bounds_ok(bs, gstarts, gends));
        assert(chunks_match(bs, chunks.deep_view(), gstarts, gends)) by {
            assert(forall|i: int|
                0 <= i < chunks@.len() ==> chunks.deep_view()[i] == #[trigger] chunks@[i]@);
        }
        assert(is_chunking(bs, chunks.deep_view(), max_len, overlap as int));
    }
    chunks
}


/// A char boundary of the text is also a char boundary of any prefix that
/// itself ends at a char boundary.
pub proof fn lemma_boundary_in_prefix(b: Seq<u8>, e: int, s: int)
    requires
        valid_utf8(b),
        0 <= s <= e <= b.len(),
        is_char_boundary(b, s),
        is_char_boundary(b, e),
    ensures
        valid_utf8(b.subrange(0, e)),
        is_char_boundary(b.subrange(0, e), s),
{
    valid_utf8_split(b, e);
    let pre = b.subrange(0, e);
    if s == 0 {
    } else if s == e {
        is_char_boundary_start_end_of_seq(pre);
    } else {
        is_char_boundary_iff_not_is_continuation_byte(b, s);
        assert(pre[s] == b[s]);
        is_char_boundary_iff_not_is_continuation_byte(pre, s);
    }
}

/// The char-safe floor backs off at most three bytes: every window of
/// four positions in valid UTF-8 holds a boundary.
pub proof fn lemma_floor_within_three(b: Seq<u8>, idx: int)
    requires
        valid_utf8(b),
        0 <= idx,
    ensures
        spec_floor_char_boundary(b, idx) >= (if idx < b.len() {
            idx
        } else {
            b.len() as int
        }) - 3,
{
    let m = if idx < b.len() {
        idx
    } else {
        b.len() as int
    };
    let p = spec_floor_char_boundary(b, idx);
    lemma_prev_boundary_props(b, m);
    if p < m - 3 {
        valid_utf8_split(b, p);
        let suffix = b.subrange(p, b.len() as int);
        assert(suffix.len() > 0);
        lemma_first_scalar_shape(suffix);
        let l = length_of_first_scalar(suffix);
        assert(p + l <= m);
        assert(is_char_boundary(b, p + l)) by {
            if p + l < b.len() {
                is_char_boundary_iff_not_is_continuation_byte(suffix, l);
                assert(suffix[l] == b[p + l]);
                is_char_boundary_iff_not_is_continuation_byte(b, p + l);
            } else {
                is_char_boundary_start_end_of_seq(b);
            }
        }
        lemma_prev_boundary_at_least(b, p + l, m);
        assert(false);
    }
}

/// From a char boundary `s`, the scan for the previous boundary never walks
/// below `s`.
proof fn lemma_prev_boundary_at_least(b: Seq<u8>, s: int, j: int)
    requires
        valid_utf8(b),
        0 <= s <= b.len(),
        is_char_boundary(b, s),
    ensures
        s <= j ==> prev_boundary(b, if j < b.len() {
            j
        } else {
            b.len() as int
        }) >= s,
    decreases (if j < b.len() { j } else { b.len() as int }),
{
    let jj = if j < b.len() {
        j
    } else {
        b.len() as int
    };
    if s <= j {
        if jj <= s {
            if jj < s {
            } else {
                if jj > 0 && jj < b.len() {
                    is_char_boundary_iff_not_is_continuation_byte(b, jj);
                }
            }
        } else {
            if jj == b.len() || !is_continuation_byte(b[jj]) {
            } else {
                lemma_prev_boundary_at_least(b, s, jj - 1);
            }
        }
    }
}

/// The first character of a valid UTF-8 sequence consists of a leading byte
/// followed by continuation bytes, and ends at a char boundary.
proof fn lemma_first_scalar_shape(s: Seq<u8>)
    requires
        valid_utf8(s),
        s.len() > 0,
    ensures
        1 <= length_of_first_scalar(s) <= 4,
        length_of_first_scalar(s) <= s.len(),
        forall|k: int|
            0 < k < length_of_first_scalar(s) && k < s.len() ==> is_continuation_byte(
                #[trigger] s[k],
            ),
        is_char_boundary(s, length_of_first_scalar(s)),
{
    assert(valid_first_scalar(s));
    let l = length_of_first_scalar(s);
    assert(is_char_boundary(s, l)) by {
        assert(is_char_boundary(pop_first_scalar(s), 0));
    }
}

} // verus!

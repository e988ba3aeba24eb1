//! Filenames for stored article texts: lowercase slugs of the title, or of
//! the last path segment of the source URL.

use vstd::prelude::*;
use vstd::string::StrSliceExecFns;
use vstd::string::StringExecFns;
use vstd::string::StringSliceAdditionalSpecFns;
use vstd::utf8::*;

use crate::text_bounds::floor_char_boundary;
use crate::text_bounds::last_byte_from;
use crate::text_bounds::lemma_boundary_in_prefix;
use crate::text_bounds::lemma_encode_concat;
use crate::text_bounds::spec_floor_char_boundary;

verus! {

broadcast use vstd::string::group_string_axioms, vstd::utf8::group_utf8_lib;

/// Whether a character counts as alphanumeric for slugs; the Unicode
/// alphabetic and numeric classes.
pub uninterp spec fn alphanumeric(c: char) -> bool;

/// Relies on char::is_alphanumeric: true exactly for the Unicode alphabetic
/// and numeric character classes; within ASCII these are the letters and
/// the digits.
#[verifier::external_body]
pub(crate) fn alphanumeric_char(c: char) -> (r: bool)
    ensures
        r == alphanumeric(c),
        (c as u32) < 128 ==> r == (('a' <= c && c <= 'z') || ('A' <= c && c <= 'Z') || ('0' <= c
            && c <= '9')),
{
    c.is_alphanumeric()
}

/// ASCII lowercasing of a single character.
pub open spec fn lower_char(c: char) -> char {
    if 'A' <= c <= 'Z' {
        ((c as u32) + 32) as char
    } else {
        c
    }
}

/// Relies on char::to_ascii_lowercase: ASCII uppercase letters map to their
/// lowercase counterparts 32 code points up; all other characters are
/// returned unchanged.
#[verifier::external_body]
fn lower_ascii_char(c: char) -> (r: char)
    ensures
        r == lower_char(c),
{
    c.to_ascii_lowercase()
}

/// Relies on String's FromIterator over characters: the resulting string
/// holds exactly the characters of the vector.
#[verifier::external_body]
pub(crate) fn chars_to_string(v: &Vec<char>) -> (r: String)
    ensures
        r@ == v@,
{
    v.iter().collect()
}

/// One step of the slug scan: an alphanumeric character is lowercased and
/// appended (after a single dash when a separator run is pending); any
/// other character only marks a pending separator.
pub open spec fn slug_step(state: (Seq<char>, bool), c: char) -> (Seq<char>, bool) {
    if alphanumeric(c) {
        let out = if state.1 && state.0.len() > 0 {
            state.0.push('-')
        } else {
            state.0
        };
        (out.push(lower_char(c)), false)
    } else {
        (state.0, true)
    }
}

/// The slug scan folded over the first `i` characters.
pub open spec fn slug_fold(s: Seq<char>, i: int) -> (Seq<char>, bool)
    decreases i,
{
    if i <= 0 {
        (Seq::<char>::empty(), false)
    } else {
        slug_step(slug_fold(s, i - 1), s[i - 1])
    }
}

/// The slug of a character sequence: maximal alphanumeric runs, lowercased,
/// joined by single dashes.
pub open spec fn slug_of(s: Seq<char>) -> Seq<char> {
    slug_fold(s, s.len() as int).0
}

/// Lowercases alphanumeric runs of `text` and joins them with single
/// dashes, dropping every other character.
pub fn slugify(text: &str) -> (r: String)
    ensures
        r@ == slug_of(text@),
{
    let n = text.unicode_len();
    let mut out: Vec<char> = Vec::new();
    let mut pending = false;
    let mut i: usize = 0;
    while i < n
        invariant
            i <= n == text@.len(),
            (out@, pending) == slug_fold(text@, i as int),
        decreases n - i,
    {
        let c = text.get_char(i);
        if alphanumeric_char(c) {
            if pending && out.len() > 0 {
                out.push('-');
            }
            out.push(lower_ascii_char(c));
            pending = false;
        } else {
            pending = true;
        }
        i = i + 1;
    }
    chars_to_string(&out)
}

/// The index of the last byte of `b` at or before `p` that differs from
/// `x`, or -1 when there is none.
pub open spec fn last_not_byte_from(b: Seq<u8>, x: u8, p: int) -> int
    decreases p + 1,
{
    if p < 0 {
        -1
    } else if p < b.len() && b[p] != x {
        p
    } else {
        last_not_byte_from(b, x, p - 1)
    }
}

/// The filename the library derives for a scraped article, as bytes: the
/// slug of the title — or, for an empty title, of the last non-empty path
/// segment of the URL, with the literal `article` as the fallback — cut
/// char-safely to at most 80 bytes, with `.txt` appended.
pub open spec fn derive_filename_bytes(title: Seq<char>, urlb: Seq<u8>) -> Seq<u8> {
    let raw = if title.len() > 0 {
        encode_utf8(slug_of(title))
    } else {
        let e = last_not_byte_from(urlb, 0x2f, urlb.len() - 1);
        if e == -1 {
            encode_utf8("article"@)
        } else {
            let st = last_byte_from(urlb, 0x2f, e) + 1;
            encode_utf8(slug_of(decode_utf8(urlb.subrange(st, e + 1))))
        }
    };
    let cut = if raw.len() > 80 {
        spec_floor_char_boundary(raw, 80)
    } else {
        raw.len() as int
    };
    raw.subrange(0, cut) + encode_utf8(".txt"@)
}

/// Derives a filename for a scraped article from its title and source URL.
pub fn derive_filename(title: &str, url: &str) -> (r: String)
    ensures
        encode_utf8(r@) == derive_filename_bytes(title@, url.spec_bytes()),
{
    let ghost urlb = url.spec_bytes();
    let slug: String = if !title.is_empty() {
        slugify(title)
    } else {
        let b = url.as_bytes();
        let mut e: usize = b.len();
        // Find the position after the last byte that is not a slash.
        while e > 0 && b[e - 1] == 0x2f
            invariant
                e <= b@.len(),
                b@ == urlb,
                last_not_byte_from(b@, 0x2f, e - 1) == last_not_byte_from(b@, 0x2f, b@.len() - 1),
                forall|k: int| e <= k < b@.len() ==> b@[k] == 0x2f,
            decreases e,
        {
            e = e - 1;
        }
        if e == 0 {
            "article".to_owned()
        } else {
            proof {
                assert(last_not_byte_from(b@, 0x2f, b@.len() - 1) == e - 1);
            }
            // Find the slash just before the segment.
            let mut st: usize = e - 1;
            while st > 0 && b[st - 1] != 0x2f
                invariant
                    st <= e - 1 < b@.len(),
                    b@ == urlb,
                    last_byte_from(b@, 0x2f, st - 1) == last_byte_from(b@, 0x2f, e - 2),
                decreases st,
            {
                st = st - 1;
            }
            proof {
                assert(last_byte_from(b@, 0x2f, e - 1) == last_byte_from(b@, 0x2f, e - 2));
                assert(last_byte_from(b@, 0x2f, st - 1) == if st == 0 {
                    -1int
                } else {
                    st - 1
                });
                // Both cut points fall on char boundaries: the segment
                // follows an ASCII slash, and what follows the segment (if
                // anything) is a slash again.
                assert(valid_utf8(b@));
                if (e as int) < b@.len() {
                    assert(b@[e as int] == 0x2f);
                    is_char_boundary_iff_not_is_continuation_byte(b@, e as int);
                } else {
                    is_char_boundary_start_end_of_seq(b@);
                }
                if st > 0 {
                    assert(b@[st - 1] == 0x2f);
                    lemma_after_ascii_is_boundary(b@, st - 1);
                }
            }
            let (pre, _) = url.split_at(e);
            proof {
                lemma_boundary_in_prefix(urlb, e as int, st as int);
                assert(pre.spec_bytes() =~= urlb.subrange(0, e as int));
            }
            let (_, seg) = pre.split_at(st);
            proof {
                assert(seg.spec_bytes() =~= urlb.subrange(st as int, e as int));
                assert(decode_utf8(seg.spec_bytes()) == seg@);
            }
            slugify(seg)
        }
    };
    let ghost raw: Seq<u8> = encode_utf8(slug@);
    let sbb = slug.as_str().as_bytes();
    let cut_slug: String = if sbb.len() > 80 {
        let cut = floor_char_boundary(slug.as_str(), 80);
        let (kept, _) = slug.as_str().split_at(cut);
        kept.to_owned()
    } else {
        slug
    };
    proof {
        assert(encode_utf8(cut_slug@) == if raw.len() > 80 {
            raw.subrange(0, spec_floor_char_boundary(raw, 80))
        } else {
            raw
        });
        assert(raw.len() <= 80 ==> raw.subrange(0, raw.len() as int) =~= raw);
    }
    let mut r = cut_slug;
    proof {
        reveal_strlit(".txt");
        assert(is_ascii_chars(".txt"@)) by {
            assert(".txt"@.len() == 4);
            assert(".txt"@[0] == '.' && ".txt"@[1] == 't' && ".txt"@[2] == 'x' && ".txt"@[3]
                == 't');
        }
        is_ascii_chars_encode_utf8(".txt"@);
    }
    let ghost before = r@;
    r.append(".txt");
    proof {
        lemma_encode_concat(before, ".txt"@);
        assert(encode_utf8(r@) =~= derive_filename_bytes(title@, urlb));
    }
    r
}

/// In valid UTF-8, the position after an ASCII byte is a char boundary.
pub proof fn lemma_after_ascii_is_boundary(b: Seq<u8>, p: int)
    requires
        valid_utf8(b),
        0 <= p < b.len(),
        b[p] < 0x80,
    ensures
        is_char_boundary(b, p + 1),
{
    is_char_boundary_iff_not_is_continuation_byte(b, p);
    valid_utf8_split(b, p);
    let suffix = b.subrange(p, b.len() as int);
    assert(suffix[0] == b[p]);
    assert(length_of_first_scalar(suffix) == 1);
    assert(is_char_boundary(suffix, 1)) by {
        assert(is_char_boundary(pop_first_scalar(suffix), 0));
    }
    if p + 1 < b.len() {
        is_char_boundary_iff_not_is_continuation_byte(suffix, 1);
        assert(suffix[1] == b[p + 1]);
        is_char_boundary_iff_not_is_continuation_byte(b, p + 1);
    } else {
        is_char_boundary_start_end_of_seq(b);
    }
}

} // verus!

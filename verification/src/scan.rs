//! The pattern-based scanner: longest-match recognition of the raw lexical
//! units, one entry per unit, with byte spans into the source.

use vstd::prelude::*;

use crate::token::{SpecEntry, SpecTok, Token};

verus! {

/// Horizontal whitespace: space or tab. Skipped between tokens.
pub open spec fn is_hspace(b: u8) -> bool {
    b == 32 || b == 9
}

/// The newline byte.
pub open spec fn is_newline_byte(b: u8) -> bool {
    b == 10
}

/// A byte a newline run may contain after its leading newline: further
/// newlines (blank lines) and horizontal whitespace.
pub open spec fn is_blank(b: u8) -> bool {
    is_hspace(b) || is_newline_byte(b)
}

/// An ASCII letter, the alphabet of identifiers.
pub open spec fn is_letter(b: u8) -> bool {
    (65 <= b && b <= 90) || (97 <= b && b <= 122)
}

/// An ASCII digit, the alphabet of integer literals.
pub open spec fn is_digit(b: u8) -> bool {
    48 <= b && b <= 57
}

/// Number of consecutive blank bytes of `s` starting at `i`.
pub open spec fn blank_run(s: Seq<u8>, i: int) -> nat
    decreases s.len() - i,
    when 0 <= i <= s.len()
{
    if i < s.len() && is_blank(s[i]) {
        (1 + blank_run(s, i + 1)) as nat
    } else {
        0
    }
}

/// Number of consecutive letter bytes of `s` starting at `i`.
pub open spec fn letter_run(s: Seq<u8>, i: int) -> nat
    decreases s.len() - i,
    when 0 <= i <= s.len()
{
    if i < s.len() && is_letter(s[i]) {
        (1 + letter_run(s, i + 1)) as nat
    } else {
        0
    }
}

/// Number of consecutive digit bytes of `s` starting at `i`.
pub open spec fn digit_run(s: Seq<u8>, i: int) -> nat
    decreases s.len() - i,
    when 0 <= i <= s.len()
{
    if i < s.len() && is_digit(s[i]) {
        (1 + digit_run(s, i + 1)) as nat
    } else {
        0
    }
}

pub proof fn lemma_blank_run_bound(s: Seq<u8>, i: int)
    requires
        0 <= i <= s.len(),
    ensures
        i + blank_run(s, i) <= s.len(),
    decreases s.len() - i,
{
    if i < s.len() && is_blank(s[i]) {
        lemma_blank_run_bound(s, i + 1);
    }
}

pub proof fn lemma_letter_run_bound(s: Seq<u8>, i: int)
    requires
        0 <= i <= s.len(),
    ensures
        i + letter_run(s, i) <= s.len(),
    decreases s.len() - i,
{
    if i < s.len() && is_letter(s[i]) {
        lemma_letter_run_bound(s, i + 1);
    }
}

pub proof fn lemma_digit_run_bound(s: Seq<u8>, i: int)
    requires
        0 <= i <= s.len(),
    ensures
        i + digit_run(s, i) <= s.len(),
    decreases s.len() - i,
{
    if i < s.len() && is_digit(s[i]) {
        lemma_digit_run_bound(s, i + 1);
    }
}

/// The word `def`, as bytes.
pub open spec fn is_def_word(w: Seq<u8>) -> bool {
    w.len() == 3 && w[0] == 100 && w[1] == 101 && w[2] == 102
}

/// The word `return`, as bytes.
pub open spec fn is_return_word(w: Seq<u8>) -> bool {
    w.len() == 6 && w[0] == 114 && w[1] == 101 && w[2] == 116 && w[3] == 117 && w[4] == 114
        && w[5] == 110
}

/// The characters a run of ASCII bytes spells.
pub open spec fn chars_of(w: Seq<u8>) -> Seq<char> {
    w.map_values(|b: u8| b as char)
}

/// The numeric value of a run of decimal digit bytes, most significant first.
pub open spec fn digits_val(w: Seq<u8>) -> int
    decreases w.len(),
{
    if w.len() == 0 {
        0
    } else {
        10 * digits_val(w.drop_last()) + (w.last() - 48)
    }
}

/// Width in bytes of the minimal unrecognized unit at `i`: one whole UTF-8
/// character, read off the leading byte and clamped to the end of the input.
pub open spec fn unmatched_len(s: Seq<u8>, i: int) -> int
    recommends
        0 <= i < s.len(),
{
    let w: int = if s[i] < 0xc0 {
        1
    } else if s[i] < 0xe0 {
        2
    } else if s[i] < 0xf0 {
        3
    } else {
        4
    };
    if i + w <= s.len() {
        w
    } else {
        s.len() - i
    }
}

/// The raw lexical unit recognized at position `i` (neither horizontal
/// whitespace nor the end of input): the token or error marker, and the byte
/// position just past the unit. Longest match, keywords over identifiers.
pub open spec fn step_at(s: Seq<u8>, i: int) -> (Result<SpecTok, ()>, int)
    recommends
        0 <= i < s.len(),
        !is_hspace(s[i]),
{
    let b = s[i];
    if is_newline_byte(b) {
        (Ok(SpecTok::Newline), i + 1 + blank_run(s, i + 1))
    } else if is_letter(b) {
        let j = i + letter_run(s, i);
        let w = s.subrange(i, j);
        if is_def_word(w) {
            (Ok(SpecTok::Definition), j)
        } else if is_return_word(w) {
            (Ok(SpecTok::Return), j)
        } else {
            (Ok(SpecTok::Identifier(chars_of(w))), j)
        }
    } else if is_digit(b) {
        let j = i + digit_run(s, i);
        let v = digits_val(s.subrange(i, j));
        if v <= i64::MAX {
            (Ok(SpecTok::Integer(v)), j)
        } else {
            (Err(()), j)
        }
    } else if b == 40 {
        (Ok(SpecTok::LeftParentheses), i + 1)
    } else if b == 41 {
        (Ok(SpecTok::RightParentheses), i + 1)
    } else if b == 58 {
        (Ok(SpecTok::Colon), i + 1)
    } else if b == 45 && i + 1 < s.len() && s[i + 1] == 62 {
        (Ok(SpecTok::Arrow), i + 2)
    } else {
        (Err(()), i + unmatched_len(s, i))
    }
}

pub proof fn lemma_step_at_bounds(s: Seq<u8>, i: int)
    requires
        0 <= i < s.len(),
    ensures
        i < step_at(s, i).1 <= s.len(),
{
    lemma_blank_run_bound(s, i + 1);
    lemma_letter_run_bound(s, i);
    lemma_digit_run_bound(s, i);
    if is_letter(s[i]) {
        assert(letter_run(s, i) >= 1);
    }
    if is_digit(s[i]) {
        assert(digit_run(s, i) >= 1);
    }
}

/// The raw token stream of `s` from position `i` on: horizontal whitespace is
/// skipped, every other position starts a lexical unit, whose entry carries
/// its half-open byte span.
pub open spec fn scan_from(s: Seq<u8>, i: int) -> Seq<SpecEntry>
    decreases s.len() - i,
    when 0 <= i <= s.len()
    via scan_from_dec
{
    if i >= s.len() {
        Seq::empty()
    } else if is_hspace(s[i]) {
        scan_from(s, i + 1)
    } else {
        seq![(step_at(s, i).0, (i, step_at(s, i).1))] + scan_from(s, step_at(s, i).1)
    }
}

#[via_fn]
proof fn scan_from_dec(s: Seq<u8>, i: int) {
    if 0 <= i < s.len() && !is_hspace(s[i]) {
        lemma_step_at_bounds(s, i);
    }
}

/// The raw stream is ordered: every entry's span lies within `[i, s.len()]`,
/// and no entry starts before the previous one ended.
pub proof fn lemma_scan_spans(s: Seq<u8>, i: int)
    requires
        0 <= i <= s.len(),
    ensures
        crate::token::spans_ok(scan_from(s, i), i, s.len() as int),
    decreases s.len() - i,
{
    if i >= s.len() {
    } else if is_hspace(s[i]) {
        lemma_scan_spans(s, i + 1);
        let es = scan_from(s, i);
        assert forall|k: int| 0 <= k < es.len() implies i <= (#[trigger] es[k]).1.0 <= es[k].1.1
            <= s.len() by {
            assert(es[k] == scan_from(s, i + 1)[k]);
        }
        assert forall|k: int| 0 <= k < es.len() - 1 implies (#[trigger] es[k]).1.1 <= es[k
            + 1].1.0 by {
            assert(es[k] == scan_from(s, i + 1)[k]);
            assert(es[k + 1] == scan_from(s, i + 1)[k + 1]);
        }
    } else {
        lemma_step_at_bounds(s, i);
        let j = step_at(s, i).1;
        lemma_scan_spans(s, j);
        let es = scan_from(s, i);
        let rest = scan_from(s, j);
        assert forall|k: int| 0 <= k < es.len() implies i <= (#[trigger] es[k]).1.0 <= es[k].1.1
            <= s.len() by {
            if k > 0 {
                assert(es[k] == rest[k - 1]);
            }
        }
        assert forall|k: int| 0 <= k < es.len() - 1 implies (#[trigger] es[k]).1.1 <= es[k
            + 1].1.0 by {
            if k == 0 {
                assert(es[1] == rest[0]);
            } else {
                assert(es[k] == rest[k - 1]);
                assert(es[k + 1] == rest[k]);
            }
        }
    }
}

/// The scanner never invents block structure: no raw entry is an
/// `Indentation` or a `Deindentation`.
pub proof fn lemma_scan_no_synth(s: Seq<u8>, i: int)
    requires
        0 <= i <= s.len(),
    ensures
        forall|k: int|
            0 <= k < scan_from(s, i).len() ==> crate::token::entry_delta(
                #[trigger] scan_from(s, i)[k],
            ) == 0,
    decreases s.len() - i,
{
    if i >= s.len() {
    } else if is_hspace(s[i]) {
        lemma_scan_no_synth(s, i + 1);
        assert forall|k: int| 0 <= k < scan_from(s, i).len() implies crate::token::entry_delta(
            #[trigger] scan_from(s, i)[k],
        ) == 0 by {
            assert(scan_from(s, i)[k] == scan_from(s, i + 1)[k]);
            assert(crate::token::entry_delta(scan_from(s, i + 1)[k]) == 0);
        }
    } else {
        lemma_step_at_bounds(s, i);
        let j = step_at(s, i).1;
        lemma_scan_no_synth(s, j);
        assert(step_at(s, i).0 != Ok::<SpecTok, ()>(SpecTok::Indentation));
        assert(step_at(s, i).0 != Ok::<SpecTok, ()>(SpecTok::Deindentation));
        assert forall|k: int| 0 <= k < scan_from(s, i).len() implies crate::token::entry_delta(
            #[trigger] scan_from(s, i)[k],
        ) == 0 by {
            if k == 0 {
                assert(scan_from(s, i)[0].0 == step_at(s, i).0);
            } else {
                assert(scan_from(s, i)[k] == scan_from(s, j)[k - 1]);
                assert(crate::token::entry_delta(scan_from(s, j)[k - 1]) == 0);
            }
        }
    }
}

/// Relies on `String::push`: appends exactly the given character.
#[verifier::external_body]
fn push_char(s: &mut String, c: char)
    ensures
        final(s)@ == old(s)@.push(c),
{
    s.push(c);
}

/// The text of `bytes[i..j]`, as an owned string, one character per byte.
fn ascii_word(bytes: &[u8], i: usize, j: usize) -> (r: String)
    requires
        i <= j <= bytes@.len(),
    ensures
        r@ == chars_of(bytes@.subrange(i as int, j as int)),
{
    let ghost s = bytes@;
    let mut r = String::new();
    let mut k = i;
    while k < j
        invariant
            i <= k <= j <= s.len(),
            s == bytes@,
            r@ == chars_of(s.subrange(i as int, k as int)),
        decreases j - k,
    {
        let b = bytes[k];
        push_char(&mut r, b as char);
        proof {
            assert(s.subrange(i as int, k + 1) =~= s.subrange(i as int, k as int).push(s[k as int]));
            assert(chars_of(s.subrange(i as int, k + 1)) =~= chars_of(
                s.subrange(i as int, k as int),
            ).push(s[k as int] as char));
        }
        k = k + 1;
    }
    proof {
        assert(s.subrange(i as int, k as int) =~= s.subrange(i as int, j as int));
    }
    r
}

/// Scan one raw lexical unit at position `i`, which holds neither horizontal
/// whitespace nor the end of input: the recognized token or error marker, and
/// the position just past it — exactly what `step_at` states.
pub(crate) fn scan_step(bytes: &[u8], i: usize) -> (r: (Result<Token, ()>, usize))
    requires
        i < bytes@.len(),
        !is_hspace(bytes@[i as int]),
    ensures
        crate::token::tok_res_view(r.0) == step_at(bytes@, i as int).0,
        r.1 == step_at(bytes@, i as int).1,
        i < r.1 <= bytes@.len(),
{
    let ghost s = bytes@;
    proof {
        lemma_step_at_bounds(s, i as int);
    }
    let b = bytes[i];
    if b == 10 {
        let mut j = i + 1;
        while j < bytes.len() && (bytes[j] == 32 || bytes[j] == 9 || bytes[j] == 10)
            invariant
                i + 1 <= j <= s.len(),
                s == bytes@,
                blank_run(s, i + 1) == j - i - 1 + blank_run(s, j as int),
            decreases s.len() - j,
        {
            j = j + 1;
        }
        (Ok(Token::Newline), j)
    } else if (65 <= b && b <= 90) || (97 <= b && b <= 122) {
        let mut j = i;
        while j < bytes.len() && ((65 <= bytes[j] && bytes[j] <= 90) || (97 <= bytes[j]
            && bytes[j] <= 122))
            invariant
                i <= j <= s.len(),
                s == bytes@,
                letter_run(s, i as int) == j - i + letter_run(s, j as int),
            decreases s.len() - j,
        {
            j = j + 1;
        }
        let ghost w = s.subrange(i as int, j as int);
        if j - i == 3 && bytes[i] == 100 && bytes[i + 1] == 101 && bytes[i + 2] == 102 {
            assert(is_def_word(w));
            (Ok(Token::Definition), j)
        } else if j - i == 6 && bytes[i] == 114 && bytes[i + 1] == 101 && bytes[i + 2] == 116
            && bytes[i + 3] == 117 && bytes[i + 4] == 114 && bytes[i + 5] == 110 {
            assert(is_return_word(w));
            (Ok(Token::Return), j)
        } else {
            assert(!is_def_word(w) && !is_return_word(w));
            (Ok(Token::Identifier(ascii_word(bytes, i, j))), j)
        }
    } else if 48 <= b && b <= 57 {
        let mut j = i;
        let mut acc: i64 = 0;
        let mut over = false;
        while j < bytes.len() && 48 <= bytes[j] && bytes[j] <= 57
            invariant
                i <= j <= s.len(),
                s == bytes@,
                digit_run(s, i as int) == j - i + digit_run(s, j as int),
                !over ==> 0 <= acc && acc == digits_val(s.subrange(i as int, j as int)),
                over ==> digits_val(s.subrange(i as int, j as int)) > i64::MAX,
            decreases s.len() - j,
        {
            let d = bytes[j] - 48;
            proof {
                assert(s.subrange(i as int, j + 1).drop_last() =~= s.subrange(i as int, j as int));
                assert(s.subrange(i as int, j + 1).last() == s[j as int]);
                assert(digits_val(s.subrange(i as int, j + 1)) == 10 * digits_val(
                    s.subrange(i as int, j as int),
                ) + (s[j as int] - 48));
            }
            if over {
                // The value only grows as digits are appended.
            } else if acc > (i64::MAX - d as i64) / 10 {
                proof {
                    let q = (i64::MAX - d) as int / 10;
                    assert(10 * q <= i64::MAX - d < 10 * (q + 1)) by (nonlinear_arith)
                        requires
                            q == (i64::MAX - d) as int / 10,
                            0 <= d < 10,
                    ;
                }
                over = true;
            } else {
                proof {
                    let q = (i64::MAX - d) as int / 10;
                    assert(10 * q <= i64::MAX - d < 10 * (q + 1)) by (nonlinear_arith)
                        requires
                            q == (i64::MAX - d) as int / 10,
                            0 <= d < 10,
                    ;
                }
                acc = acc * 10 + d as i64;
            }
            j = j + 1;
        }
        if over {
            (Err(()), j)
        } else {
            (Ok(Token::Integer(acc)), j)
        }
    } else if b == 40 {
        (Ok(Token::LeftParentheses), i + 1)
    } else if b == 41 {
        (Ok(Token::RightParentheses), i + 1)
    } else if b == 58 {
        (Ok(Token::Colon), i + 1)
    } else if b == 45 && i + 1 < bytes.len() && bytes[i + 1] == 62 {
        (Ok(Token::Arrow), i + 2)
    } else {
        let w: usize = if b < 0xc0 {
            1
        } else if b < 0xe0 {
            2
        } else if b < 0xf0 {
            3
        } else {
            4
        };
        let j = if w <= bytes.len() - i {
            i + w
        } else {
            bytes.len()
        };
        (Err(()), j)
    }
}

} // verus!

//! The token alphabet of the language, and its mathematical model.

use vstd::prelude::*;

verus! {

/// A lexical unit of the language.
///
/// `Identifier` carries the matched text as an owned copy; `Integer` carries
/// the parsed 64-bit value. `Indentation` and `Deindentation` never come from
/// the scanner itself: the indentation post-processor synthesizes them from
/// the whitespace that trails a `Newline` run.
#[derive(Debug, PartialEq, Eq)]
pub enum Token {
    Definition,
    Identifier(String),
    LeftParentheses,
    RightParentheses,
    Arrow,
    Colon,
    Newline,
    Indentation,
    Deindentation,
    Return,
    Integer(i64),
}

/// Specification-level image of a `Token`: identifier text as a sequence of
/// characters, integer payload as an unbounded integer.
pub enum SpecTok {
    Definition,
    Identifier(Seq<char>),
    LeftParentheses,
    RightParentheses,
    Arrow,
    Colon,
    Newline,
    Indentation,
    Deindentation,
    Return,
    Integer(int),
}

impl View for Token {
    type V = SpecTok;

    open spec fn view(&self) -> SpecTok {
        match self {
            Token::Definition => SpecTok::Definition,
            Token::Identifier(s) => SpecTok::Identifier(s@),
            Token::LeftParentheses => SpecTok::LeftParentheses,
            Token::RightParentheses => SpecTok::RightParentheses,
            Token::Arrow => SpecTok::Arrow,
            Token::Colon => SpecTok::Colon,
            Token::Newline => SpecTok::Newline,
            Token::Indentation => SpecTok::Indentation,
            Token::Deindentation => SpecTok::Deindentation,
            Token::Return => SpecTok::Return,
            Token::Integer(n) => SpecTok::Integer(*n as int),
        }
    }
}

/// One entry of the model stream: a token or an error marker, and the
/// half-open byte span `[start, end)` it covers in the source.
pub type SpecEntry = (Result<SpecTok, ()>, (int, int));

/// The token-or-error half of an entry, by its view.
pub open spec fn tok_res_view(r: Result<Token, ()>) -> Result<SpecTok, ()> {
    match r {
        Ok(t) => Ok(t@),
        Err(u) => Err(u),
    }
}

/// Model of one produced entry: the token (or error) by its view, the span by
/// its endpoints.
pub open spec fn entry_view(e: (Result<Token, ()>, core::ops::Range<usize>)) -> SpecEntry {
    (tok_res_view(e.0), (e.1.start as int, e.1.end as int))
}

/// Model of a produced stream, entry by entry.
pub open spec fn entries_view(es: Seq<(Result<Token, ()>, core::ops::Range<usize>)>) -> Seq<
    SpecEntry,
> {
    es.map_values(|e: (Result<Token, ()>, core::ops::Range<usize>)| entry_view(e))
}

/// What one entry contributes to the nesting depth: `Indentation` opens a
/// block, `Deindentation` closes one, everything else leaves it unchanged.
pub open spec fn entry_delta(e: SpecEntry) -> int {
    if e.0 == Ok::<SpecTok, ()>(SpecTok::Indentation) {
        1
    } else if e.0 == Ok::<SpecTok, ()>(SpecTok::Deindentation) {
        -1
    } else {
        0
    }
}

/// Count of `Indentation` entries minus count of `Deindentation` entries.
pub open spec fn net_nesting(es: Seq<SpecEntry>) -> int
    decreases es.len(),
{
    if es.len() == 0 {
        0
    } else {
        net_nesting(es.drop_last()) + entry_delta(es.last())
    }
}

/// Number of error entries in a stream.
pub open spec fn err_count(es: Seq<SpecEntry>) -> int
    decreases es.len(),
{
    if es.len() == 0 {
        0
    } else {
        err_count(es.drop_last()) + if es.last().0 is Err {
            1int
        } else {
            0int
        }
    }
}

/// The spans of `es` lie within `[lo, hi]`, in order: each entry's span is a
/// well-formed range, and no entry starts before the previous one ended.
pub open spec fn spans_ok(es: Seq<SpecEntry>, lo: int, hi: int) -> bool {
    &&& forall|k: int|
        0 <= k < es.len() ==> lo <= (#[trigger] es[k]).1.0 <= es[k].1.1 <= hi
    &&& forall|k: int| 0 <= k < es.len() - 1 ==> (#[trigger] es[k]).1.1 <= es[k + 1].1.0
}

/// In an ordered stream, a later entry starts no earlier than any earlier
/// entry ended.
pub proof fn lemma_span_pair(es: Seq<SpecEntry>, lo: int, hi: int, a: int, b: int)
    requires
        spans_ok(es, lo, hi),
        0 <= a < b < es.len(),
    ensures
        es[a].1.1 <= es[b].1.0,
    decreases b - a,
{
    if b > a + 1 {
        lemma_span_pair(es, lo, hi, a, b - 1);
        assert(es[b - 1].1.1 <= es[b].1.0);
    }
}

/// Dropping the first entry of an ordered stream leaves a stream ordered
/// from that entry's end on.
pub proof fn lemma_spans_ok_drop_first(es: Seq<SpecEntry>, lo: int, hi: int)
    requires
        spans_ok(es, lo, hi),
        es.len() >= 1,
    ensures
        spans_ok(es.drop_first(), es[0].1.1, hi),
{
    let t = es.drop_first();
    assert forall|k: int| 0 <= k < t.len() implies es[0].1.1 <= (#[trigger] t[k]).1.0 <= t[k].1.1
        <= hi by {
        assert(t[k] == es[k + 1]);
        lemma_span_pair(es, lo, hi, 0, k + 1);
    }
    assert forall|k: int| 0 <= k < t.len() - 1 implies (#[trigger] t[k]).1.1 <= t[k + 1].1.0 by {
        assert(t[k] == es[k + 1]);
        assert(t[k + 1] == es[k + 2]);
    }
}

} // verus!

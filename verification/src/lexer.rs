//! The lexer: scanner and indentation post-processor in one pass.

use vstd::prelude::*;
use vstd::string::StringSliceAdditionalSpecFns;

use crate::indent;
use crate::scan;
use crate::token::{entries_view, net_nesting, SpecEntry, SpecTok, Token};

verus! {

/// The full token stream of source bytes `s`: the raw scan, post-processed
/// against the initial indent stack `[0]`.
pub open spec fn lex_spec(s: Seq<u8>) -> Seq<SpecEntry> {
    indent::post(s, scan::scan_from(s, 0), seq![0int])
}

/// Empty input yields the empty stream: no tokens and no synthetic entries.
pub proof fn lemma_empty_input()
    ensures
        lex_spec(Seq::<u8>::empty()) == Seq::<SpecEntry>::empty(),
{
    let s = Seq::<u8>::empty();
    assert(scan::scan_from(s, 0) =~= Seq::<SpecEntry>::empty());
    assert(lex_spec(s) == indent::deinds_at(0, 0));
    assert(indent::deinds_at(0, 0) =~= Seq::<SpecEntry>::empty());
}

/// The nesting-balance law: no prefix of the stream closes a block that is
/// not open — every prefix holds at least as many `Indentation` entries as
/// `Deindentation` entries — and over the whole stream the two counts are
/// equal.
pub proof fn lemma_nesting_balanced(s: Seq<u8>)
    ensures
        net_nesting(lex_spec(s)) == 0,
        forall|k: int|
            0 <= k <= lex_spec(s).len() ==> net_nesting(#[trigger] lex_spec(s).take(k)) >= 0,
{
    scan::lemma_scan_no_synth(s, 0);
    assert(indent::stack_wf(seq![0int]));
    indent::lemma_post_balance(s, scan::scan_from(s, 0), seq![0int]);
}

/// The span-ordering law: every span in the stream is a well-formed range
/// within the source, spans never overlap, and start offsets never decrease.
/// A synthetic entry's zero-width span sits at the end of its triggering
/// newline's span, or at the end of input.
pub proof fn lemma_spans_ordered(s: Seq<u8>)
    ensures
        forall|k: int|
            0 <= k < lex_spec(s).len() ==> 0 <= (#[trigger] lex_spec(s)[k]).1.0 <= lex_spec(
                s,
            )[k].1.1 <= s.len(),
        forall|a: int, b: int|
            0 <= a < b < lex_spec(s).len() ==> (#[trigger] lex_spec(s)[a]).1.1 <= (
            #[trigger] lex_spec(s)[b]).1.0,
        forall|a: int, b: int|
            0 <= a <= b < lex_spec(s).len() ==> (#[trigger] lex_spec(s)[a]).1.0 <= (
            #[trigger] lex_spec(s)[b]).1.0,
{
    scan::lemma_scan_spans(s, 0);
    assert(indent::stack_wf(seq![0int]));
    indent::lemma_post_spans(s, scan::scan_from(s, 0), seq![0int], 0);
    assert forall|a: int, b: int| 0 <= a < b < lex_spec(s).len() implies (
    #[trigger] lex_spec(s)[a]).1.1 <= (#[trigger] lex_spec(s)[b]).1.0 by {
        crate::token::lemma_span_pair(lex_spec(s), 0, s.len() as int, a, b);
    }
}

/// Lex `source`: one entry per lexical unit in source order — a token or an
/// error marker, with the half-open byte span it covers — each `Newline`
/// followed by the synthetic `Indentation`/`Deindentation` entries its
/// trailing whitespace width calls for, and every still-open block closed at
/// the end of input. The stream is exactly `lex_spec` of the source bytes.
pub fn lex(source: &str) -> (r: Vec<(Result<Token, ()>, core::ops::Range<usize>)>)
    ensures
        entries_view(r@) == lex_spec(source.spec_bytes()),
{
    let bytes = source.as_bytes();
    let ghost s = bytes@;
    let mut out: Vec<(Result<Token, ()>, core::ops::Range<usize>)> = Vec::new();
    let mut stack: Vec<usize> = Vec::new();
    stack.push(0);
    let mut i: usize = 0;
    proof {
        assert(indent::stv(stack@) =~= seq![0int]);
        assert(entries_view(out@) =~= Seq::<SpecEntry>::empty());
        assert(entries_view(out@) + indent::post(s, scan::scan_from(s, 0), indent::stv(stack@))
            =~= lex_spec(s));
    }
    while i < bytes.len()
        invariant
            i <= s.len(),
            s == bytes@,
            indent::stack_wf(indent::stv(stack@)),
            entries_view(out@) + indent::post(s, scan::scan_from(s, i as int), indent::stv(stack@))
                == lex_spec(s),
        decreases s.len() - i,
    {
        let ghost st0 = indent::stv(stack@);
        let b = bytes[i];
        if b == 32 || b == 9 {
            i = i + 1;
        } else {
            let (tok, j) = scan::scan_step(bytes, i);
            let ghost entry = (scan::step_at(s, i as int).0, (i as int, j as int));
            let ghost rest = scan::scan_from(s, j as int);
            proof {
                assert(scan::scan_from(s, i as int) == seq![entry] + rest);
                assert((seq![entry] + rest).drop_first() =~= rest);
            }
            let is_newline = matches!(tok, Ok(Token::Newline));
            proof {
                assert(is_newline <==> entry.0 == Ok::<SpecTok, ()>(SpecTok::Newline));
            }
            let ghost out_prev = out@;
            out.push((tok, i..j));
            proof {
                assert(entries_view(out@) =~= entries_view(out_prev) + seq![entry]);
            }
            if is_newline {
                let w = indent::measure_width(bytes, j);
                let ghost m = indent::newline_out(st0, w as int, j as int);
                let ghost st1 = indent::next_stack(st0, w as int);
                proof {
                    indent::lemma_next_stack_wf(st0, w as int);
                    assert(indent::post(s, seq![entry] + rest, st0) == seq![entry] + m
                        + indent::post(s, rest, st1));
                }
                let ghost base = entries_view(out@);
                let top = stack[stack.len() - 1];
                if w > top {
                    stack.push(w);
                    out.push((Ok(Token::Indentation), j..j));
                    proof {
                        assert(indent::stv(stack@) =~= st0.push(w as int));
                        assert(m =~= seq![(Ok::<SpecTok, ()>(SpecTok::Indentation), (
                            j as int,
                            j as int,
                        ))]);
                        assert(entries_view(out@) =~= base + m);
                        assert(st1 == indent::stv(stack@));
                    }
                } else if w < top {
                    proof {
                        indent::lemma_popped(st0, w as int);
                        assert(st0.take(stack@.len() as int) =~= st0);
                        assert(entries_view(out@) =~= base + indent::deinds_at(0, j as int));
                    }
                    while stack[stack.len() - 1] > w
                        invariant
                            s == bytes@,
                            indent::stack_wf(st0),
                            stack@.len() >= 1,
                            indent::stv(stack@) == st0.take(stack@.len() as int),
                            indent::popped(indent::stv(stack@), w as int) == indent::popped(
                                st0,
                                w as int,
                            ),
                            indent::popped(st0, w as int).len() <= stack@.len() <= st0.len(),
                            entries_view(out@) == base + indent::deinds_at(
                                (st0.len() - stack@.len()) as nat,
                                j as int,
                            ),
                        decreases stack@.len(),
                    {
                        let ghost stv_before = indent::stv(stack@);
                        let ghost out_before = out@;
                        proof {
                            assert(stv_before.len() == stack@.len());
                            assert(stv_before.last() == stack@[stack@.len() - 1] as int);
                            assert(stv_before[0] == st0[0]);
                            assert(stv_before.len() >= 2);
                            indent::lemma_popped_len(stv_before.drop_last(), w as int);
                        }
                        stack.pop();
                        out.push((Ok(Token::Deindentation), j..j));
                        proof {
                            assert(entries_view(out@) =~= entries_view(out_before).push(
                                indent::deind_entry(j as int),
                            ));
                            assert(indent::stv(stack@) =~= stv_before.drop_last());
                            assert(indent::stv(stack@) =~= st0.take(stack@.len() as int));
                            assert(indent::popped(stv_before, w as int) == indent::popped(
                                indent::stv(stack@),
                                w as int,
                            ));
                            assert(indent::deinds_at((st0.len() - stack@.len()) as nat, j as int)
                                =~= indent::deinds_at(
                                (st0.len() - stack@.len() - 1) as nat,
                                j as int,
                            ).push(indent::deind_entry(j as int)));
                            assert(entries_view(out@) =~= base + indent::deinds_at(
                                (st0.len() - stack@.len()) as nat,
                                j as int,
                            ));
                        }
                    }
                    proof {
                        assert(indent::popped(indent::stv(stack@), w as int) == indent::stv(
                            stack@,
                        ));
                        assert(indent::stv(stack@) == indent::popped(st0, w as int));
                        assert(st1 == indent::stv(stack@));
                    }
                    if stack[stack.len() - 1] != w {
                        let ghost out_mid = out@;
                        out.push((Err(()), j..j));
                        proof {
                            assert(entries_view(out@) =~= entries_view(out_mid).push((
                                Err::<SpecTok, ()>(()),
                                (j as int, j as int),
                            )));
                            assert(m =~= indent::deinds_at(
                                (st0.len() - stack@.len()) as nat,
                                j as int,
                            ).push((Err::<SpecTok, ()>(()), (j as int, j as int))));
                            assert(entries_view(out@) =~= base + m);
                        }
                    } else {
                        proof {
                            assert(m =~= indent::deinds_at(
                                (st0.len() - stack@.len()) as nat,
                                j as int,
                            ));
                            assert(entries_view(out@) =~= base + m);
                        }
                    }
                } else {
                    proof {
                        assert(m =~= Seq::<SpecEntry>::empty());
                        assert(entries_view(out@) =~= base + m);
                        assert(st1 == st0);
                    }
                }
                proof {
                    assert(entries_view(out@) + indent::post(s, rest, st1) =~= lex_spec(s));
                }
                i = j;
            } else {
                proof {
                    assert(indent::post(s, seq![entry] + rest, st0) == seq![entry] + indent::post(
                        s,
                        rest,
                        st0,
                    ));
                    assert(entries_view(out@) + indent::post(s, rest, st0) =~= lex_spec(s));
                }
                i = j;
            }
        }
    }
    proof {
        assert(scan::scan_from(s, i as int) =~= Seq::<SpecEntry>::empty());
    }
    while stack.len() > 1
        invariant
            s == bytes@,
            stack@.len() >= 1,
            entries_view(out@) + indent::deinds_at((stack@.len() - 1) as nat, s.len() as int)
                == lex_spec(s),
        decreases stack@.len(),
    {
        stack.pop();
        out.push((Ok(Token::Deindentation), bytes.len()..bytes.len()));
        proof {
            assert(indent::deinds_at((stack@.len() - 1 + 1) as nat, s.len() as int)
                =~= indent::deinds_at((stack@.len() - 1) as nat, s.len() as int).push(
                indent::deind_entry(s.len() as int),
            ));
            assert(entries_view(out@) + indent::deinds_at((stack@.len() - 1) as nat, s.len() as int)
                =~= lex_spec(s));
        }
    }
    proof {
        assert(indent::deinds_at(0, s.len() as int) =~= Seq::<SpecEntry>::empty());
        assert(entries_view(out@) =~= lex_spec(s));
    }
    out
}

} // verus!

//! The indentation post-processor model: an off-side-rule stack of open
//! indentation widths, and the synthetic entries each newline contributes.

use vstd::prelude::*;

use crate::token::{entry_delta, net_nesting, spans_ok, SpecEntry, SpecTok};

verus! {

/// Well-formed indent stack: never empty, bottom sentinel `0`, strictly
/// increasing from bottom to top.
pub open spec fn stack_wf(st: Seq<int>) -> bool {
    &&& st.len() >= 1
    &&& st[0] == 0
    &&& forall|i: int, j: int| 0 <= i < j < st.len() ==> st[i] < st[j]
}

/// Number of trailing horizontal-whitespace bytes of `s` ending just before
/// position `j`: the observed indentation width of the line that starts at
/// `j`, tabs counted as one character each.
pub open spec fn trailing_hspace(s: Seq<u8>, j: int) -> nat
    decreases j,
    when 0 <= j <= s.len()
{
    if 0 < j && crate::scan::is_hspace(s[j - 1]) {
        (1 + trailing_hspace(s, j - 1)) as nat
    } else {
        0
    }
}

/// The stack after popping every level above width `w`.
pub open spec fn popped(st: Seq<int>, w: int) -> Seq<int>
    decreases st.len(),
{
    if st.len() > 0 && st.last() > w {
        popped(st.drop_last(), w)
    } else {
        st
    }
}

/// A zero-width `Deindentation` entry at position `p`.
pub open spec fn deind_entry(p: int) -> SpecEntry {
    (Ok(SpecTok::Deindentation), (p, p))
}

/// `n` `Deindentation` entries at position `p`.
pub open spec fn deinds_at(n: nat, p: int) -> Seq<SpecEntry> {
    Seq::new(n, |k: int| deind_entry(p))
}

/// The synthetic entries a newline of width `w` at position `p` contributes,
/// against stack `st`: one `Indentation` when the width grows, one
/// `Deindentation` per popped level when it shrinks — followed by one error
/// entry when the width matches no remaining level — and nothing when it is
/// unchanged. All carry the zero-width span `(p, p)`.
pub open spec fn newline_out(st: Seq<int>, w: int, p: int) -> Seq<SpecEntry>
    recommends
        st.len() >= 1,
{
    if w > st.last() {
        seq![(Ok(SpecTok::Indentation), (p, p))]
    } else if w < st.last() {
        let ds = deinds_at((st.len() - popped(st, w).len()) as nat, p);
        if popped(st, w).len() > 0 && popped(st, w).last() == w {
            ds
        } else {
            ds.push((Err(()), (p, p)))
        }
    } else {
        Seq::empty()
    }
}

/// The stack after a newline of width `w`: push a grown width, pop above a
/// shrunk one, keep an unchanged one.
pub open spec fn next_stack(st: Seq<int>, w: int) -> Seq<int>
    recommends
        st.len() >= 1,
{
    if w > st.last() {
        st.push(w)
    } else if w < st.last() {
        popped(st, w)
    } else {
        st
    }
}

/// The widths of an executable indent stack, as unbounded integers.
pub open spec fn stv(st: Seq<usize>) -> Seq<int> {
    st.map_values(|x: usize| x as int)
}

/// `popped` never grows the stack.
pub proof fn lemma_popped_len(st: Seq<int>, w: int)
    ensures
        popped(st, w).len() <= st.len(),
    decreases st.len(),
{
    if st.len() > 0 && st.last() > w {
        lemma_popped_len(st.drop_last(), w);
    }
}

/// `popped` keeps a non-empty prefix of the stack: exactly the levels not
/// above `w`, provided the bottom is not above `w`.
pub proof fn lemma_popped(st: Seq<int>, w: int)
    requires
        st.len() >= 1,
        st[0] <= w,
    ensures
        1 <= popped(st, w).len() <= st.len(),
        popped(st, w) == st.take(popped(st, w).len() as int),
        popped(st, w).last() <= w,
        forall|k: int| popped(st, w).len() <= k < st.len() ==> st[k] > w,
    decreases st.len(),
{
    if st.last() > w {
        assert(st.len() >= 2);
        assert(st.drop_last()[0] == st[0]);
        lemma_popped(st.drop_last(), w);
        assert(popped(st, w) == popped(st.drop_last(), w));
        assert(st.drop_last().take(popped(st, w).len() as int) =~= st.take(
            popped(st, w).len() as int,
        ));
        assert forall|k: int| popped(st, w).len() <= k < st.len() implies st[k] > w by {
            if k < st.len() - 1 {
                assert(st[k] == st.drop_last()[k]);
            }
        }
    } else {
        assert(popped(st, w) == st);
        assert(st.take(st.len() as int) =~= st);
    }
}

/// A newline of a non-negative width keeps the stack well formed.
pub proof fn lemma_next_stack_wf(st: Seq<int>, w: int)
    requires
        stack_wf(st),
        w >= 0,
    ensures
        stack_wf(next_stack(st, w)),
{
    if w > st.last() {
        let nst = st.push(w);
        assert forall|i: int, j: int| 0 <= i < j < nst.len() implies nst[i] < nst[j] by {
            if j == nst.len() - 1 && i < j {
                assert(st[i] <= st[st.len() - 1] < w);
            }
        }
    } else if w < st.last() {
        lemma_popped(st, w);
    }
}

/// On a well-formed stack, popping down to `w` lands exactly on `w` if and
/// only if `w` is one of the open widths.
pub proof fn lemma_popped_finds(st: Seq<int>, w: int)
    requires
        stack_wf(st),
        w >= 0,
    ensures
        (popped(st, w).len() > 0 && popped(st, w).last() == w) <==> st.contains(w),
{
    lemma_popped(st, w);
    let n = popped(st, w).len() as int;
    if popped(st, w).last() == w {
        assert(st[n - 1] == w);
        assert(st.contains(w));
    }
    if st.contains(w) {
        let idx = choose|idx: int| 0 <= idx < st.len() && st[idx] == w;
        assert(st[idx] == w);
        assert(idx < n);
        if idx < n - 1 {
            assert(st[idx] < st[n - 1]);
            assert(st[n - 1] <= w);
            assert(false);
        }
        assert(popped(st, w).last() == st[n - 1]);
    }
}

/// `Deindentation` runs carry no error entry.
proof fn lemma_deinds_no_err(n: nat, p: int)
    ensures
        crate::token::err_count(deinds_at(n, p)) == 0,
    decreases n,
{
    if n > 0 {
        lemma_deinds_no_err((n - 1) as nat, p);
        assert(deinds_at(n, p).drop_last() =~= deinds_at((n - 1) as nat, p));
    } else {
        assert(deinds_at(n, p) =~= Seq::<SpecEntry>::empty());
    }
}

/// The inconsistent-dedent law. A newline whose width is still open on the
/// stack — in particular one that re-opens a block at the width it was
/// previously opened at — never yields an error entry; nor does one that
/// opens a fresh deeper block. A newline whose width is under the top of the
/// stack yet matches no open level yields exactly one error entry.
pub proof fn lemma_newline_error_iff(st: Seq<int>, w: int, p: int)
    requires
        stack_wf(st),
        w >= 0,
    ensures
        crate::token::err_count(newline_out(st, w, p)) == if st.contains(w) {
            0int
        } else if w < st.last() {
            1int
        } else {
            0int
        },
{
    lemma_popped(st, w);
    lemma_popped_finds(st, w);
    if w > st.last() {
        assert forall|k: int| 0 <= k < st.len() implies st[k] != w by {
            if k < st.len() - 1 {
                assert(st[k] < st[st.len() - 1]);
            }
        }
        assert(!st.contains(w));
        let m = newline_out(st, w, p);
        assert(m.len() == 1);
        assert(m.drop_last() =~= Seq::<SpecEntry>::empty());
        assert(crate::token::err_count(m.drop_last()) == 0);
        assert(!(m.last().0 is Err));
        assert(crate::token::err_count(m) == 0);
    } else if w < st.last() {
        let n = (st.len() - popped(st, w).len()) as nat;
        lemma_deinds_no_err(n, p);
        if popped(st, w).len() > 0 && popped(st, w).last() == w {
            assert(st.contains(w));
        } else {
            assert(!st.contains(w));
            assert(newline_out(st, w, p).drop_last() =~= deinds_at(n, p));
            assert(crate::token::err_count(newline_out(st, w, p)) == 1);
        }
    } else {
        assert(st[st.len() - 1] == w);
        assert(st.contains(w));
        assert(newline_out(st, w, p) =~= Seq::<SpecEntry>::empty());
    }
}

/// The observed width of a newline: the count of horizontal-whitespace bytes
/// ending just before position `j`.
pub(crate) fn measure_width(bytes: &[u8], j: usize) -> (w: usize)
    requires
        j <= bytes@.len(),
    ensures
        w as nat == trailing_hspace(bytes@, j as int),
{
    let ghost s = bytes@;
    let mut k = j;
    while k > 0 && (bytes[k - 1] == 32 || bytes[k - 1] == 9)
        invariant
            k <= j <= s.len(),
            s == bytes@,
            trailing_hspace(s, j as int) == (j - k) + trailing_hspace(s, k as int),
        decreases k,
    {
        k = k - 1;
    }
    j - k
}

/// The final token stream for raw stream `raw` against stack `st`: every
/// entry re-emitted unchanged, each `Newline` followed by its synthetic
/// entries, and at the end of input one `Deindentation` per still-open level,
/// at the zero-width end-of-input span.
pub open spec fn post(s: Seq<u8>, raw: Seq<SpecEntry>, st: Seq<int>) -> Seq<SpecEntry>
    recommends
        st.len() >= 1,
    decreases raw.len(),
{
    if raw.len() == 0 {
        deinds_at((st.len() - 1) as nat, s.len() as int)
    } else {
        let e = raw[0];
        if e.0 == Ok::<SpecTok, ()>(SpecTok::Newline) {
            let w = trailing_hspace(s, e.1.1) as int;
            seq![e] + newline_out(st, w, e.1.1) + post(s, raw.drop_first(), next_stack(st, w))
        } else {
            seq![e] + post(s, raw.drop_first(), st)
        }
    }
}

pub proof fn lemma_net_concat(a: Seq<SpecEntry>, b: Seq<SpecEntry>)
    ensures
        net_nesting(a + b) == net_nesting(a) + net_nesting(b),
    decreases b.len(),
{
    if b.len() == 0 {
        assert(a + b =~= a);
    } else {
        lemma_net_concat(a, b.drop_last());
        assert((a + b).drop_last() =~= a + b.drop_last());
        assert((a + b).last() == b.last());
    }
}

proof fn lemma_net_deinds(n: nat, p: int)
    ensures
        net_nesting(deinds_at(n, p)) == -(n as int),
    decreases n,
{
    if n > 0 {
        lemma_net_deinds((n - 1) as nat, p);
        assert(deinds_at(n, p).drop_last() =~= deinds_at((n - 1) as nat, p));
        assert(deinds_at(n, p).last() == deind_entry(p));
    } else {
        assert(deinds_at(n, p) =~= Seq::<SpecEntry>::empty());
    }
}

/// Every prefix of `a + b` keeps its net nesting at or above `bound`,
/// provided every prefix of `a` does, and every prefix of `b` does once the
/// whole of `a` is counted before it.
proof fn lemma_prefix_bound_concat(a: Seq<SpecEntry>, b: Seq<SpecEntry>, bound: int)
    requires
        forall|k: int| 0 <= k <= a.len() ==> net_nesting(#[trigger] a.take(k)) >= bound,
        forall|k: int|
            0 <= k <= b.len() ==> net_nesting(a) + net_nesting(#[trigger] b.take(k)) >= bound,
    ensures
        forall|k: int| 0 <= k <= (a + b).len() ==> net_nesting(#[trigger] (a + b).take(k)) >= bound,
{
    assert forall|k: int| 0 <= k <= (a + b).len() implies net_nesting(
        #[trigger] (a + b).take(k),
    ) >= bound by {
        if k <= a.len() {
            assert((a + b).take(k) =~= a.take(k));
        } else {
            assert((a + b).take(k) =~= a + b.take(k - a.len()));
            lemma_net_concat(a, b.take(k - a.len()));
        }
    }
}

/// What a newline's synthetic entries do to the nesting count: exactly the
/// change in stack height, and no prefix of them dips below that change or
/// below zero.
proof fn lemma_newline_out_net(st: Seq<int>, w: int, p: int)
    requires
        stack_wf(st),
        w >= 0,
    ensures
        net_nesting(newline_out(st, w, p)) == next_stack(st, w).len() - st.len(),
        next_stack(st, w).len() >= 1,
        forall|k: int|
            0 <= k <= newline_out(st, w, p).len() ==> net_nesting(
                #[trigger] newline_out(st, w, p).take(k),
            ) >= (if next_stack(st, w).len() < st.len() {
                next_stack(st, w).len() - st.len()
            } else {
                0
            }),
{
    lemma_popped(st, w);
    let m = newline_out(st, w, p);
    if w > st.last() {
        assert(m.drop_last() =~= Seq::<SpecEntry>::empty());
        assert(net_nesting(Seq::<SpecEntry>::empty()) == 0);
        assert(net_nesting(m) == 1);
        assert forall|k: int| 0 <= k <= m.len() implies net_nesting(#[trigger] m.take(k)) >= 0 by {
            if k == 0 {
                assert(m.take(k) =~= Seq::<SpecEntry>::empty());
            } else {
                assert(m.take(k) =~= m);
            }
        }
    } else if w < st.last() {
        let n = (st.len() - popped(st, w).len()) as nat;
        lemma_net_deinds(n, p);
        let ds = deinds_at(n, p);
        if popped(st, w).len() > 0 && popped(st, w).last() == w {
            assert(m == ds);
        } else {
            assert(m == ds.push((Err::<SpecTok, ()>(()), (p, p))));
            assert(m.drop_last() =~= ds);
            assert(net_nesting(m) == net_nesting(ds));
        }
        assert(net_nesting(m) == -(n as int));
        assert forall|k: int| 0 <= k <= m.len() implies net_nesting(#[trigger] m.take(k)) >= -(
        n as int) by {
            if k <= n {
                assert(m.take(k) =~= deinds_at(k as nat, p));
                lemma_net_deinds(k as nat, p);
            } else {
                assert(m.take(k) =~= m);
            }
        }
    } else {
        assert(m =~= Seq::<SpecEntry>::empty());
        assert forall|k: int| 0 <= k <= m.len() implies net_nesting(#[trigger] m.take(k)) >= 0 by {
            assert(m.take(k) =~= Seq::<SpecEntry>::empty());
        }
    }
}

/// The nesting balance of the post-processed stream: starting from stack
/// `st`, the stream closes exactly the blocks above the bottom sentinel —
/// and no prefix of it ever closes a block that is not open.
pub proof fn lemma_post_balance(s: Seq<u8>, raw: Seq<SpecEntry>, st: Seq<int>)
    requires
        stack_wf(st),
        forall|k: int| 0 <= k < raw.len() ==> entry_delta(#[trigger] raw[k]) == 0,
    ensures
        net_nesting(post(s, raw, st)) == 1 - st.len(),
        forall|k: int|
            0 <= k <= post(s, raw, st).len() ==> net_nesting(
                #[trigger] post(s, raw, st).take(k),
            ) >= 1 - st.len(),
    decreases raw.len(),
{
    let out = post(s, raw, st);
    if raw.len() == 0 {
        let n = (st.len() - 1) as nat;
        lemma_net_deinds(n, s.len() as int);
        assert forall|k: int| 0 <= k <= out.len() implies net_nesting(#[trigger] out.take(k)) >= 1
            - st.len() by {
            assert(out.take(k) =~= deinds_at(k as nat, s.len() as int));
            lemma_net_deinds(k as nat, s.len() as int);
        }
    } else {
        let e = raw[0];
        let rest = raw.drop_first();
        assert(entry_delta(e) == 0);
        assert(forall|k: int| 0 <= k < rest.len() ==> entry_delta(#[trigger] rest[k]) == 0) by {
            assert(forall|k: int|
                0 <= k < rest.len() ==> #[trigger] rest[k] == raw[k + 1] && entry_delta(raw[k + 1])
                    == 0);
        }
        let head0 = seq![e];
        assert(head0.drop_last() =~= Seq::<SpecEntry>::empty());
        assert(net_nesting(Seq::<SpecEntry>::empty()) == 0);
        assert(net_nesting(head0) == 0);
        assert forall|k: int| 0 <= k <= head0.len() implies net_nesting(
            #[trigger] head0.take(k),
        ) >= 0 by {
            if k == 0 {
                assert(head0.take(k) =~= Seq::<SpecEntry>::empty());
            } else {
                assert(head0.take(k) =~= head0);
            }
        }
        if e.0 == Ok::<SpecTok, ()>(SpecTok::Newline) {
            let w = trailing_hspace(s, e.1.1) as int;
            let m = newline_out(st, w, e.1.1);
            let st1 = next_stack(st, w);
            lemma_next_stack_wf(st, w);
            lemma_newline_out_net(st, w, e.1.1);
            lemma_post_balance(s, rest, st1);
            let head = head0 + m;
            let tail = post(s, rest, st1);
            assert(out == head + tail);
            lemma_net_concat(head0, m);
            lemma_net_concat(head, tail);
            let mindiff: int = if st1.len() < st.len() {
                st1.len() - st.len()
            } else {
                0
            };
            assert forall|k: int| 0 <= k <= m.len() implies net_nesting(head0) + net_nesting(
                #[trigger] m.take(k),
            ) >= mindiff by {}
            lemma_prefix_bound_concat(head0, m, mindiff);
            assert(net_nesting(head) == st1.len() - st.len());
            assert forall|k: int| 0 <= k <= head.len() implies net_nesting(
                #[trigger] head.take(k),
            ) >= 1 - st.len() by {}
            assert forall|k: int| 0 <= k <= tail.len() implies net_nesting(head) + net_nesting(
                #[trigger] tail.take(k),
            ) >= 1 - st.len() by {}
            lemma_prefix_bound_concat(head, tail, 1 - st.len());
            assert(net_nesting(out) == 1 - st.len());
        } else {
            lemma_post_balance(s, rest, st);
            let tail = post(s, rest, st);
            assert(out == head0 + tail);
            lemma_net_concat(head0, tail);
            assert forall|k: int| 0 <= k <= head0.len() implies net_nesting(
                #[trigger] head0.take(k),
            ) >= 1 - st.len() by {}
            assert forall|k: int| 0 <= k <= tail.len() implies net_nesting(head0) + net_nesting(
                #[trigger] tail.take(k),
            ) >= 1 - st.len() by {}
            lemma_prefix_bound_concat(head0, tail, 1 - st.len());
        }
    }
}

/// Two ordered streams concatenate into one, when the first ends by the
/// point `mid` where the second begins.
proof fn lemma_spans_concat(a: Seq<SpecEntry>, b: Seq<SpecEntry>, lo: int, mid: int, hi: int)
    requires
        spans_ok(a, lo, hi),
        spans_ok(b, mid, hi),
        lo <= mid <= hi,
        a.len() > 0 ==> a.last().1.1 <= mid,
    ensures
        spans_ok(a + b, lo, hi),
{
    let c = a + b;
    assert forall|k: int| 0 <= k < c.len() implies lo <= (#[trigger] c[k]).1.0 <= c[k].1.1
        <= hi by {
        if k < a.len() {
            assert(c[k] == a[k]);
        } else {
            assert(c[k] == b[k - a.len()]);
        }
    }
    assert forall|k: int| 0 <= k < c.len() - 1 implies (#[trigger] c[k]).1.1 <= c[k + 1].1.0 by {
        if k + 1 < a.len() {
            assert(c[k] == a[k]);
            assert(c[k + 1] == a[k + 1]);
        } else if k + 1 == a.len() {
            assert(c[k] == a[k]);
            assert(a[k] == a.last());
            assert(c[k + 1] == b[0]);
        } else {
            assert(c[k] == b[k - a.len()]);
            assert(c[k + 1] == b[k + 1 - a.len()]);
        }
    }
}

/// Every synthetic entry of a newline sits at the zero-width span `(p, p)`.
proof fn lemma_newline_out_at(st: Seq<int>, w: int, p: int)
    requires
        st.len() >= 1,
    ensures
        forall|k: int|
            0 <= k < newline_out(st, w, p).len() ==> (#[trigger] newline_out(st, w, p)[k]).1 == (
            p,
            p,
            ),
{
    let m = newline_out(st, w, p);
    assert forall|k: int| 0 <= k < m.len() implies (#[trigger] m[k]).1 == (p, p) by {
        if w < st.last() {
            let ds = deinds_at((st.len() - popped(st, w).len()) as nat, p);
            if !(popped(st, w).len() > 0 && popped(st, w).last() == w) && k == ds.len() {
                assert(m[k] == (Err::<SpecTok, ()>(()), (p, p)));
            } else {
                assert(m[k] == deind_entry(p));
            }
        }
    }
}

/// The post-processed stream is ordered: re-emitted entries keep their
/// spans, and every synthetic entry sits at the zero-width end of its
/// triggering newline's span, or at the end of input.
pub proof fn lemma_post_spans(s: Seq<u8>, raw: Seq<SpecEntry>, st: Seq<int>, lo: int)
    requires
        stack_wf(st),
        0 <= lo <= s.len(),
        spans_ok(raw, lo, s.len() as int),
    ensures
        spans_ok(post(s, raw, st), lo, s.len() as int),
    decreases raw.len(),
{
    let hi = s.len() as int;
    let out = post(s, raw, st);
    if raw.len() == 0 {
        assert forall|k: int| 0 <= k < out.len() implies lo <= (#[trigger] out[k]).1.0
            <= out[k].1.1 <= hi by {
            assert(out[k] == deind_entry(hi));
        }
        assert forall|k: int| 0 <= k < out.len() - 1 implies (#[trigger] out[k]).1.1 <= out[k
            + 1].1.0 by {
            assert(out[k] == deind_entry(hi));
            assert(out[k + 1] == deind_entry(hi));
        }
    } else {
        let e = raw[0];
        let rest = raw.drop_first();
        let p0 = e.1.1;
        assert(lo <= e.1.0 <= p0 <= hi);
        crate::token::lemma_spans_ok_drop_first(raw, lo, hi);
        let head0 = seq![e];
        assert(spans_ok(head0, lo, hi));
        if e.0 == Ok::<SpecTok, ()>(SpecTok::Newline) {
            let w = trailing_hspace(s, p0) as int;
            let m = newline_out(st, w, p0);
            let st1 = next_stack(st, w);
            lemma_next_stack_wf(st, w);
            lemma_newline_out_at(st, w, p0);
            assert(spans_ok(m, p0, hi));
            lemma_spans_concat(head0, m, lo, p0, hi);
            let head = head0 + m;
            assert(head.len() > 0 ==> head.last().1.1 <= p0) by {
                if m.len() > 0 {
                    assert(head.last() == m[m.len() - 1]);
                } else {
                    assert(head.last() == e);
                }
            }
            lemma_post_spans(s, rest, st1, p0);
            lemma_spans_concat(head, post(s, rest, st1), lo, p0, hi);
            assert(out == head + post(s, rest, st1));
        } else {
            lemma_post_spans(s, rest, st, p0);
            lemma_spans_concat(head0, post(s, rest, st), lo, p0, hi);
            assert(out == head0 + post(s, rest, st));
        }
    }
}

} // verus!

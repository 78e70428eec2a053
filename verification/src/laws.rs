use vstd::prelude::*;
use crate::machine::{absorb, find_crlf, init_machine, run, step, GFrame, GRun, GState, GStep,
    Machine, ParseError};
use crate::resp::{crlf, dec_rep, RespData, CR, LF, MINUS, COLON, DOLLAR, STAR, ZERO, NINE, ONE};

verus! {

/// A CRLF found before the end of `buf` is still the first one after `buf` grows.
proof fn lemma_find_crlf_extend(buf: Seq<u8>, ext: Seq<u8>, pos: int, p: int)
    requires
        pos >= 0,
        find_crlf(buf, pos) == Some(p),
    ensures
        find_crlf(buf + ext, pos) == Some(p),
    decreases buf.len() - pos,
{
    if pos + 1 >= buf.len() {
    } else if buf[pos] == CR && buf[pos + 1] == LF {
        assert((buf + ext)[pos] == buf[pos]);
        assert((buf + ext)[pos + 1] == buf[pos + 1]);
    } else {
        assert((buf + ext)[pos] == buf[pos]);
        assert((buf + ext)[pos + 1] == buf[pos + 1]);
        lemma_find_crlf_extend(buf, ext, pos + 1, p);
    }
}

/// Whatever `absorb` yields, the offset it carries is the one handed in, and
/// a continuation resumes scanning at that offset.
pub proof fn lemma_absorb_shape(stack: Seq<GFrame>, v: RespData, end: int)
    ensures
        match absorb(stack, v, end) {
            GStep::Done(_, e) => e == end,
            GStep::Next(m2) => m2.state == (GState::Idle { pos: end }),
            _ => false,
        },
    decreases stack.len(),
{
    if stack.len() > 0 {
        let top = stack.last();
        let elems2 = top.elems.push(v);
        if elems2.len() >= top.total {
            lemma_absorb_shape(stack.drop_last(), RespData::Array(Some(elems2)), end);
        }
    }
}

/// Positions and counters of a reachable machine are nonnegative.
pub open spec fn state_nonneg(s: GState) -> bool {
    match s {
        GState::Idle { pos } => pos >= 0,
        GState::Length { pos, acc, neg, ty } => pos >= 0 && acc >= 0,
        GState::Bulk { start, len } => start >= 0 && len >= 0,
        GState::Simple { pos } => pos >= 0,
        GState::ErrText { pos } => pos >= 0,
    }
}

/// The states the machine can actually reach: no position lies left of the buffer.
pub open spec fn m_wf(m: Machine) -> bool {
    state_nonneg(m.state)
}

/// A transition out of a reachable machine lands in a reachable machine.
proof fn lemma_step_preserves_wf(m: Machine, buf: Seq<u8>, md: int, ml: int)
    requires
        m_wf(m),
    ensures
        match step(m, buf, md, ml) {
            GStep::Next(m2) => m_wf(m2),
            _ => true,
        },
{
    match m.state {
        GState::Idle { pos } => {
        },
        GState::Length { pos, acc, neg, ty } => {
            if pos < buf.len() && pos + 1 < buf.len() {
                lemma_absorb_shape_all(m.stack, pos + 2);
            }
        },
        GState::Bulk { start, len } => {
            if buf.len() >= start + len + 2 {
                lemma_absorb_shape_all(m.stack, start + len + 2);
            }
        },
        GState::Simple { pos } => {
            match find_crlf(buf, pos) {
                Some(p) => {
                    crate::machine::lemma_find_crlf_some(buf, pos, p);
                    lemma_absorb_shape_all(m.stack, p + 2);
                },
                None => {
                },
            }
        },
        GState::ErrText { pos } => {
            match find_crlf(buf, pos) {
                Some(p) => {
                    crate::machine::lemma_find_crlf_some(buf, pos, p);
                    lemma_absorb_shape_all(m.stack, p + 2);
                },
                None => {
                },
            }
        },
    }
}

/// Every continuation `absorb` can yield scans from the handed-in offset.
proof fn lemma_absorb_shape_all(stack: Seq<GFrame>, end: int)
    ensures
        forall|v: RespData| match #[trigger] absorb(stack, v, end) {
            GStep::Done(_, e) => e == end,
            GStep::Next(m2) => m2.state == (GState::Idle { pos: end }),
            _ => false,
        },
{
    assert forall|v: RespData| match #[trigger] absorb(stack, v, end) {
        GStep::Done(_, e) => e == end,
        GStep::Next(m2) => m2.state == (GState::Idle { pos: end }),
        _ => false,
    } by {
        lemma_absorb_shape(stack, v, end);
    }
}

/// A transition that did not ask for more bytes reads nothing past the bytes
/// it had, so appending bytes does not change it.
proof fn lemma_step_extend(m: Machine, buf: Seq<u8>, ext: Seq<u8>, md: int, ml: int)
    requires
        m_wf(m),
        step(m, buf, md, ml) != GStep::More,
    ensures
        step(m, buf + ext, md, ml) == step(m, buf, md, ml),
{
    let buf2 = buf + ext;
    match m.state {
        GState::Idle { pos } => {
        },
        GState::Length { pos, acc, neg, ty } => {
        },
        GState::Bulk { start, len } => {
            assert(buf2.subrange(start, start + len) =~= buf.subrange(start, start + len));
        },
        GState::Simple { pos } => {
            let p = find_crlf(buf, pos)->Some_0;
            lemma_find_crlf_extend(buf, ext, pos, p);
            crate::machine::lemma_find_crlf_some(buf, pos, p);
            assert(buf2.subrange(pos, p) =~= buf.subrange(pos, p));
        },
        GState::ErrText { pos } => {
            let p = find_crlf(buf, pos)->Some_0;
            lemma_find_crlf_extend(buf, ext, pos, p);
            crate::machine::lemma_find_crlf_some(buf, pos, p);
            assert(buf2.subrange(pos, p) =~= buf.subrange(pos, p));
        },
    }
}

/// A run that ended (in a frame or an error) is unchanged by appended bytes.
pub proof fn lemma_run_extend(m: Machine, buf: Seq<u8>, ext: Seq<u8>, md: int, ml: int, fuel: nat)
    requires
        m_wf(m),
        !(run(m, buf, md, ml, fuel) is More),
    ensures
        run(m, buf + ext, md, ml, fuel) == run(m, buf, md, ml, fuel),
    decreases fuel,
{
    if fuel > 0 {
        match step(m, buf, md, ml) {
            GStep::Next(m2) => {
                lemma_step_preserves_wf(m, buf, md, ml);
                lemma_step_extend(m, buf, ext, md, ml);
                lemma_run_extend(m2, buf, ext, md, ml, (fuel - 1) as nat);
            },
            GStep::More => {
                assert(run(m, buf, md, ml, fuel) is More);
            },
            GStep::Done(v, e) => {
                lemma_step_extend(m, buf, ext, md, ml);
            },
            GStep::Fail(e) => {
                lemma_step_extend(m, buf, ext, md, ml);
            },
        }
    }
}

/// Fuel beyond what a run needs does not change its outcome.
pub proof fn lemma_run_fuel_mono(m: Machine, buf: Seq<u8>, md: int, ml: int, f1: nat, f2: nat)
    requires
        f1 <= f2,
        run(m, buf, md, ml, f1) != GRun::Fail(ParseError::IterationLimit),
    ensures
        run(m, buf, md, ml, f2) == run(m, buf, md, ml, f1),
    decreases f1,
{
    if f1 > 0 {
        match step(m, buf, md, ml) {
            GStep::Next(m2) => {
                lemma_run_fuel_mono(m2, buf, md, ml, (f1 - 1) as nat, (f2 - 1) as nat);
            },
            _ => {
            },
        }
    }
}

/// After a suspension, a run from the suspended machine on the grown buffer
/// agrees with a fresh run from the starting machine: nothing is lost or
/// reread by resuming.
pub proof fn lemma_run_resume(
    m: Machine,
    m2: Machine,
    buf: Seq<u8>,
    ext: Seq<u8>,
    md: int,
    ml: int,
    f1: nat,
    f2: nat,
)
    requires
        m_wf(m),
        run(m, buf, md, ml, f1) == GRun::More(m2),
        run(m, buf + ext, md, ml, f2) != GRun::Fail(ParseError::IterationLimit),
    ensures
        run(m2, buf + ext, md, ml, f2) == run(m, buf + ext, md, ml, f2),
    decreases f1,
{
    let buf2 = buf + ext;
    if f1 > 0 {
        match step(m, buf, md, ml) {
            GStep::Next(ma) => {
                lemma_step_preserves_wf(m, buf, md, ml);
                lemma_step_extend(m, buf, ext, md, ml);
                if f2 == 0 {
                    assert(run(m, buf2, md, ml, f2) == GRun::Fail(ParseError::IterationLimit));
                } else {
                    lemma_run_resume(ma, m2, buf, ext, md, ml, (f1 - 1) as nat, (f2 - 1) as nat);
                    lemma_run_fuel_mono(m2, buf2, md, ml, (f2 - 1) as nat, f2);
                }
            },
            GStep::More => {
            },
            _ => {
            },
        }
    }
}

/// Calling again with no new bytes after `NeedMoreData` asks for more again,
/// from the identical suspension.
pub proof fn theorem_idempotent_on_empty_append(
    m: Machine,
    m2: Machine,
    buf: Seq<u8>,
    md: int,
    ml: int,
    fuel: nat,
    fuel2: nat,
)
    requires
        run(m, buf, md, ml, fuel) == GRun::More(m2),
        fuel2 >= 1,
    ensures
        run(m2, buf, md, ml, fuel2) == GRun::More(m2),
    decreases fuel,
{
    if fuel > 0 {
        match step(m, buf, md, ml) {
            GStep::Next(ma) => {
                theorem_idempotent_on_empty_append(ma, m2, buf, md, ml, (fuel - 1) as nat, fuel2);
            },
            GStep::More => {
                assert(m2 == m);
                assert(run(m2, buf, md, ml, fuel2) == GRun::More(m2));
            },
            _ => {
            },
        }
    }
}

/// A frame's end offset is positive and never lies past the bytes the run had.
pub proof fn lemma_run_done_end(m: Machine, buf: Seq<u8>, md: int, ml: int, fuel: nat, v: RespData, e: int)
    requires
        m_wf(m),
        run(m, buf, md, ml, fuel) == GRun::Done(v, e),
    ensures
        1 <= e <= buf.len(),
    decreases fuel,
{
    if fuel > 0 {
        match step(m, buf, md, ml) {
            GStep::Next(m2) => {
                lemma_step_preserves_wf(m, buf, md, ml);
                lemma_run_done_end(m2, buf, md, ml, (fuel - 1) as nat, v, e);
            },
            GStep::Done(w, e2) => {
                match m.state {
                    GState::Idle { pos } => {
                    },
                    GState::Length { pos, acc, neg, ty } => {
                        if pos < buf.len() && pos + 1 < buf.len() {
                            lemma_absorb_shape_all(m.stack, pos + 2);
                        }
                    },
                    GState::Bulk { start, len } => {
                        if buf.len() >= start + len + 2 {
                            lemma_absorb_shape_all(m.stack, start + len + 2);
                        }
                    },
                    GState::Simple { pos } => {
                        let p = find_crlf(buf, pos)->Some_0;
                        crate::machine::lemma_find_crlf_some(buf, pos, p);
                        lemma_absorb_shape_all(m.stack, p + 2);
                    },
                    GState::ErrText { pos } => {
                        let p = find_crlf(buf, pos)->Some_0;
                        crate::machine::lemma_find_crlf_some(buf, pos, p);
                        lemma_absorb_shape_all(m.stack, p + 2);
                    },
                }
            },
            _ => {
            },
        }
    }
}

} // verus!

verus! {

/// The first `k` chunks, joined in order.
pub open spec fn cat_prefix(chunks: Seq<Seq<u8>>, k: int) -> Seq<u8>
    decreases k,
{
    if k <= 0 {
        Seq::empty()
    } else {
        cat_prefix(chunks, k - 1) + chunks[k - 1]
    }
}

/// Chunks `k1` (inclusive) to `k2` (exclusive), joined in order.
pub open spec fn cat_seg(chunks: Seq<Seq<u8>>, k1: int, k2: int) -> Seq<u8>
    decreases k2 - k1,
{
    if k2 <= k1 {
        Seq::empty()
    } else {
        cat_seg(chunks, k1, k2 - 1) + chunks[k2 - 1]
    }
}

proof fn lemma_cat_split(chunks: Seq<Seq<u8>>, k1: int, k2: int)
    requires
        0 <= k1 <= k2,
    ensures
        cat_prefix(chunks, k2) == cat_prefix(chunks, k1) + cat_seg(chunks, k1, k2),
    decreases k2 - k1,
{
    if k2 == k1 {
        assert(cat_prefix(chunks, k1) + cat_seg(chunks, k1, k2) =~= cat_prefix(chunks, k1));
    } else {
        lemma_cat_split(chunks, k1, k2 - 1);
        assert(cat_prefix(chunks, k1) + cat_seg(chunks, k1, k2) =~= (cat_prefix(chunks, k1)
            + cat_seg(chunks, k1, k2 - 1)) + chunks[k2 - 1]);
    }
}

proof fn lemma_cat_len_mono(chunks: Seq<Seq<u8>>, k1: int, k2: int)
    requires
        0 <= k1 <= k2 <= chunks.len(),
        forall|i: int| 0 <= i < chunks.len() ==> (#[trigger] chunks[i]).len() >= 1,
    ensures
        cat_prefix(chunks, k1).len() + (k2 - k1) <= cat_prefix(chunks, k2).len(),
    decreases k2 - k1,
{
    if k2 > k1 {
        lemma_cat_len_mono(chunks, k1, k2 - 1);
    }
}

/// Chunking independence: however one frame's bytes are cut into chunks,
/// feeding them in order gives `NeedMoreData` on every call before the last
/// byte arrives, the frame itself once it has, and each suspended parser
/// answers exactly as a fresh parse of all bytes seen so far would.
pub proof fn theorem_chunking_independence(
    chunks: Seq<Seq<u8>>,
    md: int,
    ml: int,
    fuel: nat,
    v: RespData,
    n: int,
)
    requires
        forall|i: int| 0 <= i < chunks.len() ==> (#[trigger] chunks[i]).len() >= 1,
        run(init_machine(), cat_prefix(chunks, chunks.len() as int), md, ml, fuel) == GRun::Done(
            v,
            n,
        ),
        n == cat_prefix(chunks, chunks.len() as int).len(),
    ensures
        forall|k: int|
            0 <= k < chunks.len() ==> (#[trigger] run(
                init_machine(),
                cat_prefix(chunks, k),
                md,
                ml,
                fuel,
            )) is More,
        forall|k: int, m2: Machine|
            0 <= k < chunks.len() && run(init_machine(), cat_prefix(chunks, k), md, ml, fuel)
                == GRun::More(m2) ==> #[trigger] run(m2, cat_prefix(chunks, k + 1), md, ml, fuel)
                == run(init_machine(), cat_prefix(chunks, k + 1), md, ml, fuel),
{
    let init = init_machine();
    let len = chunks.len() as int;
    let full = cat_prefix(chunks, len);
    assert forall|k: int| 0 <= k < len implies (#[trigger] run(
        init,
        cat_prefix(chunks, k),
        md,
        ml,
        fuel,
    )) is More by {
        let pre = cat_prefix(chunks, k);
        lemma_cat_split(chunks, k, len);
        lemma_cat_len_mono(chunks, k, len);
        let r = run(init, pre, md, ml, fuel);
        if !(r is More) {
            lemma_run_extend(init, pre, cat_seg(chunks, k, len), md, ml, fuel);
            match r {
                GRun::Done(w, e) => {
                    lemma_run_done_end(init, pre, md, ml, fuel, w, e);
                },
                _ => {
                },
            }
        }
    }
    assert forall|k: int, m2: Machine|
        0 <= k < len && run(init, cat_prefix(chunks, k), md, ml, fuel) == GRun::More(m2) implies #[trigger] run(
        m2,
        cat_prefix(chunks, k + 1),
        md,
        ml,
        fuel,
    ) == run(init, cat_prefix(chunks, k + 1), md, ml, fuel) by {
        let pre = cat_prefix(chunks, k);
        let pre2 = cat_prefix(chunks, k + 1);
        lemma_cat_split(chunks, k, k + 1);
        let r2 = run(init, pre2, md, ml, fuel);
        if k + 1 < len {
            assert(r2 is More);
        } else {
            assert(pre2 == full);
        }
        lemma_run_resume(init, m2, pre, cat_seg(chunks, k, k + 1), md, ml, fuel, fuel);
    }
}

/// Trailing bytes preserved: with two frames' bytes appended at once, the
/// first parse yields the first frame and consumes exactly its bytes; the
/// bytes left over are exactly the second frame's, which then parses alone.
pub proof fn theorem_trailing_bytes_preserved(
    b1: Seq<u8>,
    b2: Seq<u8>,
    md: int,
    ml: int,
    fuel: nat,
    v1: RespData,
    n1: int,
    v2: RespData,
    n2: int,
)
    requires
        run(init_machine(), b1, md, ml, fuel) == GRun::Done(v1, n1),
        n1 == b1.len(),
        run(init_machine(), b2, md, ml, fuel) == GRun::Done(v2, n2),
    ensures
        run(init_machine(), b1 + b2, md, ml, fuel) == GRun::Done(v1, n1),
        (b1 + b2).subrange(n1, (b1 + b2).len() as int) == b2,
{
    lemma_run_extend(init_machine(), b1, b2, md, ml, fuel);
    assert((b1 + b2).subrange(n1, (b1 + b2).len() as int) =~= b2);
}

} // verus!

verus! {

/// `k` array headers `*1` CR LF, one inside the next.
pub open spec fn nested_opens(k: nat) -> Seq<u8>
    decreases k,
{
    if k == 0 {
        Seq::empty()
    } else {
        seq![STAR, ONE, CR, LF] + nested_opens((k - 1) as nat)
    }
}

proof fn lemma_nested_opens_len(k: nat)
    ensures
        nested_opens(k).len() == 4 * k,
    decreases k,
{
    if k > 0 {
        lemma_nested_opens_len((k - 1) as nat);
    }
}

proof fn lemma_nested_depth(
    s: Seq<GFrame>,
    buf: Seq<u8>,
    pos: int,
    j: nat,
    md: int,
    ml: int,
    fuel: nat,
)
    requires
        0 <= pos,
        pos + 4 * j <= buf.len(),
        buf.subrange(pos, pos + 4 * j) == nested_opens(j),
        j >= 1,
        s.len() + j > md,
        0 <= md,
        fuel >= 3 * j,
    ensures
        run(Machine { state: GState::Idle { pos }, stack: s }, buf, md, ml, fuel) == GRun::Fail(
            ParseError::DepthExceeded,
        ),
    decreases j,
{
    lemma_nested_opens_len(j);
    lemma_nested_opens_len((j - 1) as nat);
    let piece = nested_opens(j);
    assert(buf[pos] == piece[0]);
    assert(buf[pos + 1] == piece[1]);
    assert(buf[pos + 2] == piece[2]);
    assert(buf[pos + 3] == piece[3]);
    assert(piece[0] == STAR && piece[1] == ONE && piece[2] == CR && piece[3] == LF);
    let m0 = Machine { state: GState::Idle { pos }, stack: s };
    let m1 = Machine { state: GState::Length { pos: pos + 1, acc: 0, neg: false, ty: STAR },
        stack: s };
    let m2 = Machine { state: GState::Length { pos: pos + 2, acc: 1, neg: false, ty: STAR },
        stack: s };
    assert(step(m0, buf, md, ml) == GStep::Next(m1));
    assert(step(m1, buf, md, ml) == GStep::Next(m2));
    assert(run(m0, buf, md, ml, fuel) == run(m1, buf, md, ml, (fuel - 1) as nat));
    assert(run(m1, buf, md, ml, (fuel - 1) as nat) == run(m2, buf, md, ml, (fuel - 2) as nat));
    if s.len() >= md {
        assert(step(m2, buf, md, ml) == GStep::Fail(ParseError::DepthExceeded));
        assert(run(m2, buf, md, ml, (fuel - 2) as nat) == GRun::Fail(ParseError::DepthExceeded));
    } else {
        let s2 = s.push(GFrame { total: 1, elems: Seq::empty() });
        let m3 = Machine { state: GState::Idle { pos: pos + 4 }, stack: s2 };
        assert(step(m2, buf, md, ml) == GStep::Next(m3));
        assert(nested_opens((j - 1) as nat) =~= buf.subrange(pos + 4, pos + 4 * j)) by {
            assert forall|i: int| 0 <= i < 4 * (j - 1) implies #[trigger] (buf.subrange(
                pos + 4,
                pos + 4 * j,
            )[i]) == nested_opens((j - 1) as nat)[i] by {
                assert(buf.subrange(pos + 4, pos + 4 * j)[i] == buf.subrange(
                    pos,
                    pos + 4 * j,
                )[i + 4]);
                assert(piece[i + 4] == nested_opens((j - 1) as nat)[i]);
            }
        }
        lemma_nested_depth(s2, buf, pos + 4, (j - 1) as nat, md, ml, (fuel - 3) as nat);
        assert(run(m2, buf, md, ml, (fuel - 2) as nat) == run(m3, buf, md, ml, (fuel - 3) as nat));
    }
}

/// Depth bound: an array nested one level beyond `max_depth` fails with
/// `DepthExceeded`; by the resumption law, however the bytes are chunked.
pub proof fn theorem_depth_bound(k: nat, md: int, ml: int, fuel: nat)
    requires
        0 <= md,
        k > md,
        fuel >= 3 * k,
    ensures
        run(init_machine(), nested_opens(k), md, ml, fuel) == GRun::Fail(ParseError::DepthExceeded),
{
    lemma_nested_opens_len(k);
    let buf = nested_opens(k);
    assert(buf.subrange(0, 4 * k as int) =~= buf);
    lemma_nested_depth(Seq::empty(), buf, 0, k, md, ml, fuel);
}

/// Ten to the `k`.
pub open spec fn pow10(k: nat) -> int
    decreases k,
{
    if k == 0 {
        1
    } else {
        10 * pow10((k - 1) as nat)
    }
}

/// The number that a run of ASCII digits spells, most significant first.
pub open spec fn dec_val(ds: Seq<u8>) -> int
    decreases ds.len(),
{
    if ds.len() == 0 {
        0
    } else {
        (ds[0] - ZERO) * pow10((ds.len() - 1) as nat) + dec_val(ds.drop_first())
    }
}

/// Every byte of `ds` is an ASCII digit.
pub open spec fn all_digits(ds: Seq<u8>) -> bool {
    forall|i: int| 0 <= i < ds.len() ==> ZERO <= #[trigger] ds[i] <= NINE
}

proof fn lemma_pow10_pos(k: nat)
    ensures
        pow10(k) >= 1,
    decreases k,
{
    if k > 0 {
        lemma_pow10_pos((k - 1) as nat);
    }
}

proof fn lemma_dec_val_nonneg(ds: Seq<u8>)
    requires
        all_digits(ds),
    ensures
        dec_val(ds) >= 0,
    decreases ds.len(),
{
    if ds.len() > 0 {
        lemma_pow10_pos((ds.len() - 1) as nat);
        assert(ds.drop_first().len() == ds.len() - 1);
        assert(all_digits(ds.drop_first())) by {
            assert forall|i: int| 0 <= i < ds.drop_first().len() implies ZERO
                <= #[trigger] ds.drop_first()[i] <= NINE by {
                assert(ds.drop_first()[i] == ds[i + 1]);
            }
        }
        lemma_dec_val_nonneg(ds.drop_first());
        let d0 = ds[0] - ZERO;
        let p = pow10((ds.len() - 1) as nat);
        assert(d0 * p >= 0) by (nonlinear_arith)
            requires
                d0 >= 0,
                p >= 1,
        ;
    }
}

proof fn lemma_dec_val_push(ds: Seq<u8>, d: u8)
    ensures
        dec_val(ds.push(d)) == dec_val(ds) * 10 + (d - ZERO),
    decreases ds.len(),
{
    if ds.len() == 0 {
        assert(ds.push(d).drop_first() =~= Seq::<u8>::empty());
        assert(ds.push(d)[0] == d);
        assert(pow10(0) == 1);
        assert(dec_val(Seq::<u8>::empty()) == 0);
        assert(dec_val(ds.push(d)) == (d - ZERO) * 1 + 0);
    } else {
        assert(ds.push(d).drop_first() =~= ds.drop_first().push(d));
        lemma_dec_val_push(ds.drop_first(), d);
        let d0 = ds[0] - ZERO;
        let k = (ds.len() - 1) as nat;
        assert(d0 * pow10((k + 1) as nat) == (d0 * pow10(k)) * 10) by (nonlinear_arith)
            requires
                pow10((k + 1) as nat) == 10 * pow10(k),
        ;
    }
}

pub proof fn lemma_dec_rep_digits(n: int)
    requires
        n >= 0,
    ensures
        all_digits(dec_rep(n)),
        dec_rep(n).len() >= 1,
        dec_val(dec_rep(n)) == n,
    decreases n,
{
    if n < 10 {
        assert(dec_rep(n) =~= seq![(48 + n) as u8]);
        assert(dec_rep(n).drop_first() =~= Seq::<u8>::empty());
        assert(pow10(0) == 1);
        assert(dec_val(Seq::<u8>::empty()) == 0);
        assert(dec_rep(n)[0] == (48 + n) as u8);
        assert(((48 + n) as u8) - ZERO == n);
        assert(dec_val(dec_rep(n)) == ((48 + n) as u8 - ZERO) * 1 + 0);
    } else {
        vstd::arithmetic::div_mod::lemma_fundamental_div_mod(n, 10);
        vstd::arithmetic::div_mod::lemma_mod_bound(n, 10);
        let q = n / 10;
        assert(n == 10 * q + n % 10);
        lemma_dec_rep_digits(q);
        lemma_dec_val_push(dec_rep(q), (48 + n % 10) as u8);
    }
}

pub proof fn lemma_consume_digits(
    s: Seq<GFrame>,
    buf: Seq<u8>,
    pos: int,
    acc: int,
    neg: bool,
    ty: u8,
    ds: Seq<u8>,
    md: int,
    ml: int,
    fuel: nat,
)
    requires
        0 <= pos,
        ds.len() >= 1,
        all_digits(ds),
        pos + ds.len() <= buf.len(),
        buf.subrange(pos, pos + ds.len()) == ds,
        0 <= acc,
        acc * pow10(ds.len() as nat) + dec_val(ds) <= i64::MAX,
    ensures
        run(
            Machine { state: GState::Length { pos, acc, neg, ty }, stack: s },
            buf,
            md,
            ml,
            (fuel + ds.len()) as nat,
        ) == run(
            Machine {
                state: GState::Length {
                    pos: pos + ds.len(),
                    acc: acc * pow10(ds.len() as nat) + dec_val(ds),
                    neg,
                    ty,
                },
                stack: s,
            },
            buf,
            md,
            ml,
            fuel,
        ),
    decreases ds.len(),
{
    let k = ds.len() as nat;
    let d0 = ds[0] - ZERO;
    assert(buf[pos] == buf.subrange(pos, pos + ds.len())[0]);
    let acc2 = acc * 10 + d0;
    let rest = ds.drop_first();
    assert(all_digits(rest)) by {
        assert forall|i: int| 0 <= i < rest.len() implies ZERO <= #[trigger] rest[i]
            <= NINE by {
            assert(rest[i] == ds[i + 1]);
        }
    }
    lemma_dec_val_nonneg(rest);
    lemma_pow10_pos((k - 1) as nat);
    assert(acc2 * pow10((k - 1) as nat) + dec_val(rest) == acc * pow10(k) + dec_val(ds))
        by (nonlinear_arith)
        requires
            acc2 == acc * 10 + d0,
            pow10(k) == 10 * pow10((k - 1) as nat),
            dec_val(ds) == d0 * pow10((k - 1) as nat) + dec_val(rest),
            k == ds.len(),
            k >= 1,
    ;
    assert(acc2 <= acc2 * pow10((k - 1) as nat)) by (nonlinear_arith)
        requires
            acc2 >= 0,
            pow10((k - 1) as nat) >= 1,
    ;
    assert(acc2 <= i64::MAX);
    let m0 = Machine { state: GState::Length { pos, acc, neg, ty }, stack: s };
    let m1 = Machine { state: GState::Length { pos: pos + 1, acc: acc2, neg, ty }, stack: s };
    assert(step(m0, buf, md, ml) == GStep::Next(m1));
    if ds.len() == 1 {
        assert(dec_val(ds) == d0 * 1 + 0);
    } else {
        assert(buf.subrange(pos + 1, pos + 1 + rest.len()) =~= rest) by {
            assert forall|i: int| 0 <= i < rest.len() implies buf.subrange(
                pos + 1,
                pos + 1 + rest.len(),
            )[i] == rest[i] by {
                assert(buf.subrange(pos + 1, pos + 1 + rest.len())[i] == buf.subrange(
                    pos,
                    pos + ds.len(),
                )[i + 1]);
            }
        }
        lemma_consume_digits(s, buf, pos + 1, acc2, neg, ty, rest, md, ml, fuel);
    }
}

proof fn lemma_consume_digits_overflow(
    s: Seq<GFrame>,
    buf: Seq<u8>,
    pos: int,
    acc: int,
    neg: bool,
    ty: u8,
    ds: Seq<u8>,
    md: int,
    ml: int,
    fuel: nat,
)
    requires
        0 <= pos,
        ds.len() >= 1,
        all_digits(ds),
        pos + ds.len() <= buf.len(),
        buf.subrange(pos, pos + ds.len()) == ds,
        0 <= acc <= i64::MAX,
        acc * pow10(ds.len() as nat) + dec_val(ds) > i64::MAX,
        fuel >= ds.len(),
    ensures
        run(Machine { state: GState::Length { pos, acc, neg, ty }, stack: s }, buf, md, ml, fuel)
            == GRun::Fail(ParseError::Overflow),
    decreases ds.len(),
{
    let k = ds.len() as nat;
    let d0 = ds[0] - ZERO;
    assert(buf[pos] == buf.subrange(pos, pos + ds.len())[0]);
    let acc2 = acc * 10 + d0;
    let rest = ds.drop_first();
    assert(all_digits(rest)) by {
        assert forall|i: int| 0 <= i < rest.len() implies ZERO <= #[trigger] rest[i]
            <= NINE by {
            assert(rest[i] == ds[i + 1]);
        }
    }
    lemma_dec_val_nonneg(rest);
    lemma_pow10_pos((k - 1) as nat);
    assert(acc2 * pow10((k - 1) as nat) + dec_val(rest) == acc * pow10(k) + dec_val(ds))
        by (nonlinear_arith)
        requires
            acc2 == acc * 10 + d0,
            pow10(k) == 10 * pow10((k - 1) as nat),
            dec_val(ds) == d0 * pow10((k - 1) as nat) + dec_val(rest),
            k == ds.len(),
            k >= 1,
    ;
    let m0 = Machine { state: GState::Length { pos, acc, neg, ty }, stack: s };
    if acc2 > i64::MAX {
        assert(step(m0, buf, md, ml) == GStep::Fail(ParseError::Overflow));
    } else {
        if ds.len() == 1 {
            assert(dec_val(ds) == d0 * 1 + 0);
            assert(false);
        } else {
            let m1 = Machine { state: GState::Length { pos: pos + 1, acc: acc2, neg, ty },
                stack: s };
            assert(step(m0, buf, md, ml) == GStep::Next(m1));
            assert(buf.subrange(pos + 1, pos + 1 + rest.len()) =~= rest) by {
                assert forall|i: int| 0 <= i < rest.len() implies buf.subrange(
                    pos + 1,
                    pos + 1 + rest.len(),
                )[i] == rest[i] by {
                    assert(buf.subrange(pos + 1, pos + 1 + rest.len())[i] == buf.subrange(
                        pos,
                        pos + ds.len(),
                    )[i + 1]);
                }
            }
            lemma_consume_digits_overflow(
                s,
                buf,
                pos + 1,
                acc2,
                neg,
                ty,
                rest,
                md,
                ml,
                (fuel - 1) as nat,
            );
        }
    }
}

} // verus!

verus! {

/// The header that declares a bulk string of `n` bytes.
pub open spec fn bulk_header(n: int) -> Seq<u8> {
    seq![DOLLAR] + dec_rep(n) + crlf()
}

/// A length or integer field: type prefix, optional minus, decimal digits of
/// the magnitude, CRLF.
pub open spec fn number_field(ty: u8, negative: bool, n: int) -> Seq<u8> {
    (if negative {
        seq![ty, MINUS]
    } else {
        seq![ty]
    }) + dec_rep(n) + crlf()
}

/// Length bound: a bulk string declaring a length over `max_length` fails
/// with `LengthExceeded` as soon as its header is read, before any payload.
pub proof fn theorem_length_bound(n: int, md: int, ml: int, fuel: nat)
    requires
        0 <= ml < n <= i64::MAX,
        fuel >= dec_rep(n).len() + 2,
    ensures
        run(init_machine(), bulk_header(n), md, ml, fuel) == GRun::Fail(ParseError::LengthExceeded),
{
    lemma_dec_rep_digits(n);
    let ds = dec_rep(n);
    let k = ds.len() as int;
    let buf = bulk_header(n);
    assert(buf.len() == k + 3);
    assert(buf[0] == DOLLAR);
    assert(buf.subrange(1, 1 + k) =~= ds) by {
        assert forall|i: int| 0 <= i < k implies #[trigger] (buf.subrange(1, 1 + k)[i])
            == ds[i] by {
            assert(buf[1 + i] == (seq![DOLLAR] + ds)[1 + i]);
        }
    }
    assert(buf[1 + k] == CR);
    assert(buf[2 + k] == LF);
    let m0 = init_machine();
    let m1 = Machine {
        state: GState::Length { pos: 1, acc: 0, neg: false, ty: DOLLAR },
        stack: Seq::empty(),
    };
    assert(step(m0, buf, md, ml) == GStep::Next(m1));
    assert(run(m0, buf, md, ml, fuel) == run(m1, buf, md, ml, (fuel - 1) as nat));
    let f2 = (fuel - 1 - k) as nat;
    assert(0 * pow10(ds.len() as nat) == 0);
    lemma_consume_digits(Seq::empty(), buf, 1, 0, false, DOLLAR, ds, md, ml, f2);
    assert((f2 + ds.len()) as nat == (fuel - 1) as nat);
    let m2 = Machine {
        state: GState::Length { pos: 1 + k, acc: n, neg: false, ty: DOLLAR },
        stack: Seq::empty(),
    };
    assert(run(m1, buf, md, ml, (fuel - 1) as nat) == run(m2, buf, md, ml, f2));
    assert(step(m2, buf, md, ml) == GStep::Fail(ParseError::LengthExceeded));
    assert(run(m2, buf, md, ml, f2) == GRun::Fail(ParseError::LengthExceeded));
}

/// Overflow safety: a length or integer field whose magnitude exceeds the
/// signed 64-bit range fails with `Overflow` while its digits are read.
pub proof fn theorem_overflow_safety(
    ty: u8,
    negative: bool,
    n: int,
    md: int,
    ml: int,
    fuel: nat,
)
    requires
        ty == COLON || ty == DOLLAR || ty == STAR,
        n > i64::MAX,
        fuel >= dec_rep(n).len() + 2,
    ensures
        run(init_machine(), number_field(ty, negative, n), md, ml, fuel) == GRun::Fail(
            ParseError::Overflow,
        ),
{
    lemma_dec_rep_digits(n);
    let ds = dec_rep(n);
    let k = ds.len() as int;
    let head = if negative {
        seq![ty, MINUS]
    } else {
        seq![ty]
    };
    let off = head.len() as int;
    let buf = number_field(ty, negative, n);
    assert(buf == head + ds + crlf());
    assert(buf[0] == ty);
    assert(buf.subrange(off, off + k) =~= ds) by {
        assert forall|i: int| 0 <= i < k implies #[trigger] (buf.subrange(off, off + k)[i])
            == ds[i] by {
            assert(buf[off + i] == (head + ds)[off + i]);
        }
    }
    let m0 = init_machine();
    let m1 = Machine {
        state: GState::Length { pos: 1, acc: 0, neg: false, ty },
        stack: Seq::empty(),
    };
    assert(step(m0, buf, md, ml) == GStep::Next(m1));
    assert(run(m0, buf, md, ml, fuel) == run(m1, buf, md, ml, (fuel - 1) as nat));
    assert(0 * pow10(ds.len() as nat) == 0);
    if negative {
        assert(buf[1] == MINUS);
        let m2 = Machine {
            state: GState::Length { pos: 2, acc: 0, neg: true, ty },
            stack: Seq::empty(),
        };
        assert(step(m1, buf, md, ml) == GStep::Next(m2));
        assert(run(m1, buf, md, ml, (fuel - 1) as nat) == run(m2, buf, md, ml, (fuel - 2) as nat));
        lemma_consume_digits_overflow(
            Seq::empty(),
            buf,
            2,
            0,
            true,
            ty,
            ds,
            md,
            ml,
            (fuel - 2) as nat,
        );
    } else {
        lemma_consume_digits_overflow(
            Seq::empty(),
            buf,
            1,
            0,
            false,
            ty,
            ds,
            md,
            ml,
            (fuel - 1) as nat,
        );
    }
}

} // verus!

verus! {

/// A run never fails with the non-terminal kind: `NeedMoreData` only ever
/// names a suspension.
pub proof fn lemma_run_fail_terminal(m: Machine, buf: Seq<u8>, md: int, ml: int, fuel: nat)
    ensures
        run(m, buf, md, ml, fuel) != GRun::Fail(ParseError::NeedMoreData),
    decreases fuel,
{
    if fuel > 0 {
        match step(m, buf, md, ml) {
            GStep::Next(m2) => {
                lemma_run_fail_terminal(m2, buf, md, ml, (fuel - 1) as nat);
                assert(run(m, buf, md, ml, fuel) == run(m2, buf, md, ml, (fuel - 1) as nat));
            },
            GStep::Fail(e) => {
                lemma_absorb_no_fail(m.stack);
                assert(e != ParseError::NeedMoreData);
            },
            GStep::Done(v, e) => {
            },
            GStep::More => {
            },
        }
    }
}

/// `absorb` yields a frame or a continuation, never an error.
proof fn lemma_absorb_no_fail(stack: Seq<GFrame>)
    ensures
        forall|v: RespData, end: int| !((#[trigger] absorb(stack, v, end)) is Fail),
    decreases stack.len(),
{
    if stack.len() > 0 {
        lemma_absorb_no_fail(stack.drop_last());
        assert forall|v: RespData, end: int| !((#[trigger] absorb(stack, v, end)) is Fail) by {
            let top = stack.last();
            let elems2 = top.elems.push(v);
            if elems2.len() >= top.total {
                assert(absorb(stack, v, end) == absorb(
                    stack.drop_last(),
                    RespData::Array(Some(elems2)),
                    end,
                ));
            }
        }
    }
}

} // verus!

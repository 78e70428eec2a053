use vstd::prelude::*;
use crate::laws::{lemma_absorb_shape, lemma_consume_digits, lemma_dec_rep_digits};
use crate::machine::{absorb, find_crlf, init_machine, run, step, GFrame, GRun, GState, GStep,
    Machine};
use crate::resp::{crlf, dec_rep, encode_seq, int_rep, spec_encode, RespData, CR, LF, PLUS, MINUS,
    COLON, DOLLAR, STAR};

verus! {

/// No byte of `s` is CR or LF.
pub open spec fn no_line_breaks(s: Seq<u8>) -> bool {
    forall|i: int| 0 <= i < s.len() ==> #[trigger] s[i] != CR && s[i] != LF
}

/// A value the wire can carry back intact under the given limits: line
/// payloads free of CR and LF, numbers within the signed 64-bit range, bulk
/// payloads within `max_length`, and arrays nested within the depth budget.
/// The null bulk string is left out: its wire form `$-1` decodes as `Null`.
pub open spec fn data_wf(v: RespData, depth: int, max_length: int) -> bool
    decreases v,
{
    match v {
        RespData::SimpleString(s) => no_line_breaks(s),
        RespData::Error(s) => no_line_breaks(s),
        RespData::Integer(i) => -i64::MAX <= i <= i64::MAX,
        RespData::BulkString(Some(b)) => b.len() <= max_length && b.len() <= i64::MAX,
        RespData::BulkString(None) => false,
        RespData::Array(Some(es)) => es.len() <= i64::MAX && (es.len() == 0 || (depth >= 1
            && data_wf_all(es, depth - 1, max_length))),
        RespData::Array(None) => true,
        RespData::Null => true,
    }
}

/// Every element is representable under the limits.
pub open spec fn data_wf_all(es: Seq<RespData>, depth: int, max_length: int) -> bool
    decreases es,
{
    es.len() == 0 || (data_wf(es[0], depth, max_length) && data_wf_all(
        es.drop_first(),
        depth,
        max_length,
    ))
}

/// Transitions one run of the machine takes to consume the encoding of `v`.
pub open spec fn cost(v: RespData) -> nat
    decreases v,
{
    match v {
        RespData::SimpleString(s) => 2,
        RespData::Error(s) => 2,
        RespData::Integer(i) => (2 + int_rep(i).len()) as nat,
        RespData::BulkString(Some(b)) => (3 + dec_rep(b.len() as int).len()) as nat,
        RespData::BulkString(None) => 4,
        RespData::Null => 4,
        RespData::Array(None) => 4,
        RespData::Array(Some(es)) => (2 + dec_rep(es.len() as int).len() + cost_seq(es)) as nat,
    }
}

/// Transitions to consume a run of encodings, one value after the other.
pub open spec fn cost_seq(es: Seq<RespData>) -> nat
    decreases es,
{
    if es.len() == 0 {
        0
    } else {
        (cost(es[0]) + cost_seq(es.drop_first())) as nat
    }
}

proof fn lemma_data_wf_all_index(es: Seq<RespData>, depth: int, ml: int, i: int)
    requires
        data_wf_all(es, depth, ml),
        0 <= i < es.len(),
    ensures
        data_wf(es[i], depth, ml),
    decreases i,
{
    if i > 0 {
        lemma_data_wf_all_index(es.drop_first(), depth, ml, i - 1);
    }
}

proof fn lemma_slice_index(buf: Seq<u8>, pos: int, len: int, j: int)
    requires
        0 <= pos,
        0 <= j < len,
        pos + len <= buf.len(),
    ensures
        buf[pos + j] == buf.subrange(pos, pos + len)[j],
{
}

/// With no CR among `buf[pos..p]` and CR LF at `p`, the scan finds exactly `p`.
proof fn lemma_find_crlf_exact(buf: Seq<u8>, pos: int, p: int)
    requires
        0 <= pos <= p,
        p + 1 < buf.len(),
        forall|j: int| pos <= j < p ==> #[trigger] buf[j] != CR,
        buf[p] == CR,
        buf[p + 1] == LF,
    ensures
        find_crlf(buf, pos) == Some(p),
    decreases p - pos,
{
    if pos < p {
        lemma_find_crlf_exact(buf, pos + 1, p);
    }
}

} // verus!

verus! {

/// The run that follows once a completed value is handed to the open arrays:
/// the top-level frame if none stays open, else the run from the continuation.
pub open spec fn absorb_run(
    s: Seq<GFrame>,
    v: RespData,
    end: int,
    buf: Seq<u8>,
    md: int,
    ml: int,
    fuel: nat,
) -> GRun {
    match absorb(s, v, end) {
        GStep::Done(w, e) => GRun::Done(w, e),
        GStep::Next(m2) => run(m2, buf, md, ml, fuel),
        _ => GRun::More(init_machine()),
    }
}

/// From a scan position whose bytes hold the encoding of a representable
/// value, the machine consumes exactly that encoding and hands the value to
/// the open arrays, spending `cost(v)` transitions.
proof fn lemma_parse_value(
    v: RespData,
    s: Seq<GFrame>,
    buf: Seq<u8>,
    pos: int,
    md: int,
    ml: int,
    fuel: nat,
)
    requires
        data_wf(v, md - s.len(), ml),
        s.len() <= md,
        0 <= pos,
        pos + spec_encode(v).len() <= buf.len(),
        buf.subrange(pos, pos + spec_encode(v).len() as int) == spec_encode(v),
    ensures
        run(
            Machine { state: GState::Idle { pos }, stack: s },
            buf,
            md,
            ml,
            (fuel + cost(v)) as nat,
        ) == absorb_run(s, v, pos + spec_encode(v).len(), buf, md, ml, fuel),
    decreases v, 1int,
{
    match v {
        RespData::SimpleString(_) => {
            lemma_parse_simple(v, s, buf, pos, md, ml, fuel);
        },
        RespData::Error(_) => {
            lemma_parse_error_text(v, s, buf, pos, md, ml, fuel);
        },
        RespData::Integer(_) => {
            lemma_parse_integer(v, s, buf, pos, md, ml, fuel);
        },
        RespData::Null => {
            lemma_parse_null(v, s, buf, pos, md, ml, fuel);
        },
        RespData::Array(None) => {
            lemma_parse_null_array(v, s, buf, pos, md, ml, fuel);
        },
        RespData::BulkString(_) => {
            lemma_parse_bulk(v, s, buf, pos, md, ml, fuel);
        },
        RespData::Array(Some(_)) => {
            lemma_parse_array(v, s, buf, pos, md, ml, fuel);
        },
    }
}

#[verifier::rlimit(100)]
proof fn lemma_parse_simple(
    v: RespData,
    s: Seq<GFrame>,
    buf: Seq<u8>,
    pos: int,
    md: int,
    ml: int,
    fuel: nat,
)
    requires
        data_wf(v, md - s.len(), ml),
        s.len() <= md,
        0 <= pos,
        pos + spec_encode(v).len() <= buf.len(),
        buf.subrange(pos, pos + spec_encode(v).len() as int) == spec_encode(v),
        v matches RespData::SimpleString(_),
    ensures
        run(
            Machine { state: GState::Idle { pos }, stack: s },
            buf,
            md,
            ml,
            (fuel + cost(v)) as nat,
        ) == absorb_run(s, v, pos + spec_encode(v).len(), buf, md, ml, fuel),
    decreases v, 0int,
{
    let enc = spec_encode(v);
    let elen = enc.len() as int;
    let m0 = Machine { state: GState::Idle { pos }, stack: s };
    assert forall|j: int| pos <= j < pos + elen implies #[trigger] buf[j] == enc[j - pos] by {
        lemma_slice_index(buf, pos, elen, j - pos);
    }
    match v {
        RespData::SimpleString(text) => {
            assert(enc[0] == PLUS);
            let m1 = Machine { state: GState::Simple { pos: pos + 1 }, stack: s };
            assert(step(m0, buf, md, ml) == GStep::Next(m1));
            let p = pos + 1 + text.len();
            assert forall|j: int| pos + 1 <= j < p implies #[trigger] buf[j] != CR by {
                assert(buf[j] == enc[j - pos]);
                assert(enc[j - pos] == text[j - pos - 1]);
            }
            assert(buf[p] == CR && buf[p + 1] == LF);
            lemma_find_crlf_exact(buf, pos + 1, p);
            assert(buf.subrange(pos + 1, p) =~= text) by {
                assert forall|j: int| 0 <= j < text.len() implies #[trigger] (buf.subrange(
                    pos + 1,
                    p,
                )[j]) == text[j] by {
                    assert(buf.subrange(pos + 1, p)[j] == buf[pos + 1 + j]);
                    assert(buf[pos + 1 + j] == enc[1 + j]);
                }
            }
            assert(step(m1, buf, md, ml) == absorb(s, v, p + 2));
            lemma_absorb_shape(s, v, p + 2);
            assert(p + 2 == pos + elen);
            assert(run(m0, buf, md, ml, (fuel + 2) as nat) == run(
                m1,
                buf,
                md,
                ml,
                (fuel + 1) as nat,
            ));
                },
        _ => {
        },
    }
}

#[verifier::rlimit(100)]
proof fn lemma_parse_error_text(
    v: RespData,
    s: Seq<GFrame>,
    buf: Seq<u8>,
    pos: int,
    md: int,
    ml: int,
    fuel: nat,
)
    requires
        data_wf(v, md - s.len(), ml),
        s.len() <= md,
        0 <= pos,
        pos + spec_encode(v).len() <= buf.len(),
        buf.subrange(pos, pos + spec_encode(v).len() as int) == spec_encode(v),
        v matches RespData::Error(_),
    ensures
        run(
            Machine { state: GState::Idle { pos }, stack: s },
            buf,
            md,
            ml,
            (fuel + cost(v)) as nat,
        ) == absorb_run(s, v, pos + spec_encode(v).len(), buf, md, ml, fuel),
    decreases v, 0int,
{
    let enc = spec_encode(v);
    let elen = enc.len() as int;
    let m0 = Machine { state: GState::Idle { pos }, stack: s };
    assert forall|j: int| pos <= j < pos + elen implies #[trigger] buf[j] == enc[j - pos] by {
        lemma_slice_index(buf, pos, elen, j - pos);
    }
    match v {
        RespData::Error(text) => {
            assert(enc[0] == MINUS);
            let m1 = Machine { state: GState::ErrText { pos: pos + 1 }, stack: s };
            assert(step(m0, buf, md, ml) == GStep::Next(m1));
            let p = pos + 1 + text.len();
            assert forall|j: int| pos + 1 <= j < p implies #[trigger] buf[j] != CR by {
                assert(buf[j] == enc[j - pos]);
                assert(enc[j - pos] == text[j - pos - 1]);
            }
            assert(buf[p] == CR && buf[p + 1] == LF);
            lemma_find_crlf_exact(buf, pos + 1, p);
            assert(buf.subrange(pos + 1, p) =~= text) by {
                assert forall|j: int| 0 <= j < text.len() implies #[trigger] (buf.subrange(
                    pos + 1,
                    p,
                )[j]) == text[j] by {
                    assert(buf.subrange(pos + 1, p)[j] == buf[pos + 1 + j]);
                    assert(buf[pos + 1 + j] == enc[1 + j]);
                }
            }
            assert(step(m1, buf, md, ml) == absorb(s, v, p + 2));
            lemma_absorb_shape(s, v, p + 2);
            assert(p + 2 == pos + elen);
            assert(run(m0, buf, md, ml, (fuel + 2) as nat) == run(
                m1,
                buf,
                md,
                ml,
                (fuel + 1) as nat,
            ));
                },
        _ => {
        },
    }
}

#[verifier::rlimit(100)]
proof fn lemma_parse_integer(
    v: RespData,
    s: Seq<GFrame>,
    buf: Seq<u8>,
    pos: int,
    md: int,
    ml: int,
    fuel: nat,
)
    requires
        data_wf(v, md - s.len(), ml),
        s.len() <= md,
        0 <= pos,
        pos + spec_encode(v).len() <= buf.len(),
        buf.subrange(pos, pos + spec_encode(v).len() as int) == spec_encode(v),
        v matches RespData::Integer(_),
    ensures
        run(
            Machine { state: GState::Idle { pos }, stack: s },
            buf,
            md,
            ml,
            (fuel + cost(v)) as nat,
        ) == absorb_run(s, v, pos + spec_encode(v).len(), buf, md, ml, fuel),
    decreases v, 0int,
{
    let enc = spec_encode(v);
    let elen = enc.len() as int;
    let m0 = Machine { state: GState::Idle { pos }, stack: s };
    assert forall|j: int| pos <= j < pos + elen implies #[trigger] buf[j] == enc[j - pos] by {
        lemma_slice_index(buf, pos, elen, j - pos);
    }
    match v {
        RespData::Integer(i) => {
            assert(enc[0] == COLON);
            let m1 = Machine {
                state: GState::Length { pos: pos + 1, acc: 0, neg: false, ty: COLON },
                stack: s,
            };
            assert(step(m0, buf, md, ml) == GStep::Next(m1));
            if i >= 0 {
                let ds = dec_rep(i);
                let k = ds.len() as int;
                lemma_dec_rep_digits(i);
                assert(buf.subrange(pos + 1, pos + 1 + k) =~= ds) by {
                    assert forall|j: int| 0 <= j < k implies #[trigger] (buf.subrange(
                        pos + 1,
                        pos + 1 + k,
                    )[j]) == ds[j] by {
                        assert(buf.subrange(pos + 1, pos + 1 + k)[j] == buf[pos + 1 + j]);
                        assert(buf[pos + 1 + j] == enc[1 + j]);
                        assert(enc[1 + j] == int_rep(i)[j]);
                    }
                }
                lemma_consume_digits(
                    s,
                    buf,
                    pos + 1,
                    0,
                    false,
                    COLON,
                    ds,
                    md,
                    ml,
                    (fuel + 1) as nat,
                );
                let m2 = Machine {
                    state: GState::Length { pos: pos + 1 + k, acc: i, neg: false, ty: COLON },
                    stack: s,
                };
                assert(buf[pos + 1 + k] == CR && buf[pos + 2 + k] == LF);
                assert(step(m2, buf, md, ml) == absorb(s, v, pos + 3 + k));
            lemma_absorb_shape(s, v, pos + 3 + k);
                assert(pos + 3 + k == pos + elen);
                assert(run(m0, buf, md, ml, (fuel + cost(v)) as nat) == run(
                    m1,
                    buf,
                    md,
                    ml,
                    ((fuel + 1) + ds.len()) as nat,
                ));
                assert(run(m2, buf, md, ml, (fuel + 1) as nat) == absorb_run(
                    s,
                    v,
                    pos + elen,
                    buf,
                    md,
                    ml,
                    fuel,
                ));
            } else {
                let ds = dec_rep(-i);
                let k = ds.len() as int;
                lemma_dec_rep_digits(-i);
                assert(enc[1] == MINUS);
                let m1b = Machine {
                    state: GState::Length { pos: pos + 2, acc: 0, neg: true, ty: COLON },
                    stack: s,
                };
                assert(step(m1, buf, md, ml) == GStep::Next(m1b));
                assert(buf.subrange(pos + 2, pos + 2 + k) =~= ds) by {
                    assert forall|j: int| 0 <= j < k implies #[trigger] (buf.subrange(
                        pos + 2,
                        pos + 2 + k,
                    )[j]) == ds[j] by {
                        assert(buf.subrange(pos + 2, pos + 2 + k)[j] == buf[pos + 2 + j]);
                        assert(buf[pos + 2 + j] == enc[2 + j]);
                        assert(enc[2 + j] == int_rep(i)[1 + j]);
                    }
                }
                lemma_consume_digits(
                    s,
                    buf,
                    pos + 2,
                    0,
                    true,
                    COLON,
                    ds,
                    md,
                    ml,
                    (fuel + 1) as nat,
                );
                let m2 = Machine {
                    state: GState::Length { pos: pos + 2 + k, acc: -i, neg: true, ty: COLON },
                    stack: s,
                };
                assert(buf[pos + 2 + k] == CR && buf[pos + 3 + k] == LF);
                assert(step(m2, buf, md, ml) == absorb(s, v, pos + 4 + k));
            lemma_absorb_shape(s, v, pos + 4 + k);
                assert(pos + 4 + k == pos + elen);
                assert(run(m0, buf, md, ml, (fuel + cost(v)) as nat) == run(
                    m1,
                    buf,
                    md,
                    ml,
                    (fuel + 2 + ds.len()) as nat,
                ));
                assert(run(m1, buf, md, ml, (fuel + 2 + ds.len()) as nat) == run(
                    m1b,
                    buf,
                    md,
                    ml,
                    ((fuel + 1) + ds.len()) as nat,
                ));
                assert(run(m2, buf, md, ml, (fuel + 1) as nat) == absorb_run(
                    s,
                    v,
                    pos + elen,
                    buf,
                    md,
                    ml,
                    fuel,
                ));
            }
                },
        _ => {
        },
    }
}

#[verifier::rlimit(100)]
proof fn lemma_parse_null(
    v: RespData,
    s: Seq<GFrame>,
    buf: Seq<u8>,
    pos: int,
    md: int,
    ml: int,
    fuel: nat,
)
    requires
        data_wf(v, md - s.len(), ml),
        s.len() <= md,
        0 <= pos,
        pos + spec_encode(v).len() <= buf.len(),
        buf.subrange(pos, pos + spec_encode(v).len() as int) == spec_encode(v),
        v matches RespData::Null,
    ensures
        run(
            Machine { state: GState::Idle { pos }, stack: s },
            buf,
            md,
            ml,
            (fuel + cost(v)) as nat,
        ) == absorb_run(s, v, pos + spec_encode(v).len(), buf, md, ml, fuel),
    decreases v, 0int,
{
    let enc = spec_encode(v);
    let elen = enc.len() as int;
    let m0 = Machine { state: GState::Idle { pos }, stack: s };
    assert forall|j: int| pos <= j < pos + elen implies #[trigger] buf[j] == enc[j - pos] by {
        lemma_slice_index(buf, pos, elen, j - pos);
    }
    match v {
        RespData::Null => {
            assert(enc =~= seq![DOLLAR, MINUS, 49u8, CR, LF]);
            let m1 = Machine {
                state: GState::Length { pos: pos + 1, acc: 0, neg: false, ty: DOLLAR },
                stack: s,
            };
            let m2 = Machine {
                state: GState::Length { pos: pos + 2, acc: 0, neg: true, ty: DOLLAR },
                stack: s,
            };
            let m3 = Machine {
                state: GState::Length { pos: pos + 3, acc: 1, neg: true, ty: DOLLAR },
                stack: s,
            };
            assert(step(m0, buf, md, ml) == GStep::Next(m1));
            assert(step(m1, buf, md, ml) == GStep::Next(m2));
            assert(step(m2, buf, md, ml) == GStep::Next(m3));
            assert(step(m3, buf, md, ml) == absorb(s, v, pos + 5));
            lemma_absorb_shape(s, v, pos + 5);
            assert(run(m0, buf, md, ml, (fuel + 4) as nat) == run(
                m1,
                buf,
                md,
                ml,
                (fuel + 3) as nat,
            ));
            assert(run(m1, buf, md, ml, (fuel + 3) as nat) == run(
                m2,
                buf,
                md,
                ml,
                (fuel + 2) as nat,
            ));
            assert(run(m2, buf, md, ml, (fuel + 2) as nat) == run(
                m3,
                buf,
                md,
                ml,
                (fuel + 1) as nat,
            ));
            assert(run(m3, buf, md, ml, (fuel + 1) as nat) == absorb_run(
                s,
                v,
                pos + elen,
                buf,
                md,
                ml,
                fuel,
            ));
                },
        _ => {
        },
    }
}

#[verifier::rlimit(100)]
proof fn lemma_parse_null_array(
    v: RespData,
    s: Seq<GFrame>,
    buf: Seq<u8>,
    pos: int,
    md: int,
    ml: int,
    fuel: nat,
)
    requires
        data_wf(v, md - s.len(), ml),
        s.len() <= md,
        0 <= pos,
        pos + spec_encode(v).len() <= buf.len(),
        buf.subrange(pos, pos + spec_encode(v).len() as int) == spec_encode(v),
        v matches RespData::Array(None),
    ensures
        run(
            Machine { state: GState::Idle { pos }, stack: s },
            buf,
            md,
            ml,
            (fuel + cost(v)) as nat,
        ) == absorb_run(s, v, pos + spec_encode(v).len(), buf, md, ml, fuel),
    decreases v, 0int,
{
    let enc = spec_encode(v);
    let elen = enc.len() as int;
    let m0 = Machine { state: GState::Idle { pos }, stack: s };
    assert forall|j: int| pos <= j < pos + elen implies #[trigger] buf[j] == enc[j - pos] by {
        lemma_slice_index(buf, pos, elen, j - pos);
    }
    match v {
        RespData::Array(None) => {
            assert(enc =~= seq![STAR, MINUS, 49u8, CR, LF]);
            let m1 = Machine {
                state: GState::Length { pos: pos + 1, acc: 0, neg: false, ty: STAR },
                stack: s,
            };
            let m2 = Machine {
                state: GState::Length { pos: pos + 2, acc: 0, neg: true, ty: STAR },
                stack: s,
            };
            let m3 = Machine {
                state: GState::Length { pos: pos + 3, acc: 1, neg: true, ty: STAR },
                stack: s,
            };
            assert(step(m0, buf, md, ml) == GStep::Next(m1));
            assert(step(m1, buf, md, ml) == GStep::Next(m2));
            assert(step(m2, buf, md, ml) == GStep::Next(m3));
            assert(step(m3, buf, md, ml) == absorb(s, v, pos + 5));
            lemma_absorb_shape(s, v, pos + 5);
            assert(run(m0, buf, md, ml, (fuel + 4) as nat) == run(
                m1,
                buf,
                md,
                ml,
                (fuel + 3) as nat,
            ));
            assert(run(m1, buf, md, ml, (fuel + 3) as nat) == run(
                m2,
                buf,
                md,
                ml,
                (fuel + 2) as nat,
            ));
            assert(run(m2, buf, md, ml, (fuel + 2) as nat) == run(
                m3,
                buf,
                md,
                ml,
                (fuel + 1) as nat,
            ));
            assert(run(m3, buf, md, ml, (fuel + 1) as nat) == absorb_run(
                s,
                v,
                pos + elen,
                buf,
                md,
                ml,
                fuel,
            ));
                },
        _ => {
        },
    }
}

#[verifier::rlimit(100)]
proof fn lemma_parse_bulk(
    v: RespData,
    s: Seq<GFrame>,
    buf: Seq<u8>,
    pos: int,
    md: int,
    ml: int,
    fuel: nat,
)
    requires
        data_wf(v, md - s.len(), ml),
        s.len() <= md,
        0 <= pos,
        pos + spec_encode(v).len() <= buf.len(),
        buf.subrange(pos, pos + spec_encode(v).len() as int) == spec_encode(v),
        v matches RespData::BulkString(_),
    ensures
        run(
            Machine { state: GState::Idle { pos }, stack: s },
            buf,
            md,
            ml,
            (fuel + cost(v)) as nat,
        ) == absorb_run(s, v, pos + spec_encode(v).len(), buf, md, ml, fuel),
    decreases v, 0int,
{
    let enc = spec_encode(v);
    let elen = enc.len() as int;
    let m0 = Machine { state: GState::Idle { pos }, stack: s };
    assert forall|j: int| pos <= j < pos + elen implies #[trigger] buf[j] == enc[j - pos] by {
        lemma_slice_index(buf, pos, elen, j - pos);
    }
    match v {
        RespData::BulkString(Some(b)) => {
            assert(enc[0] == DOLLAR);
            let n = b.len() as int;
            let ds = dec_rep(n);
            let k = ds.len() as int;
            lemma_dec_rep_digits(n);
            let m1 = Machine {
                state: GState::Length { pos: pos + 1, acc: 0, neg: false, ty: DOLLAR },
                stack: s,
            };
            assert(step(m0, buf, md, ml) == GStep::Next(m1));
            assert(buf.subrange(pos + 1, pos + 1 + k) =~= ds) by {
                assert forall|j: int| 0 <= j < k implies #[trigger] (buf.subrange(
                    pos + 1,
                    pos + 1 + k,
                )[j]) == ds[j] by {
                    assert(buf.subrange(pos + 1, pos + 1 + k)[j] == buf[pos + 1 + j]);
                    assert(buf[pos + 1 + j] == enc[1 + j]);
                }
            }
            lemma_consume_digits(s, buf, pos + 1, 0, false, DOLLAR, ds, md, ml, (fuel + 2) as nat);
            let m2 = Machine {
                state: GState::Length { pos: pos + 1 + k, acc: n, neg: false, ty: DOLLAR },
                stack: s,
            };
            assert(buf[pos + 1 + k] == CR && buf[pos + 2 + k] == LF);
            let start = pos + 3 + k;
            let m3 = Machine { state: GState::Bulk { start, len: n }, stack: s };
            assert(step(m2, buf, md, ml) == GStep::Next(m3));
            assert(buf[start + n] == CR && buf[start + n + 1] == LF) by {
                assert(buf[pos + (3 + k + n)] == enc[3 + k + n]);
                assert(buf[pos + (4 + k + n)] == enc[4 + k + n]);
            }
            assert(buf.len() >= start + n + 2);
            assert(buf.subrange(start, start + n) =~= b) by {
                assert forall|j: int| 0 <= j < n implies #[trigger] (buf.subrange(
                    start,
                    start + n,
                )[j]) == b[j] by {
                    assert(buf.subrange(start, start + n)[j] == buf[pos + (3 + k + j)]);
                    assert(buf[pos + (3 + k + j)] == enc[3 + k + j]);
                }
            }
            assert(step(m3, buf, md, ml) == absorb(s, v, start + n + 2));
            lemma_absorb_shape(s, v, start + n + 2);
            assert(start + n + 2 == pos + elen);
            assert(run(m0, buf, md, ml, (fuel + cost(v)) as nat) == run(
                m1,
                buf,
                md,
                ml,
                ((fuel + 2) + ds.len()) as nat,
            ));
            assert(run(m2, buf, md, ml, (fuel + 2) as nat) == run(m3, buf, md, ml, (fuel
                + 1) as nat));
            assert(run(m3, buf, md, ml, (fuel + 1) as nat) == absorb_run(
                s,
                v,
                pos + elen,
                buf,
                md,
                ml,
                fuel,
            ));
                },
        RespData::BulkString(None) => {
            assert(false);
        },
        _ => {
        },
    }
}

#[verifier::rlimit(100)]
proof fn lemma_parse_array(
    v: RespData,
    s: Seq<GFrame>,
    buf: Seq<u8>,
    pos: int,
    md: int,
    ml: int,
    fuel: nat,
)
    requires
        data_wf(v, md - s.len(), ml),
        s.len() <= md,
        0 <= pos,
        pos + spec_encode(v).len() <= buf.len(),
        buf.subrange(pos, pos + spec_encode(v).len() as int) == spec_encode(v),
        v matches RespData::Array(Some(_)),
    ensures
        run(
            Machine { state: GState::Idle { pos }, stack: s },
            buf,
            md,
            ml,
            (fuel + cost(v)) as nat,
        ) == absorb_run(s, v, pos + spec_encode(v).len(), buf, md, ml, fuel),
    decreases v, 0int,
{
    let enc = spec_encode(v);
    let elen = enc.len() as int;
    let m0 = Machine { state: GState::Idle { pos }, stack: s };
    assert forall|j: int| pos <= j < pos + elen implies #[trigger] buf[j] == enc[j - pos] by {
        lemma_slice_index(buf, pos, elen, j - pos);
    }
    match v {
        RespData::Array(Some(es)) => {
            assert(enc[0] == STAR);
            let n = es.len() as int;
            let ds = dec_rep(n);
            let k = ds.len() as int;
            lemma_dec_rep_digits(n);
            let m1 = Machine {
                state: GState::Length { pos: pos + 1, acc: 0, neg: false, ty: STAR },
                stack: s,
            };
            assert(step(m0, buf, md, ml) == GStep::Next(m1));
            assert(buf.subrange(pos + 1, pos + 1 + k) =~= ds) by {
                assert forall|j: int| 0 <= j < k implies #[trigger] (buf.subrange(
                    pos + 1,
                    pos + 1 + k,
                )[j]) == ds[j] by {
                    assert(buf.subrange(pos + 1, pos + 1 + k)[j] == buf[pos + 1 + j]);
                    assert(buf[pos + 1 + j] == enc[1 + j]);
                }
            }
            lemma_consume_digits(s, buf, pos + 1, 0, false, STAR, ds, md, ml, (fuel + 1 + cost_seq(es)) as nat);
            let m2 = Machine {
                state: GState::Length { pos: pos + 1 + k, acc: n, neg: false, ty: STAR },
                stack: s,
            };
            assert(buf[pos + 1 + k] == CR && buf[pos + 2 + k] == LF);
            assert(run(m0, buf, md, ml, (fuel + cost(v)) as nat) == run(
                m1,
                buf,
                md,
                ml,
                ((fuel + 1 + cost_seq(es)) + ds.len()) as nat,
            ));
            if n == 0 {
                assert(step(m2, buf, md, ml) == absorb(
                    s,
                    RespData::Array(Some(Seq::empty())),
                    pos + 3 + k,
                ));
            lemma_absorb_shape(s, RespData::Array(Some(Seq::empty())), pos + 3 + k);
                assert(es =~= Seq::<RespData>::empty());
                assert(pos + 3 + k == pos + elen) by {
                    assert(encode_seq(es) =~= Seq::<u8>::empty());
                }
                assert(cost_seq(es) == 0);
                assert(run(m2, buf, md, ml, (fuel + 1) as nat) == absorb_run(
                    s,
                    v,
                    pos + elen,
                    buf,
                    md,
                    ml,
                    fuel,
                ));
            } else {
                let s2 = s.push(GFrame { total: n, elems: Seq::empty() });
                let start = pos + 3 + k;
                let m3 = Machine { state: GState::Idle { pos: start }, stack: s2 };
                assert(s.len() < md);
                assert(step(m2, buf, md, ml) == GStep::Next(m3));
                assert(buf.subrange(start, start + encode_seq(es).len() as int) =~= encode_seq(
                    es,
                )) by {
                    assert forall|j: int| 0 <= j < encode_seq(es).len() implies #[trigger] (
                    buf.subrange(start, start + encode_seq(es).len() as int)[j]) == encode_seq(
                        es,
                    )[j] by {
                        assert(buf.subrange(start, start + encode_seq(es).len() as int)[j] == buf[
                            pos + (3 + k + j)]);
                        assert(buf[pos + (3 + k + j)] == enc[3 + k + j]);
                    }
                }
                lemma_parse_elems(es, Seq::empty(), n, s, buf, start, md, ml, fuel);
                assert(Seq::<RespData>::empty() + es =~= es);
                assert(start + encode_seq(es).len() == pos + elen);
                assert(run(m2, buf, md, ml, ((fuel + cost_seq(es)) + 1) as nat) == run(
                    m3,
                    buf,
                    md,
                    ml,
                    (fuel + cost_seq(es)) as nat,
                ));
            }
                },
        _ => {
        },
    }
}

/// Parses a run of element encodings into the just-opened innermost frame;
/// the frame closes on its last element and the finished array bubbles out.
proof fn lemma_parse_elems(
    es_rest: Seq<RespData>,
    done: Seq<RespData>,
    total: int,
    s: Seq<GFrame>,
    buf: Seq<u8>,
    pos: int,
    md: int,
    ml: int,
    fuel: nat,
)
    requires
        total == done.len() + es_rest.len(),
        es_rest.len() >= 1,
        data_wf_all(es_rest, md - s.len() - 1, ml),
        s.len() + 1 <= md,
        0 <= pos,
        pos + encode_seq(es_rest).len() <= buf.len(),
        buf.subrange(pos, pos + encode_seq(es_rest).len() as int) == encode_seq(es_rest),
    ensures
        run(
            Machine {
                state: GState::Idle { pos },
                stack: s.push(GFrame { total, elems: done }),
            },
            buf,
            md,
            ml,
            (fuel + cost_seq(es_rest)) as nat,
        ) == absorb_run(
            s,
            RespData::Array(Some(done + es_rest)),
            pos + encode_seq(es_rest).len(),
            buf,
            md,
            ml,
            fuel,
        ),
    decreases es_rest, 2int,
{
    let e0 = es_rest[0];
    let enc0 = spec_encode(e0);
    let rest = es_rest.drop_first();
    let s2 = s.push(GFrame { total, elems: done });
    assert(encode_seq(es_rest) == enc0 + encode_seq(rest));
    assert(buf.subrange(pos, pos + enc0.len() as int) =~= enc0) by {
        assert forall|j: int| 0 <= j < enc0.len() implies #[trigger] (buf.subrange(
            pos,
            pos + enc0.len() as int,
        )[j]) == enc0[j] by {
            assert(buf.subrange(pos, pos + enc0.len() as int)[j] == buf[pos + j]);
            lemma_slice_index(buf, pos, encode_seq(es_rest).len() as int, j);
            assert((enc0 + encode_seq(rest))[j] == enc0[j]);
        }
    }
    lemma_data_wf_all_index(es_rest, md - s.len() - 1, ml, 0);
    lemma_parse_value(e0, s2, buf, pos, md, ml, (fuel + cost_seq(rest)) as nat);
    let end1 = pos + enc0.len() as int;
    let elems2 = done.push(e0);
    assert(s2.drop_last() =~= s);
    assert(s2.last() == (GFrame { total, elems: done }));
    if es_rest.len() == 1 {
        assert(elems2.len() == total);
        assert(absorb(s2, e0, end1) == absorb(s, RespData::Array(Some(elems2)), end1));
        assert(elems2 =~= done + es_rest);
        assert(encode_seq(rest) =~= Seq::<u8>::empty());
        assert(end1 == pos + encode_seq(es_rest).len());
        assert(cost_seq(rest) == 0);
        assert(cost_seq(es_rest) == cost(e0));
    } else {
        assert(elems2.len() < total);
        let s3 = s.push(GFrame { total, elems: elems2 });
        let m3 = Machine { state: GState::Idle { pos: end1 }, stack: s3 };
        assert(s2.drop_last().push(GFrame { total, elems: elems2 }) =~= s3);
        assert(absorb(s2, e0, end1) == GStep::Next(m3));
        assert(buf.subrange(end1, end1 + encode_seq(rest).len() as int) =~= encode_seq(rest)) by {
            assert forall|j: int| 0 <= j < encode_seq(rest).len() implies #[trigger] (buf.subrange(
                end1,
                end1 + encode_seq(rest).len() as int,
            )[j]) == encode_seq(rest)[j] by {
                assert(buf.subrange(end1, end1 + encode_seq(rest).len() as int)[j] == buf[end1
                    + j]);
                lemma_slice_index(buf, pos, encode_seq(es_rest).len() as int, enc0.len() as int
                    + j);
                assert((enc0 + encode_seq(rest))[enc0.len() as int + j] == encode_seq(rest)[j]);
            }
        }
        assert(data_wf_all(rest, md - s.len() - 1, ml));
        lemma_parse_elems(rest, elems2, total, s, buf, end1, md, ml, fuel);
        assert(elems2 + rest =~= done + es_rest);
        assert(end1 + encode_seq(rest).len() == pos + encode_seq(es_rest).len());
    }
}

/// Round trip: the wire bytes of every representable value decode back to
/// exactly that value, consuming exactly those bytes, whatever limits the
/// parser was built with, given transition budget enough for the value.
pub proof fn theorem_round_trip(v: RespData, md: int, ml: int, fuel: nat)
    requires
        0 <= md,
        data_wf(v, md, ml),
        fuel >= cost(v),
    ensures
        run(init_machine(), spec_encode(v), md, ml, fuel) == GRun::Done(
            v,
            spec_encode(v).len() as int,
        ),
{
    let buf = spec_encode(v);
    assert(buf.subrange(0, buf.len() as int) =~= buf);
    lemma_parse_value(v, Seq::empty(), buf, 0, md, ml, (fuel - cost(v)) as nat);
    assert(absorb(Seq::empty(), v, buf.len() as int) == GStep::Done(v, buf.len() as int));
}

} // verus!

verus! {

/// A frame is consumed in at most two transitions per wire byte, so the
/// per-call transition budget suffices for any frame of at most half that
/// many bytes.
pub proof fn lemma_cost_bound(v: RespData)
    ensures
        cost(v) <= 2 * spec_encode(v).len(),
    decreases v, 1int,
{
    match v {
        RespData::Integer(i) => {
            assert(spec_encode(v).len() == 3 + int_rep(i).len());
        },
        RespData::BulkString(Some(b)) => {
            assert(spec_encode(v).len() == 5 + dec_rep(b.len() as int).len() + b.len());
        },
        RespData::Array(Some(es)) => {
            lemma_cost_seq_bound(es);
            assert(spec_encode(v).len() == 3 + dec_rep(es.len() as int).len() + encode_seq(
                es,
            ).len());
        },
        _ => {
        },
    }
}

/// Elements in a row cost at most two transitions per wire byte.
proof fn lemma_cost_seq_bound(es: Seq<RespData>)
    ensures
        cost_seq(es) <= 2 * encode_seq(es).len(),
    decreases es, 0int,
{
    if es.len() > 0 {
        lemma_cost_bound(es[0]);
        lemma_cost_seq_bound(es.drop_first());
    }
}

} // verus!

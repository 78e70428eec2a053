use vstd::prelude::*;
use crate::resp::{RespData, CR, LF, PLUS, MINUS, COLON, DOLLAR, STAR, ZERO, NINE};

verus! {

/// How a parse attempt ends.
///
/// `NeedMoreData` is the one non-terminal kind: the frame seen so far is a
/// prefix of a well-formed frame, and parsing resumes once bytes arrive.
#[derive(Debug, Clone, Copy, PartialEq, Eq, Structural)]
pub enum ParseError {
    InvalidPrefix,
    InvalidLength,
    InvalidIntegerFormat,
    MissingCRLF,
    Overflow,
    DepthExceeded,
    LengthExceeded,
    NeedMoreData,
    IterationLimit,
}

/// A resumable position of the parser's state machine, over mathematical
/// integers. Positions index into the unconsumed buffer.
pub enum GState {
    /// Expecting a type prefix byte at `pos`.
    Idle { pos: int },
    /// Accumulating the decimal after `:`, `$` or `*`; `acc` is the magnitude
    /// read so far, `neg` whether a leading minus was seen.
    Length { pos: int, acc: int, neg: bool, ty: u8 },
    /// Waiting for `len` payload bytes plus CRLF starting at `start`.
    Bulk { start: int, len: int },
    /// Scanning for CRLF from `pos` after `+`.
    Simple { pos: int },
    /// Scanning for CRLF from `pos` after `-`.
    ErrText { pos: int },
}

/// One pending array: how many elements it expects and those read so far.
pub struct GFrame {
    pub total: int,
    pub elems: Seq<RespData>,
}

/// The whole resumable state: the current position and the stack of open arrays.
pub struct Machine {
    pub state: GState,
    pub stack: Seq<GFrame>,
}

/// The outcome of one transition.
pub enum GStep {
    Next(Machine),
    More,
    Done(RespData, int),
    Fail(ParseError),
}

/// The outcome of a whole `try_parse` call: one frame ending at the given
/// offset, a suspension, or a terminal error.
pub enum GRun {
    Done(RespData, int),
    More(Machine),
    Fail(ParseError),
}

/// The machine of a parser that has seen nothing.
pub open spec fn init_machine() -> Machine {
    Machine { state: GState::Idle { pos: 0 }, stack: Seq::empty() }
}

/// The first position `p >= pos` where CR LF stands, if any.
pub open spec fn find_crlf(buf: Seq<u8>, pos: int) -> Option<int>
    decreases buf.len() - pos,
{
    if pos + 1 >= buf.len() {
        None
    } else if buf[pos] == CR && buf[pos + 1] == LF {
        Some(pos)
    } else {
        find_crlf(buf, pos + 1)
    }
}

pub proof fn lemma_find_crlf_some(buf: Seq<u8>, pos: int, p: int)
    requires
        find_crlf(buf, pos) == Some(p),
    ensures
        pos <= p,
        p + 1 < buf.len(),
        buf[p] == CR,
        buf[p + 1] == LF,
    decreases buf.len() - pos,
{
    if pos + 1 >= buf.len() {
    } else if buf[pos] == CR && buf[pos + 1] == LF {
    } else {
        lemma_find_crlf_some(buf, pos + 1, p);
    }
}

/// Hands a completed value ending at `end` to the innermost open array.
/// A frame that becomes full closes, and its array bubbles outward; with no
/// open array the value is the top-level result.
pub open spec fn absorb(stack: Seq<GFrame>, v: RespData, end: int) -> GStep
    decreases stack.len(),
{
    if stack.len() == 0 {
        GStep::Done(v, end)
    } else {
        let top = stack.last();
        let elems2 = top.elems.push(v);
        if elems2.len() < top.total {
            GStep::Next(
                Machine {
                    state: GState::Idle { pos: end },
                    stack: stack.drop_last().push(GFrame { total: top.total, elems: elems2 }),
                },
            )
        } else {
            absorb(stack.drop_last(), RespData::Array(Some(elems2)), end)
        }
    }
}

/// One transition of the machine on the buffer, per the RESP grammar:
/// dispatch on the prefix byte, read a decimal, take a bulk body, or scan to
/// CRLF. `max_depth` bounds the open arrays, `max_length` a bulk's length.
pub open spec fn step(m: Machine, buf: Seq<u8>, max_depth: int, max_length: int) -> GStep {
    match m.state {
        GState::Idle { pos } => {
            if pos >= buf.len() {
                GStep::More
            } else if buf[pos] == PLUS {
                GStep::Next(Machine { state: GState::Simple { pos: pos + 1 }, stack: m.stack })
            } else if buf[pos] == MINUS {
                GStep::Next(Machine { state: GState::ErrText { pos: pos + 1 }, stack: m.stack })
            } else if buf[pos] == COLON || buf[pos] == DOLLAR || buf[pos] == STAR {
                GStep::Next(
                    Machine {
                        state: GState::Length { pos: pos + 1, acc: 0, neg: false, ty: buf[pos] },
                        stack: m.stack,
                    },
                )
            } else {
                GStep::Fail(ParseError::InvalidPrefix)
            }
        },
        GState::Length { pos, acc, neg, ty } => {
            if pos >= buf.len() {
                GStep::More
            } else {
                let b = buf[pos];
                if ZERO <= b <= NINE {
                    let acc2 = acc * 10 + (b - ZERO);
                    if acc2 > i64::MAX {
                        GStep::Fail(ParseError::Overflow)
                    } else {
                        GStep::Next(
                            Machine {
                                state: GState::Length { pos: pos + 1, acc: acc2, neg, ty },
                                stack: m.stack,
                            },
                        )
                    }
                } else if b == MINUS {
                    if !neg && acc == 0 {
                        GStep::Next(
                            Machine {
                                state: GState::Length { pos: pos + 1, acc, neg: true, ty },
                                stack: m.stack,
                            },
                        )
                    } else if ty == COLON {
                        GStep::Fail(ParseError::InvalidIntegerFormat)
                    } else {
                        GStep::Fail(ParseError::InvalidLength)
                    }
                } else if b == CR {
                    if pos + 1 >= buf.len() {
                        GStep::More
                    } else if buf[pos + 1] == LF {
                        let n = if neg {
                            -acc
                        } else {
                            acc
                        };
                        let end = pos + 2;
                        if ty == COLON {
                            absorb(m.stack, RespData::Integer(n), end)
                        } else if ty == DOLLAR {
                            if n == -1 {
                                absorb(m.stack, RespData::Null, end)
                            } else if n < -1 {
                                GStep::Fail(ParseError::InvalidLength)
                            } else if n > max_length {
                                GStep::Fail(ParseError::LengthExceeded)
                            } else {
                                GStep::Next(
                                    Machine {
                                        state: GState::Bulk { start: end, len: n },
                                        stack: m.stack,
                                    },
                                )
                            }
                        } else if ty == STAR {
                            if n == -1 {
                                absorb(m.stack, RespData::Array(None), end)
                            } else if n < -1 {
                                GStep::Fail(ParseError::InvalidLength)
                            } else if n == 0 {
                                absorb(m.stack, RespData::Array(Some(Seq::empty())), end)
                            } else if m.stack.len() >= max_depth {
                                GStep::Fail(ParseError::DepthExceeded)
                            } else {
                                GStep::Next(
                                    Machine {
                                        state: GState::Idle { pos: end },
                                        stack: m.stack.push(
                                            GFrame { total: n, elems: Seq::empty() },
                                        ),
                                    },
                                )
                            }
                        } else {
                            GStep::Fail(ParseError::InvalidPrefix)
                        }
                    } else {
                        GStep::Fail(ParseError::MissingCRLF)
                    }
                } else if ty == COLON {
                    GStep::Fail(ParseError::InvalidIntegerFormat)
                } else {
                    GStep::Fail(ParseError::InvalidLength)
                }
            }
        },
        GState::Bulk { start, len } => {
            if buf.len() < start + len + 2 {
                GStep::More
            } else if buf[start + len] == CR && buf[start + len + 1] == LF {
                absorb(
                    m.stack,
                    RespData::BulkString(Some(buf.subrange(start, start + len))),
                    start + len + 2,
                )
            } else {
                GStep::Fail(ParseError::MissingCRLF)
            }
        },
        GState::Simple { pos } => {
            match find_crlf(buf, pos) {
                Some(p) => absorb(m.stack, RespData::SimpleString(buf.subrange(pos, p)), p + 2),
                None => GStep::More,
            }
        },
        GState::ErrText { pos } => {
            match find_crlf(buf, pos) {
                Some(p) => absorb(m.stack, RespData::Error(buf.subrange(pos, p)), p + 2),
                None => GStep::More,
            }
        },
    }
}

/// Runs the machine until it yields a frame, asks for more bytes, fails, or
/// exhausts `fuel` (the per-call transition budget).
pub open spec fn run(m: Machine, buf: Seq<u8>, max_depth: int, max_length: int, fuel: nat) -> GRun
    decreases fuel,
{
    if fuel == 0 {
        GRun::Fail(ParseError::IterationLimit)
    } else {
        match step(m, buf, max_depth, max_length) {
            GStep::Next(m2) => run(m2, buf, max_depth, max_length, (fuel - 1) as nat),
            GStep::More => GRun::More(m),
            GStep::Done(v, end) => GRun::Done(v, end),
            GStep::Fail(e) => GRun::Fail(e),
        }
    }
}

} // verus!

use vstd::prelude::*;
use crate::machine::{absorb, find_crlf, init_machine, run, step, GFrame, GRun, GState, GStep,
    Machine};
use crate::resp::{deep_seq, lemma_deep_seq, RespValue, CR, LF, PLUS, MINUS, COLON, DOLLAR, STAR,
    ZERO, NINE};

pub use crate::machine::ParseError;

verus! {

/// Upper bound on machine transitions per `try_parse` call: a fuse against a
/// caller that never sees progress.
pub const MAX_ITERATIONS: usize = 1000000;

/// `i64::MAX` as an unsigned constant, for overflow tests on digit accumulation.
const I64_MAX_U: u64 = 9223372036854775807;

/// A resumable position of the parser, with positions indexing its buffer.
#[derive(Debug, Clone, Copy, PartialEq, Eq, Structural)]
pub enum ParseState {
    /// Expecting a type prefix byte at `pos`.
    Idle { pos: usize },
    /// Accumulating the decimal after `:`, `$` or `*`; `value` is the
    /// magnitude so far, `negative` whether a leading minus was seen.
    ReadingLength { pos: usize, value: i64, negative: bool, type_char: u8 },
    /// Waiting for `remaining` payload bytes plus CRLF at `start_pos`.
    ReadingBulkString { start_pos: usize, remaining: usize },
    /// Scanning for CRLF from `pos` after `+`.
    ReadingSimpleString { pos: usize },
    /// Scanning for CRLF from `pos` after `-`.
    ReadingError { pos: usize },
}

/// One open array: how many elements it expects and those parsed so far.
pub struct Frame {
    pub total: i64,
    pub elements: Vec<RespValue>,
}

/// Incremental RESP parser: an append-only byte buffer plus the resumable
/// state and the stack of open arrays. Callers append bytes with `read_buf`
/// and drain complete frames with `try_parse`.
pub struct Parser {
    buffer: Vec<u8>,
    state: ParseState,
    stack: Vec<Frame>,
    max_depth: usize,
    max_length: usize,
}

impl ParseState {
    /// The machine-level state this stands for.
    pub open spec fn view_g(self) -> GState {
        match self {
            ParseState::Idle { pos } => GState::Idle { pos: pos as int },
            ParseState::ReadingLength { pos, value, negative, type_char } => GState::Length {
                pos: pos as int,
                acc: value as int,
                neg: negative,
                ty: type_char,
            },
            ParseState::ReadingBulkString { start_pos, remaining } => GState::Bulk {
                start: start_pos as int,
                len: remaining as int,
            },
            ParseState::ReadingSimpleString { pos } => GState::Simple { pos: pos as int },
            ParseState::ReadingError { pos } => GState::ErrText { pos: pos as int },
        }
    }
}

impl Frame {
    /// The machine-level frame this stands for.
    pub open spec fn view_g(self) -> GFrame {
        GFrame { total: self.total as int, elems: deep_seq(self.elements@) }
    }
}

/// The machine-level stack that a stack of frames stands for.
pub open spec fn stack_view(s: Seq<Frame>) -> Seq<GFrame> {
    Seq::new(s.len(), |i: int| s[i].view_g())
}

/// The outcome of one executable transition.
enum StepOut {
    Progress,
    More,
    Failed(ParseError),
    Done(RespValue, usize),
}

impl Parser {
    /// The machine this parser's state stands for.
    pub closed spec fn machine(self) -> Machine {
        Machine { state: self.state.view_g(), stack: stack_view(self.stack@) }
    }

    /// The bytes appended and not yet consumed.
    pub closed spec fn bytes(self) -> Seq<u8> {
        self.buffer@
    }

    /// The configured bound on array nesting.
    pub closed spec fn depth_limit(self) -> int {
        self.max_depth as int
    }

    /// The configured bound on a bulk string's length.
    pub closed spec fn length_limit(self) -> int {
        self.max_length as int
    }

    /// Internal consistency: the digit accumulator is a magnitude, and every
    /// open array expects at least one element.
    pub closed spec fn wf(self) -> bool {
        &&& match self.state {
            ParseState::ReadingLength { value, .. } => value >= 0,
            _ => true,
        }
        &&& forall|i: int|
            0 <= i < self.stack@.len() ==> (#[trigger] self.stack@[i]).total >= 1
    }

    /// A parser with an empty buffer, scanning for a frame.
    pub fn new(max_depth: usize, max_length: usize) -> (r: Parser)
        ensures
            r.wf(),
            r.machine() == init_machine(),
            r.bytes() == Seq::<u8>::empty(),
            r.depth_limit() == max_depth as int,
            r.length_limit() == max_length as int,
    {
        let r = Parser {
            buffer: Vec::new(),
            state: ParseState::Idle { pos: 0 },
            stack: Vec::new(),
            max_depth,
            max_length,
        };
        proof {
            assert(stack_view(r.stack@) =~= Seq::<GFrame>::empty());
        }
        r
    }

    /// Appends bytes to the buffer; the resumable state is untouched.
    pub fn read_buf(&mut self, buf: &[u8])
        requires
            old(self).wf(),
        ensures
            final(self).wf(),
            final(self).bytes() == old(self).bytes() + buf@,
            final(self).machine() == old(self).machine(),
            final(self).depth_limit() == old(self).depth_limit(),
            final(self).length_limit() == old(self).length_limit(),
    {
        crate::resp::push_all(&mut self.buffer, buf);
    }
}

/// Every machine a parser stands for has its positions inside the buffer's
/// index range.
pub proof fn lemma_parser_machine_wf(p: Parser)
    requires
        p.wf(),
    ensures
        crate::laws::m_wf(p.machine()),
{
}

proof fn lemma_deep_seq_push(s: Seq<RespValue>, v: RespValue)
    ensures
        deep_seq(s.push(v)) == deep_seq(s).push(v.deep()),
{
    lemma_deep_seq(s);
    lemma_deep_seq(s.push(v));
    assert(deep_seq(s.push(v)) =~= deep_seq(s).push(v.deep()));
}

proof fn lemma_digit_overflow(value: int, d: int)
    requires
        0 <= value,
        0 <= d <= 9,
    ensures
        (value * 10 + d > i64::MAX) <==> (value > (i64::MAX - d) / 10),
{
    let m = i64::MAX as int;
    let q = (m - d) / 10;
    vstd::arithmetic::div_mod::lemma_fundamental_div_mod(m - d, 10);
    assert(m - d == 10 * q + (m - d) % 10);
    vstd::arithmetic::div_mod::lemma_mod_bound(m - d, 10);
    if value > q {
        assert(value * 10 >= (q + 1) * 10) by (nonlinear_arith)
            requires
                value >= q + 1,
        ;
        assert(value * 10 + d > m);
    }
    if value <= q {
        assert(value * 10 <= q * 10) by (nonlinear_arith)
            requires
                value <= q,
        ;
        assert(value * 10 + d <= m);
    }
}

impl Parser {
    /// Hands a completed value to the innermost open array, closing frames
    /// that become full; with no open array the value is the result.
    #[verifier::loop_isolation(false)]
    fn absorb_value(&mut self, v: RespValue, end: usize) -> (r: StepOut)
        requires
            old(self).wf(),
        ensures
            final(self).wf(),
            final(self).buffer@ == old(self).buffer@,
            final(self).max_depth == old(self).max_depth,
            final(self).max_length == old(self).max_length,
            match r {
                StepOut::Progress => absorb(
                    stack_view(old(self).stack@),
                    v.deep(),
                    end as int,
                ) == GStep::Next(final(self).machine()),
                StepOut::Done(w, e) => absorb(stack_view(old(self).stack@), v.deep(), end as int)
                    == GStep::Done(w.deep(), e as int) && e == end,
                _ => false,
            },
    {
        let mut val = v;
        loop
            invariant
                self.wf(),
                self.buffer@ == old(self).buffer@,
                self.state == old(self).state,
                self.max_depth == old(self).max_depth,
                self.max_length == old(self).max_length,
                absorb(stack_view(old(self).stack@), v.deep(), end as int) == absorb(
                    stack_view(self.stack@),
                    val.deep(),
                    end as int,
                ),
            decreases self.stack@.len(),
        {
            let ghost pre_stack = self.stack@;
            if self.stack.len() == 0 {
                proof {
                    assert(stack_view(pre_stack).len() == 0);
                }
                return StepOut::Done(val, end);
            }
            let mut top = self.stack.pop().unwrap();
            let ghost pre_elems = top.elements@;
            top.elements.push(val);
            proof {
                assert(stack_view(pre_stack).last() == pre_stack.last().view_g());
                assert(stack_view(pre_stack).drop_last() =~= stack_view(pre_stack.drop_last()));
                assert(self.stack@ =~= pre_stack.drop_last());
                lemma_deep_seq(pre_elems);
                lemma_deep_seq(top.elements@);
                assert(top.elements@ =~= pre_elems.push(val));
            }
            if (top.elements.len() as u64) < (top.total as u64) {
                proof {
                    lemma_deep_seq_push(pre_elems, val);
                }
                let ghost with_elem = top;
                self.stack.push(top);
                self.state = ParseState::Idle { pos: end };
                proof {
                    assert(stack_view(self.stack@) =~= stack_view(pre_stack.drop_last()).push(
                        with_elem.view_g(),
                    ));
                }
                return StepOut::Progress;
            } else {
                proof {
                    lemma_deep_seq_push(pre_elems, val);
                }
                val = RespValue::Array(Some(top.elements));
            }
        }
    }
}

} // verus!

verus! {

/// The first position at or after `start` where CR LF stands in `buf`.
#[verifier::loop_isolation(false)]
fn find_crlf_exec(buf: &Vec<u8>, start: usize) -> (r: Option<usize>)
    ensures
        match r {
            Some(p) => find_crlf(buf@, start as int) == Some(p as int),
            None => find_crlf(buf@, start as int) is None,
        },
{
    let blen = buf.len();
    let mut i: usize = start;
    while i < blen && i + 1 < blen
        invariant
            start <= i,
            find_crlf(buf@, start as int) == find_crlf(buf@, i as int),
        decreases blen - i,
    {
        if buf[i] == CR && buf[i + 1] == LF {
            return Some(i);
        }
        i += 1;
    }
    None
}

/// The bytes of `buf` from `from` (inclusive) to `to` (exclusive).
#[verifier::loop_isolation(false)]
fn copy_range(buf: &Vec<u8>, from: usize, to: usize) -> (r: Vec<u8>)
    requires
        from <= to <= buf@.len(),
    ensures
        r@ == buf@.subrange(from as int, to as int),
{
    let mut out: Vec<u8> = Vec::new();
    let mut i: usize = from;
    while i < to
        invariant
            from <= i <= to,
            out@ == buf@.subrange(from as int, i as int),
        decreases to - i,
    {
        out.push(buf[i]);
        proof {
            assert(buf@.subrange(from as int, i + 1 as int) =~= buf@.subrange(
                from as int,
                i as int,
            ).push(buf@[i as int]));
        }
        i += 1;
    }
    out
}

impl Parser {
    /// One machine transition, mirrored on the executable state.
    fn advance_once(&mut self) -> (r: StepOut)
        requires
            old(self).wf(),
        ensures
            final(self).wf(),
            final(self).buffer@ == old(self).buffer@,
            final(self).max_depth == old(self).max_depth,
            final(self).max_length == old(self).max_length,
            ({
                let st = step(
                    old(self).machine(),
                    old(self).buffer@,
                    old(self).depth_limit(),
                    old(self).length_limit(),
                );
                match r {
                    StepOut::Progress => st == GStep::Next(final(self).machine()),
                    StepOut::More => st == GStep::More && final(self).machine() == old(
                        self,
                    ).machine(),
                    StepOut::Failed(e) => st == GStep::Fail(e),
                    StepOut::Done(w, e) => st == GStep::Done(w.deep(), e as int) && e <= old(
                        self,
                    ).buffer@.len(),
                }
            }),
    {
        let st = self.state;
        match st {
            ParseState::Idle { pos } => {
                if pos >= self.buffer.len() {
                    StepOut::More
                } else {
                    let b = self.buffer[pos];
                    if b == PLUS {
                        self.state = ParseState::ReadingSimpleString { pos: pos + 1 };
                        StepOut::Progress
                    } else if b == MINUS {
                        self.state = ParseState::ReadingError { pos: pos + 1 };
                        StepOut::Progress
                    } else if b == COLON || b == DOLLAR || b == STAR {
                        self.state = ParseState::ReadingLength {
                            pos: pos + 1,
                            value: 0,
                            negative: false,
                            type_char: b,
                        };
                        StepOut::Progress
                    } else {
                        StepOut::Failed(ParseError::InvalidPrefix)
                    }
                }
            },
            ParseState::ReadingLength { pos, value, negative, type_char } => {
                if pos >= self.buffer.len() {
                    StepOut::More
                } else {
                    let b = self.buffer[pos];
                    if b >= ZERO && b <= NINE {
                        let d = (b - ZERO) as i64;
                        proof {
                            lemma_digit_overflow(value as int, d as int);
                        }
                        if (value as u64) > (I64_MAX_U - (d as u64)) / 10 {
                            StepOut::Failed(ParseError::Overflow)
                        } else {
                            self.state = ParseState::ReadingLength {
                                pos: pos + 1,
                                value: value * 10 + d,
                                negative,
                                type_char,
                            };
                            StepOut::Progress
                        }
                    } else if b == MINUS {
                        if !negative && value == 0 {
                            self.state = ParseState::ReadingLength {
                                pos: pos + 1,
                                value,
                                negative: true,
                                type_char,
                            };
                            StepOut::Progress
                        } else if type_char == COLON {
                            StepOut::Failed(ParseError::InvalidIntegerFormat)
                        } else {
                            StepOut::Failed(ParseError::InvalidLength)
                        }
                    } else if b == CR {
                        if pos + 1 >= self.buffer.len() {
                            StepOut::More
                        } else if self.buffer[pos + 1] == LF {
                            let n: i64 = if negative {
                                -value
                            } else {
                                value
                            };
                            let end = pos + 2;
                            if type_char == COLON {
                                self.absorb_value(RespValue::Integer(n), end)
                            } else if type_char == DOLLAR {
                                if n == -1 {
                                    self.absorb_value(RespValue::Null, end)
                                } else if n < -1 {
                                    StepOut::Failed(ParseError::InvalidLength)
                                } else if (n as u64) > (self.max_length as u64) {
                                    StepOut::Failed(ParseError::LengthExceeded)
                                } else {
                                    self.state = ParseState::ReadingBulkString {
                                        start_pos: end,
                                        remaining: n as usize,
                                    };
                                    StepOut::Progress
                                }
                            } else if type_char == STAR {
                                if n == -1 {
                                    self.absorb_value(RespValue::Array(None), end)
                                } else if n < -1 {
                                    StepOut::Failed(ParseError::InvalidLength)
                                } else if n == 0 {
                                    let empty: Vec<RespValue> = Vec::new();
                                    self.absorb_value(RespValue::Array(Some(empty)), end)
                                } else if self.stack.len() >= self.max_depth {
                                    StepOut::Failed(ParseError::DepthExceeded)
                                } else {
                                    let elements: Vec<RespValue> = Vec::new();
                                    let ghost pre_stack = self.stack@;
                                    self.stack.push(Frame { total: n, elements });
                                    self.state = ParseState::Idle { pos: end };
                                    proof {
                                        assert(stack_view(self.stack@) =~= stack_view(
                                            pre_stack,
                                        ).push(self.stack@.last().view_g()));
                                    }
                                    StepOut::Progress
                                }
                            } else {
                                StepOut::Failed(ParseError::InvalidPrefix)
                            }
                        } else {
                            StepOut::Failed(ParseError::MissingCRLF)
                        }
                    } else if type_char == COLON {
                        StepOut::Failed(ParseError::InvalidIntegerFormat)
                    } else {
                        StepOut::Failed(ParseError::InvalidLength)
                    }
                }
            },
            ParseState::ReadingBulkString { start_pos, remaining } => {
                let blen = self.buffer.len();
                if blen < start_pos || blen - start_pos < 2 || blen - start_pos - 2 < remaining {
                    StepOut::More
                } else {
                    let crpos = start_pos + remaining;
                    if self.buffer[crpos] == CR && self.buffer[crpos + 1] == LF {
                        let payload = copy_range(&self.buffer, start_pos, crpos);
                        self.absorb_value(RespValue::BulkString(Some(payload)), crpos + 2)
                    } else {
                        StepOut::Failed(ParseError::MissingCRLF)
                    }
                }
            },
            ParseState::ReadingSimpleString { pos } => {
                match find_crlf_exec(&self.buffer, pos) {
                    Some(p) => {
                        proof {
                            crate::machine::lemma_find_crlf_some(
                                self.buffer@,
                                pos as int,
                                p as int,
                            );
                        }
                        let blen = self.buffer.len();
                        proof {
                            assert(p + 2 <= blen);
                        }
                        let text = copy_range(&self.buffer, pos, p);
                        self.absorb_value(RespValue::SimpleString(text), p + 2)
                    },
                    None => StepOut::More,
                }
            },
            ParseState::ReadingError { pos } => {
                match find_crlf_exec(&self.buffer, pos) {
                    Some(p) => {
                        proof {
                            crate::machine::lemma_find_crlf_some(
                                self.buffer@,
                                pos as int,
                                p as int,
                            );
                        }
                        let blen = self.buffer.len();
                        proof {
                            assert(p + 2 <= blen);
                        }
                        let text = copy_range(&self.buffer, pos, p);
                        self.absorb_value(RespValue::Error(text), p + 2)
                    },
                    None => StepOut::More,
                }
            },
        }
    }

    /// Advances the machine until one frame is complete, bytes run out, or a
    /// terminal error is found.
    ///
    /// The result and the parser afterwards are exactly what running the
    /// machine on the unconsumed bytes yields: on a frame, its bytes are
    /// consumed and the state reset; on `NeedMoreData`, nothing changes but
    /// the suspension point; on any other error, the buffer is discarded and
    /// the state reset.
    #[verifier::loop_isolation(false)]
    pub fn try_parse(&mut self) -> (r: Result<Option<RespValue>, ParseError>)
        requires
            old(self).wf(),
        ensures
            final(self).wf(),
            final(self).depth_limit() == old(self).depth_limit(),
            final(self).length_limit() == old(self).length_limit(),
            ({
                let out = run(
                    old(self).machine(),
                    old(self).bytes(),
                    old(self).depth_limit(),
                    old(self).length_limit(),
                    MAX_ITERATIONS as nat,
                );
                match out {
                    GRun::Done(v, end) => {
                        &&& (match r {
                            Ok(w) => w matches Some(u) && u.deep() == v,
                            Err(_) => false,
                        })
                        &&& final(self).bytes() == old(self).bytes().subrange(end, old(self).bytes().len() as int)
                        &&& final(self).machine() == init_machine()
                    },
                    GRun::More(m2) => {
                        &&& r == Err::<Option<RespValue>, ParseError>(ParseError::NeedMoreData)
                        &&& final(self).bytes() == old(self).bytes()
                        &&& final(self).machine() == m2
                    },
                    GRun::Fail(e) => {
                        &&& r == Err::<Option<RespValue>, ParseError>(e)
                        &&& final(self).bytes() == Seq::<u8>::empty()
                        &&& final(self).machine() == init_machine()
                    },
                }
            }),
    {
        let ghost m0 = self.machine();
        let ghost buf0 = self.buffer@;
        let ghost md = self.depth_limit();
        let ghost ml = self.length_limit();
        let mut iterations: usize = 0;
        loop
            invariant
                self.wf(),
                self.buffer@ == buf0,
                self.max_depth == old(self).max_depth,
                self.max_length == old(self).max_length,
                iterations <= MAX_ITERATIONS,
                run(m0, buf0, md, ml, MAX_ITERATIONS as nat) == run(
                    self.machine(),
                    buf0,
                    md,
                    ml,
                    (MAX_ITERATIONS - iterations) as nat,
                ),
            decreases MAX_ITERATIONS - iterations,
        {
            if iterations >= MAX_ITERATIONS {
                self.buffer.clear();
                self.state = ParseState::Idle { pos: 0 };
                self.stack.clear();
                proof {
                    assert(stack_view(self.stack@) =~= Seq::<GFrame>::empty());
                }
                return Err(ParseError::IterationLimit);
            }
            let out = self.advance_once();
            match out {
                StepOut::Progress => {
                    iterations += 1;
                },
                StepOut::More => {
                    return Err(ParseError::NeedMoreData);
                },
                StepOut::Failed(e) => {
                    self.buffer.clear();
                    self.state = ParseState::Idle { pos: 0 };
                    self.stack.clear();
                    proof {
                        assert(stack_view(self.stack@) =~= Seq::<GFrame>::empty());
                    }
                    return Err(e);
                },
                StepOut::Done(v, end) => {
                    let tail = self.buffer.split_off(end);
                    self.buffer = tail;
                    self.state = ParseState::Idle { pos: 0 };
                    self.stack.clear();
                    proof {
                        assert(stack_view(self.stack@) =~= Seq::<GFrame>::empty());
                    }
                    return Ok(Some(v));
                },
            }
        }
    }
}

} // verus!

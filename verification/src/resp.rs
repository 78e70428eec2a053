use vstd::prelude::*;

verus! {

/// ASCII bytes of the wire syntax.
pub const CR: u8 = 13;

pub const LF: u8 = 10;

pub const PLUS: u8 = 43;

pub const MINUS: u8 = 45;

pub const COLON: u8 = 58;

pub const DOLLAR: u8 = 36;

pub const STAR: u8 = 42;

pub const ZERO: u8 = 48;

pub const ONE: u8 = 49;

pub const NINE: u8 = 57;


/// One RESP protocol value: the in-memory form of a single wire frame.
///
/// `BulkString(None)` is the null bulk string (`$-1`), `Array(None)` the null
/// array (`*-1`). `Null` is the decoded form of a null bulk string.
#[derive(Debug, PartialEq)]
pub enum RespValue {
    SimpleString(Vec<u8>),
    Error(Vec<u8>),
    Integer(i64),
    BulkString(Option<Vec<u8>>),
    Array(Option<Vec<RespValue>>),
    Null,
}

/// Mathematical model of a RESP value: payloads as byte sequences, numbers as
/// unbounded integers. Contracts and the parser's machine speak in this type.
pub enum RespData {
    SimpleString(Seq<u8>),
    Error(Seq<u8>),
    Integer(int),
    BulkString(Option<Seq<u8>>),
    Array(Option<Seq<RespData>>),
    Null,
}

impl RespValue {
    /// The model that this executable value stands for.
    pub open spec fn deep(self) -> RespData
        decreases self,
    {
        match self {
            RespValue::SimpleString(s) => RespData::SimpleString(s@),
            RespValue::Error(s) => RespData::Error(s@),
            RespValue::Integer(i) => RespData::Integer(i as int),
            RespValue::BulkString(b) => RespData::BulkString(match b {
                Some(v) => Some(v@),
                None => None,
            }),
            RespValue::Array(a) => RespData::Array(match a {
                Some(elems) => Some(deep_seq(elems@)),
                None => None,
            }),
            RespValue::Null => RespData::Null,
        }
    }
}

/// The models of a sequence of executable values, in order.
pub open spec fn deep_seq(s: Seq<RespValue>) -> Seq<RespData>
    decreases s,
{
    if s.len() == 0 {
        Seq::empty()
    } else {
        seq![s[0].deep()] + deep_seq(s.drop_first())
    }
}

pub proof fn lemma_deep_seq(s: Seq<RespValue>)
    ensures
        deep_seq(s).len() == s.len(),
        forall|i: int| 0 <= i < s.len() ==> #[trigger] deep_seq(s)[i] == s[i].deep(),
    decreases s.len(),
{
    if s.len() > 0 {
        lemma_deep_seq(s.drop_first());
    }
}

/// The byte sequences that a vector of byte vectors stands for.
pub open spec fn bytes_seq(s: Seq<Vec<u8>>) -> Seq<Seq<u8>> {
    Seq::new(s.len(), |i: int| s[i]@)
}

/// The two-byte field terminator.
pub open spec fn crlf() -> Seq<u8> {
    seq![CR, LF]
}

/// Decimal digits of a nonnegative integer, most significant first.
pub open spec fn dec_rep(n: int) -> Seq<u8>
    recommends
        n >= 0,
    decreases n,
{
    if n < 10 {
        seq![(48 + n) as u8]
    } else {
        dec_rep(n / 10).push((48 + n % 10) as u8)
    }
}

/// ASCII decimal of a signed integer: a minus sign before the digits when negative.
pub open spec fn int_rep(n: int) -> Seq<u8> {
    if n < 0 {
        seq![MINUS] + dec_rep(-n)
    } else {
        dec_rep(n)
    }
}

/// The wire bytes of one frame, per the RESP grammar.
pub open spec fn spec_encode(v: RespData) -> Seq<u8>
    decreases v,
{
    match v {
        RespData::SimpleString(s) => seq![PLUS] + s + crlf(),
        RespData::Error(s) => seq![MINUS] + s + crlf(),
        RespData::Integer(i) => seq![COLON] + int_rep(i) + crlf(),
        RespData::BulkString(Some(b)) => seq![DOLLAR] + dec_rep(b.len() as int) + crlf() + b
            + crlf(),
        RespData::BulkString(None) => seq![DOLLAR] + int_rep(-1) + crlf(),
        RespData::Array(Some(es)) => seq![STAR] + dec_rep(es.len() as int) + crlf()
            + encode_seq(es),
        RespData::Array(None) => seq![STAR] + int_rep(-1) + crlf(),
        RespData::Null => seq![DOLLAR] + int_rep(-1) + crlf(),
    }
}

/// The wire bytes of a run of frames, one after the other.
pub open spec fn encode_seq(es: Seq<RespData>) -> Seq<u8>
    decreases es,
{
    if es.len() == 0 {
        Seq::empty()
    } else {
        spec_encode(es[0]) + encode_seq(es.drop_first())
    }
}

pub proof fn lemma_encode_seq_push(es: Seq<RespData>, x: RespData)
    ensures
        encode_seq(es.push(x)) == encode_seq(es) + spec_encode(x),
    decreases es.len(),
{
    if es.len() == 0 {
        assert(es.push(x).drop_first() =~= Seq::<RespData>::empty());
        assert(es.push(x)[0] == x);
        assert(encode_seq(Seq::<RespData>::empty()) == Seq::<u8>::empty());
        assert(encode_seq(es) == Seq::<u8>::empty());
        assert(encode_seq(es.push(x)) =~= encode_seq(es) + spec_encode(x));
    } else {
        assert(es.push(x).drop_first() =~= es.drop_first().push(x));
        lemma_encode_seq_push(es.drop_first(), x);
        assert(encode_seq(es.push(x)) =~= encode_seq(es) + spec_encode(x));
    }
}

/// A structural copy of a value; the copy stands for the same model.
#[verifier::loop_isolation(false)]
pub fn duplicate(v: &RespValue) -> (r: RespValue)
    ensures
        r.deep() == v.deep(),
    decreases v,
{
    match v {
        RespValue::SimpleString(s) => RespValue::SimpleString(copy_bytes(s)),
        RespValue::Error(s) => RespValue::Error(copy_bytes(s)),
        RespValue::Integer(i) => RespValue::Integer(*i),
        RespValue::BulkString(None) => RespValue::BulkString(None),
        RespValue::BulkString(Some(b)) => RespValue::BulkString(Some(copy_bytes(b))),
        RespValue::Null => RespValue::Null,
        RespValue::Array(None) => RespValue::Array(None),
        RespValue::Array(Some(elems)) => {
            let mut out: Vec<RespValue> = Vec::new();
            let mut i: usize = 0;
            while i < elems.len()
                invariant
                    i <= elems@.len(),
                    out@.len() == i,
                    forall|j: int| 0 <= j < i ==> #[trigger] out@[j].deep() == elems@[j].deep(),
                decreases elems@.len() - i,
            {
                let e = duplicate(&elems[i]);
                out.push(e);
                i += 1;
            }
            proof {
                lemma_deep_seq(out@);
                lemma_deep_seq(elems@);
                assert(deep_seq(out@) =~= deep_seq(elems@));
            }
            RespValue::Array(Some(out))
        },
    }
}

/// A copy of a byte vector.
pub fn copy_bytes(s: &Vec<u8>) -> (r: Vec<u8>)
    ensures
        r@ == s@,
{
    let mut out: Vec<u8> = Vec::new();
    let mut i: usize = 0;
    while i < s.len()
        invariant
            i <= s@.len(),
            out@ == s@.take(i as int),
        decreases s@.len() - i,
    {
        out.push(s[i]);
        proof {
            assert(s@.take(i + 1 as int) =~= s@.take(i as int).push(s@[i as int]));
        }
        i += 1;
    }
    proof {
        assert(s@.take(s@.len() as int) =~= s@);
    }
    out
}

/// Appends the bytes of `s` to `out`.
pub fn push_all(out: &mut Vec<u8>, s: &[u8])
    ensures
        final(out)@ == old(out)@ + s@,
{
    let mut i: usize = 0;
    while i < s.len()
        invariant
            i <= s@.len(),
            out@ == old(out)@ + s@.take(i as int),
        decreases s@.len() - i,
    {
        out.push(s[i]);
        proof {
            assert(old(out)@ + s@.take(i + 1 as int) =~= (old(out)@ + s@.take(i as int)).push(
                s@[i as int],
            ));
        }
        i += 1;
    }
    proof {
        assert(s@.take(s@.len() as int) =~= s@);
        assert(out@ =~= old(out)@ + s@);
    }
}

/// Appends the decimal digits of `n`.
pub fn push_dec(out: &mut Vec<u8>, n: u64)
    ensures
        final(out)@ == old(out)@ + dec_rep(n as int),
    decreases n,
{
    if n < 10 {
        out.push(ZERO + (n as u8));
        proof {
            assert(old(out)@ + dec_rep(n as int) =~= out@);
        }
    } else {
        push_dec(out, n / 10);
        out.push(ZERO + ((n % 10) as u8));
        proof {
            assert(old(out)@ + dec_rep(n as int) =~= out@);
        }
    }
}

/// Appends the signed decimal of `n`.
pub fn push_int(out: &mut Vec<u8>, n: i64)
    ensures
        final(out)@ == old(out)@ + int_rep(n as int),
{
    if n < 0 {
        out.push(MINUS);
        let mag: u64 = (-(n as i128)) as u64;
        proof {
            assert(mag as int == -(n as int));
        }
        push_dec(out, mag);
        proof {
            assert(old(out)@ + int_rep(n as int) =~= out@);
        }
    } else {
        push_dec(out, n as u64);
    }
}

/// Appends CR LF.
pub fn push_crlf(out: &mut Vec<u8>)
    ensures
        final(out)@ == old(out)@ + crlf(),
{
    out.push(CR);
    out.push(LF);
    proof {
        assert(old(out)@ + crlf() =~= out@);
    }
}

/// Appends the wire bytes of `v` to `out`.
#[verifier::loop_isolation(false)]
pub fn encode_into(out: &mut Vec<u8>, v: &RespValue)
    ensures
        final(out)@ == old(out)@ + spec_encode(v.deep()),
    decreases v,
{
    match v {
        RespValue::SimpleString(s) => {
            out.push(PLUS);
            push_all(out, s.as_slice());
            push_crlf(out);
            proof {
                assert(old(out)@ + spec_encode(v.deep()) =~= out@);
            }
        },
        RespValue::Error(s) => {
            out.push(MINUS);
            push_all(out, s.as_slice());
            push_crlf(out);
            proof {
                assert(old(out)@ + spec_encode(v.deep()) =~= out@);
            }
        },
        RespValue::Integer(i) => {
            out.push(COLON);
            push_int(out, *i);
            push_crlf(out);
            proof {
                assert(old(out)@ + spec_encode(v.deep()) =~= out@);
            }
        },
        RespValue::BulkString(Some(b)) => {
            out.push(DOLLAR);
            push_dec(out, b.len() as u64);
            push_crlf(out);
            push_all(out, b.as_slice());
            push_crlf(out);
            proof {
                assert(old(out)@ + spec_encode(v.deep()) =~= out@);
            }
        },
        RespValue::BulkString(None) | RespValue::Null => {
            out.push(DOLLAR);
            out.push(MINUS);
            out.push(ONE);
            push_crlf(out);
            proof {
                assert(int_rep(-1) =~= seq![MINUS, ONE]);
                assert(old(out)@ + spec_encode(v.deep()) =~= out@);
            }
        },
        RespValue::Array(None) => {
            out.push(STAR);
            out.push(MINUS);
            out.push(ONE);
            push_crlf(out);
            proof {
                assert(int_rep(-1) =~= seq![MINUS, ONE]);
                assert(old(out)@ + spec_encode(v.deep()) =~= out@);
            }
        },
        RespValue::Array(Some(elems)) => {
            out.push(STAR);
            push_dec(out, elems.len() as u64);
            push_crlf(out);
            let ghost header = out@;
            let mut i: usize = 0;
            while i < elems.len()
                invariant
                    i <= elems@.len(),
                    out@ == header + encode_seq(deep_seq(elems@.take(i as int))),
                decreases elems@.len() - i,
            {
                encode_into(out, &elems[i]);
                proof {
                    lemma_deep_seq(elems@.take(i as int));
                    lemma_deep_seq(elems@.take(i + 1 as int));
                    assert(deep_seq(elems@.take(i + 1 as int)) =~= deep_seq(
                        elems@.take(i as int),
                    ).push(elems@[i as int].deep()));
                    lemma_encode_seq_push(
                        deep_seq(elems@.take(i as int)),
                        elems@[i as int].deep(),
                    );
                }
                i += 1;
            }
            proof {
                assert(elems@.take(elems@.len() as int) =~= elems@);
                lemma_deep_seq(elems@);
                assert(old(out)@ + spec_encode(v.deep()) =~= out@);
            }
        },
    }
}

impl RespValue {
    /// The wire bytes of this value.
    pub fn encode(&self) -> (r: Vec<u8>)
        ensures
            r@ == spec_encode(self.deep()),
    {
        let mut out: Vec<u8> = Vec::new();
        encode_into(&mut out, self);
        out
    }
}

} // verus!

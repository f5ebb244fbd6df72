//! The encoder: `spec_encode` states the wire form of every model value, and
//! `encode` produces exactly those bytes.

use vstd::prelude::*;
use crate::resp::{FrameModel, RespFrame, frame_model, model_items, model_entries,
    lemma_model_items, lemma_model_entries};
use crate::digits::dec_digits;

verus! {

/// The two-byte line terminator.
pub open spec fn crlf() -> Seq<u8> {
    seq![13u8, 10u8]
}

/// The payload of an integer frame: a mandatory sign, then decimal digits.
pub open spec fn int_payload(i: i64) -> Seq<u8> {
    if i >= 0 {
        seq![43u8] + dec_digits(i as nat)
    } else {
        seq![45u8] + dec_digits((-(i as int)) as nat)
    }
}

/// The wire bytes of a model value, per variant:
/// `+s`, `-s`, `:sign digits`, `$len/payload`, `$-1`, `*count/items`, `_`,
/// `*-1`, `#t|#f`, `,payload`, `%count/key-value pairs`, `~count/items`,
/// each line closed by CRLF. Map keys are written as simple strings, in the
/// stored (ascending) order.
pub open spec fn spec_encode(m: FrameModel) -> Seq<u8>
    decreases m, 0int, 0int,
{
    match m {
        FrameModel::SimpleString(s) => seq![43u8] + s + crlf(),
        FrameModel::Error(s) => seq![45u8] + s + crlf(),
        FrameModel::Integer(i) => seq![58u8] + int_payload(i) + crlf(),
        FrameModel::BulkString(b) => seq![36u8] + dec_digits(b.len()) + crlf() + b + crlf(),
        FrameModel::NullBulkString => seq![36u8, 45u8, 49u8] + crlf(),
        FrameModel::Array(items) => seq![42u8] + dec_digits(items.len()) + crlf()
            + spec_encode_items(items, 0),
        FrameModel::Null => seq![95u8] + crlf(),
        FrameModel::NullArray => seq![42u8, 45u8, 49u8] + crlf(),
        FrameModel::Boolean(b) => if b {
            seq![35u8, 116u8] + crlf()
        } else {
            seq![35u8, 102u8] + crlf()
        },
        FrameModel::Double(d) => seq![44u8] + d + crlf(),
        FrameModel::MapFrame(es) => seq![37u8] + dec_digits(es.len()) + crlf()
            + spec_encode_entries(es, 0),
        FrameModel::SetFrame(items) => seq![126u8] + dec_digits(items.len()) + crlf()
            + spec_encode_items(items, 0),
    }
}

/// Concatenated encodings of `items[i..]`.
pub open spec fn spec_encode_items(items: Seq<FrameModel>, i: int) -> Seq<u8>
    decreases items, 1int, items.len() - i,
{
    if 0 <= i < items.len() {
        spec_encode(items[i]) + spec_encode_items(items, i + 1)
    } else {
        Seq::empty()
    }
}

/// Concatenated encodings of the entries of `es[i..]`: each key as a simple
/// string, then its value.
pub open spec fn spec_encode_entries(es: Seq<(Seq<u8>, FrameModel)>, i: int) -> Seq<u8>
    decreases es, 1int, es.len() - i,
{
    if 0 <= i < es.len() {
        (seq![43u8] + es[i].0 + crlf()) + (spec_encode(es[i].1) + spec_encode_entries(es, i + 1))
    } else {
        Seq::empty()
    }
}

fn push_crlf(out: &mut Vec<u8>)
    ensures
        final(out)@ == old(out)@ + crlf(),
{
    out.push(13);
    out.push(10);
    proof {
        assert(out@ =~= old(out)@ + crlf());
    }
}

/// Append all of `src`.
pub fn push_bytes(out: &mut Vec<u8>, src: &Vec<u8>)
    ensures
        final(out)@ == old(out)@ + src@,
{
    let ghost base = out@;
    let mut i: usize = 0;
    while i < src.len()
        invariant
            i <= src.len(),
            out@ == base + src@.subrange(0, i as int),
        decreases src.len() - i,
    {
        out.push(src[i]);
        proof {
            assert(base + src@.subrange(0, i + 1 as int) =~= (base + src@.subrange(0, i as int)).push(
                src@[i as int]));
        }
        i = i + 1;
    }
    proof {
        assert(src@.subrange(0, src@.len() as int) =~= src@);
    }
}

/// Append the decimal digits of `n`.
pub fn push_digits(n: u64, out: &mut Vec<u8>)
    ensures
        final(out)@ == old(out)@ + dec_digits(n as nat),
    decreases n,
{
    if n < 10 {
        out.push((48 + n) as u8);
        proof {
            assert(out@ =~= old(out)@ + dec_digits(n as nat));
        }
    } else {
        push_digits(n / 10, out);
        out.push((48 + (n % 10)) as u8);
        proof {
            assert(out@ =~= old(out)@ + dec_digits(n as nat));
        }
    }
}

/// Append the encoding of `f` to `out`.
pub fn encode_into(f: &RespFrame, out: &mut Vec<u8>)
    ensures
        final(out)@ == old(out)@ + spec_encode(frame_model(*f)),
    decreases *f, 0int, 0int,
{
    let ghost base = out@;
    match f {
        RespFrame::SimpleString(s) => {
            out.push(43);
            push_bytes(out, &s.0);
            push_crlf(out);
            proof {
                assert(out@ =~= base + spec_encode(frame_model(*f)));
            }
        },
        RespFrame::Error(e) => {
            out.push(45);
            push_bytes(out, &e.0);
            push_crlf(out);
            proof {
                assert(out@ =~= base + spec_encode(frame_model(*f)));
            }
        },
        RespFrame::Integer(i) => {
            out.push(58);
            if *i >= 0 {
                out.push(43);
                push_digits(*i as u64, out);
            } else {
                out.push(45);
                let m: u64 = ((-(*i + 1)) as u64) + 1;
                proof {
                    assert(m as int == -(*i as int));
                }
                push_digits(m, out);
            }
            push_crlf(out);
            proof {
                assert(out@ =~= base + spec_encode(frame_model(*f)));
            }
        },
        RespFrame::BulkString(b) => {
            out.push(36);
            push_digits(b.0.len() as u64, out);
            push_crlf(out);
            push_bytes(out, &b.0);
            push_crlf(out);
            proof {
                assert(out@ =~= base + spec_encode(frame_model(*f)));
            }
        },
        RespFrame::NullBulkString(_) => {
            out.push(36);
            out.push(45);
            out.push(49);
            push_crlf(out);
            proof {
                assert(out@ =~= base + spec_encode(frame_model(*f)));
            }
        },
        RespFrame::Null(_) => {
            out.push(95);
            push_crlf(out);
            proof {
                assert(out@ =~= base + spec_encode(frame_model(*f)));
            }
        },
        RespFrame::NullArray(_) => {
            out.push(42);
            out.push(45);
            out.push(49);
            push_crlf(out);
            proof {
                assert(out@ =~= base + spec_encode(frame_model(*f)));
            }
        },
        RespFrame::Boolean(b) => {
            out.push(35);
            if *b {
                out.push(116);
            } else {
                out.push(102);
            }
            push_crlf(out);
            proof {
                assert(out@ =~= base + spec_encode(frame_model(*f)));
            }
        },
        RespFrame::Double(d) => {
            out.push(44);
            push_bytes(out, &d.0);
            push_crlf(out);
            proof {
                assert(out@ =~= base + spec_encode(frame_model(*f)));
            }
        },
        RespFrame::Array(a) => {
            let ghost ms = model_items(a.0@, 0);
            proof {
                lemma_model_items(a.0@, 0);
            }
            out.push(42);
            push_digits(a.0.len() as u64, out);
            push_crlf(out);
            let ghost hdr = out@;
            let mut i: usize = 0;
            while i < a.0.len()
                invariant
                    *f == RespFrame::Array(*a),
                    i <= a.0.len(),
                    ms == model_items(a.0@, 0),
                    ms.len() == a.0@.len(),
                    forall|j: int| 0 <= j < a.0@.len() ==> ms[j] == frame_model(a.0@[j]),
                    out@ + spec_encode_items(ms, i as int) == hdr + spec_encode_items(ms, 0),
                decreases a.0.len() - i,
            {
                let ghost pre = out@;
                proof {
                    assert(decreases_to!(*f => f->Array_0));
                    assert(f->Array_0 == *a);
                    assert(decreases_to!(*a => a.0));
                    assert(decreases_to!(a.0 => a.0@));
                    assert(decreases_to!(a.0@ => a.0@[i as int]));
                }
                encode_into(&a.0[i], out);
                proof {
                    assert(out@ == pre + spec_encode(ms[i as int]));
                    assert(out@ + spec_encode_items(ms, i + 1 as int) =~= pre + spec_encode_items(
                        ms, i as int));
                }
                i = i + 1;
            }
            proof {
                assert(spec_encode_items(ms, a.0@.len() as int) =~= Seq::<u8>::empty());
                assert(out@ =~= out@ + spec_encode_items(ms, a.0@.len() as int));
                assert(out@ == hdr + spec_encode_items(ms, 0));
                assert(out@ =~= base + spec_encode(frame_model(*f)));
            }
        },
        RespFrame::SetFrame(s) => {
            let ghost ms = model_items(s.0@, 0);
            proof {
                lemma_model_items(s.0@, 0);
            }
            out.push(126);
            push_digits(s.0.len() as u64, out);
            push_crlf(out);
            let ghost hdr = out@;
            let mut i: usize = 0;
            while i < s.0.len()
                invariant
                    *f == RespFrame::SetFrame(*s),
                    i <= s.0.len(),
                    ms == model_items(s.0@, 0),
                    ms.len() == s.0@.len(),
                    forall|j: int| 0 <= j < s.0@.len() ==> ms[j] == frame_model(s.0@[j]),
                    out@ + spec_encode_items(ms, i as int) == hdr + spec_encode_items(ms, 0),
                decreases s.0.len() - i,
            {
                let ghost pre = out@;
                proof {
                    assert(decreases_to!(*f => f->SetFrame_0));
                    assert(f->SetFrame_0 == *s);
                    assert(decreases_to!(*s => s.0));
                    assert(decreases_to!(s.0 => s.0@));
                    assert(decreases_to!(s.0@ => s.0@[i as int]));
                }
                encode_into(&s.0[i], out);
                proof {
                    assert(out@ == pre + spec_encode(ms[i as int]));
                    assert(out@ + spec_encode_items(ms, i + 1 as int) =~= pre + spec_encode_items(
                        ms, i as int));
                }
                i = i + 1;
            }
            proof {
                assert(spec_encode_items(ms, s.0@.len() as int) =~= Seq::<u8>::empty());
                assert(out@ =~= out@ + spec_encode_items(ms, s.0@.len() as int));
                assert(out@ == hdr + spec_encode_items(ms, 0));
                assert(out@ =~= base + spec_encode(frame_model(*f)));
            }
        },
        RespFrame::MapFrame(m) => {
            let ghost es = model_entries(m.0@, 0);
            proof {
                lemma_model_entries(m.0@, 0);
            }
            out.push(37);
            push_digits(m.0.len() as u64, out);
            push_crlf(out);
            let ghost hdr = out@;
            let mut i: usize = 0;
            while i < m.0.len()
                invariant
                    *f == RespFrame::MapFrame(*m),
                    i <= m.0.len(),
                    es == model_entries(m.0@, 0),
                    es.len() == m.0@.len(),
                    forall|j: int| 0 <= j < m.0@.len() ==> es[j] == (
                    m.0@[j].0@,
                    frame_model(m.0@[j].1),
                    ),
                    out@ + spec_encode_entries(es, i as int) == hdr + spec_encode_entries(es, 0),
                decreases m.0.len() - i,
            {
                let ghost pre = out@;
                out.push(43);
                push_bytes(out, &m.0[i].0);
                push_crlf(out);
                let ghost mid = out@;
                proof {
                    assert(mid =~= pre + (seq![43u8] + es[i as int].0 + crlf()));
                }
                proof {
                    assert(decreases_to!(*f => f->MapFrame_0));
                    assert(f->MapFrame_0 == *m);
                    assert(decreases_to!(*m => m.0));
                    assert(decreases_to!(m.0 => m.0@));
                    assert(decreases_to!(m.0@ => m.0@[i as int]));
                    assert(decreases_to!(m.0@[i as int] => m.0@[i as int].1));
                }
                encode_into(&m.0[i].1, out);
                proof {
                    assert(out@ == mid + spec_encode(es[i as int].1));
                    assert(out@ + spec_encode_entries(es, i + 1 as int) =~= pre
                        + spec_encode_entries(es, i as int));
                }
                i = i + 1;
            }
            proof {
                assert(spec_encode_entries(es, m.0@.len() as int) =~= Seq::<u8>::empty());
                assert(out@ =~= out@ + spec_encode_entries(es, m.0@.len() as int));
                assert(out@ == hdr + spec_encode_entries(es, 0));
                assert(out@ =~= base + spec_encode(frame_model(*f)));
            }
        },
    }
}

/// Encode one frame: total, deterministic, and exactly the wire grammar.
pub fn encode(f: &RespFrame) -> (r: Vec<u8>)
    ensures
        r@ == spec_encode(frame_model(*f)),
{
    let mut out: Vec<u8> = Vec::new();
    encode_into(f, &mut out);
    proof {
        assert(out@ =~= spec_encode(frame_model(*f)));
    }
    out
}

} // verus!

verus! {

use crate::resp::{SimpleString, SimpleError, BulkString, RespArray, RespNull, RespNullArray,
    RespNullBulkString, RespDouble, RespMap, RespSet};

/// A value that can be written to the wire. `encode` consumes the value and
/// yields exactly the wire bytes of its model.
pub trait RespEncode {
    spec fn enc_model(&self) -> FrameModel;

    fn encode(self) -> (r: Vec<u8>) where Self: Sized
        ensures
            r@ == spec_encode(self.enc_model()),
    ;
}

impl RespEncode for RespFrame {
    open spec fn enc_model(&self) -> FrameModel {
        frame_model(*self)
    }

    fn encode(self) -> (r: Vec<u8>) {
        encode(&self)
    }
}

impl RespEncode for SimpleString {
    open spec fn enc_model(&self) -> FrameModel {
        FrameModel::SimpleString(self.0@)
    }

    fn encode(self) -> (r: Vec<u8>) {
        encode(&RespFrame::SimpleString(self))
    }
}

impl RespEncode for SimpleError {
    open spec fn enc_model(&self) -> FrameModel {
        FrameModel::Error(self.0@)
    }

    fn encode(self) -> (r: Vec<u8>) {
        encode(&RespFrame::Error(self))
    }
}

impl RespEncode for i64 {
    open spec fn enc_model(&self) -> FrameModel {
        FrameModel::Integer(*self)
    }

    fn encode(self) -> (r: Vec<u8>) {
        encode(&RespFrame::Integer(self))
    }
}

impl RespEncode for BulkString {
    open spec fn enc_model(&self) -> FrameModel {
        FrameModel::BulkString(self.0@)
    }

    fn encode(self) -> (r: Vec<u8>) {
        encode(&RespFrame::BulkString(self))
    }
}

impl RespEncode for RespNullBulkString {
    open spec fn enc_model(&self) -> FrameModel {
        FrameModel::NullBulkString
    }

    fn encode(self) -> (r: Vec<u8>) {
        encode(&RespFrame::NullBulkString(self))
    }
}

impl RespEncode for RespArray {
    open spec fn enc_model(&self) -> FrameModel {
        FrameModel::Array(model_items(self.0@, 0))
    }

    fn encode(self) -> (r: Vec<u8>) {
        encode(&RespFrame::Array(self))
    }
}

impl RespEncode for RespNull {
    open spec fn enc_model(&self) -> FrameModel {
        FrameModel::Null
    }

    fn encode(self) -> (r: Vec<u8>) {
        encode(&RespFrame::Null(self))
    }
}

impl RespEncode for RespNullArray {
    open spec fn enc_model(&self) -> FrameModel {
        FrameModel::NullArray
    }

    fn encode(self) -> (r: Vec<u8>) {
        encode(&RespFrame::NullArray(self))
    }
}

impl RespEncode for bool {
    open spec fn enc_model(&self) -> FrameModel {
        FrameModel::Boolean(*self)
    }

    fn encode(self) -> (r: Vec<u8>) {
        encode(&RespFrame::Boolean(self))
    }
}

impl RespEncode for RespDouble {
    open spec fn enc_model(&self) -> FrameModel {
        FrameModel::Double(self.0@)
    }

    fn encode(self) -> (r: Vec<u8>) {
        encode(&RespFrame::Double(self))
    }
}

impl RespEncode for RespMap {
    open spec fn enc_model(&self) -> FrameModel {
        FrameModel::MapFrame(model_entries(self.0@, 0))
    }

    fn encode(self) -> (r: Vec<u8>) {
        encode(&RespFrame::MapFrame(self))
    }
}

impl RespEncode for RespSet {
    open spec fn enc_model(&self) -> FrameModel {
        FrameModel::SetFrame(model_items(self.0@, 0))
    }

    fn encode(self) -> (r: Vec<u8>) {
        encode(&RespFrame::SetFrame(self))
    }
}

} // verus!

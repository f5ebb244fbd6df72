//! The decoder. `spec_decode` is the total, mathematical description of the
//! streaming parse: for every buffer and position it says whether a frame is
//! parsed (and how many bytes it takes), more input is needed, or the bytes
//! can never become a valid frame. The exec decoder is proved to agree with
//! it, and three laws are proved about it: decoding inverts encoding
//! (`lemma_round_trip`), a strict prefix of an encoding is always incomplete
//! (`lemma_truncation_incomplete`), and a parsed frame occupies exactly its
//! own encoding (`lemma_decode_canonical`).

use vstd::prelude::*;
use crate::resp::{FrameModel, RespFrame, SimpleString, SimpleError, BulkString, RespArray,
    RespNull, RespNullArray, RespNullBulkString, RespDouble, RespMap, RespSet, frame_model,
    model_items, model_entries, lemma_model_items, lemma_model_entries, crlf_free, is_digit,
    digits_end, valid_double_repr, wf_model, wf_items, wf_entries};
use crate::digits::{dec_digits, digits_val, canonical_digits, parse_digits,
    lemma_dec_digits_form, lemma_digits_val_of_dec, lemma_dec_of_digits_val,
    lemma_digits_val_bounds};
use crate::encode::{crlf, int_payload, spec_encode, spec_encode_items, spec_encode_entries};

verus! {

// ---------------------------------------------------------------------------
// Spec-level outcomes
// ---------------------------------------------------------------------------

pub enum SpecOutcome {
    Parsed(FrameModel, int),
    Incomplete,
    Malformed,
}

pub enum SpecItems {
    Items(Seq<FrameModel>, int),
    ItemsIncomplete,
    ItemsMalformed,
}

pub enum SpecEntries {
    Entries(Seq<(Seq<u8>, FrameModel)>, int),
    EntriesIncomplete,
    EntriesMalformed,
}

/// Outcome of scanning for the CRLF that closes the line starting at `pos`:
/// `Line(e)` says the payload is `buf[pos..e]` and the line ends at `e + 2`.
pub enum SpecLine {
    Line(int),
    LineIncomplete,
    LineMalformed,
}

/// First index at or after `i` holding CR or LF, or -1 if there is none.
pub open spec fn find_break(buf: Seq<u8>, i: int) -> int
    decreases buf.len() - i,
{
    if i < 0 || i >= buf.len() {
        -1
    } else if buf[i] == 13 || buf[i] == 10 {
        i
    } else {
        find_break(buf, i + 1)
    }
}

pub proof fn lemma_find_break_range(buf: Seq<u8>, i: int)
    requires
        0 <= i <= buf.len(),
    ensures
        find_break(buf, i) == -1 || (i <= find_break(buf, i) < buf.len()),
    decreases buf.len() - i,
{
    if i < buf.len() && !(buf[i] == 13 || buf[i] == 10) {
        lemma_find_break_range(buf, i + 1);
    }
}

/// A line must be closed by CRLF exactly: a bare LF, or a CR followed by
/// anything but LF, can never become a valid line; a CR at the end of the
/// buffer may still be completed.
pub open spec fn spec_line(buf: Seq<u8>, pos: int) -> SpecLine {
    let b: int = find_break(buf, pos);
    if b == -1 {
        SpecLine::LineIncomplete
    } else if buf[b] == 10 {
        SpecLine::LineMalformed
    } else if b + 1 >= buf.len() {
        SpecLine::LineIncomplete
    } else if buf[b + 1] != 10 {
        SpecLine::LineMalformed
    } else {
        SpecLine::Line(b)
    }
}

/// A usable element count or payload length: canonical digits whose value
/// fits in a `usize` (a longer buffer could not exist in memory anyway).
pub open spec fn valid_count(p: Seq<u8>) -> bool {
    canonical_digits(p) && digits_val(p) <= usize::MAX
}

/// An integer payload: a mandatory sign, canonical digits, and a value that
/// fits in an `i64` (zero must be written `+0`).
pub open spec fn valid_int_payload(p: Seq<u8>) -> bool {
    &&& p.len() >= 2
    &&& (p[0] == 43 || p[0] == 45)
    &&& canonical_digits(p.skip(1))
    &&& (p[0] == 43 ==> digits_val(p.skip(1)) <= i64::MAX as int)
    &&& (p[0] == 45 ==> 1 <= digits_val(p.skip(1)) <= -(i64::MIN as int))
}

pub open spec fn int_val(p: Seq<u8>) -> int {
    if p[0] == 43 {
        digits_val(p.skip(1))
    } else {
        -digits_val(p.skip(1))
    }
}

// ---------------------------------------------------------------------------
// The decode relation
// ---------------------------------------------------------------------------

/// Decode one frame starting at `pos`, per tag byte. Composite frames are
/// atomic: if any element is incomplete the whole frame is incomplete and
/// nothing counts as consumed.
pub open spec fn spec_decode(buf: Seq<u8>, pos: int) -> SpecOutcome
    decreases buf.len() - pos, 0int, 0int,
    via spec_decode_decreases
{
    if pos < 0 || pos >= buf.len() {
        SpecOutcome::Incomplete
    } else {
        let t = buf[pos];
        match spec_line(buf, pos + 1) {
            SpecLine::LineIncomplete => SpecOutcome::Incomplete,
            SpecLine::LineMalformed => SpecOutcome::Malformed,
            SpecLine::Line(e) => {
                let p = buf.subrange(pos + 1, e);
                let after: int = e + 2;
                if t == 43 {
                    SpecOutcome::Parsed(FrameModel::SimpleString(p), after - pos)
                } else if t == 45 {
                    SpecOutcome::Parsed(FrameModel::Error(p), after - pos)
                } else if t == 58 {
                    if valid_int_payload(p) {
                        SpecOutcome::Parsed(FrameModel::Integer(int_val(p) as i64), after - pos)
                    } else {
                        SpecOutcome::Malformed
                    }
                } else if t == 35 {
                    if p == seq![116u8] {
                        SpecOutcome::Parsed(FrameModel::Boolean(true), after - pos)
                    } else if p == seq![102u8] {
                        SpecOutcome::Parsed(FrameModel::Boolean(false), after - pos)
                    } else {
                        SpecOutcome::Malformed
                    }
                } else if t == 44 {
                    if valid_double_repr(p) {
                        SpecOutcome::Parsed(FrameModel::Double(p), after - pos)
                    } else {
                        SpecOutcome::Malformed
                    }
                } else if t == 95 {
                    if p.len() == 0 {
                        SpecOutcome::Parsed(FrameModel::Null, after - pos)
                    } else {
                        SpecOutcome::Malformed
                    }
                } else if t == 36 {
                    if p == seq![45u8, 49u8] {
                        SpecOutcome::Parsed(FrameModel::NullBulkString, after - pos)
                    } else if valid_count(p) {
                        let n: int = digits_val(p);
                        if buf.len() < after + n + 2 {
                            SpecOutcome::Incomplete
                        } else if buf[after + n] == 13 && buf[after + n + 1] == 10 {
                            SpecOutcome::Parsed(
                                FrameModel::BulkString(buf.subrange(after, after + n)),
                                after + n + 2 - pos,
                            )
                        } else {
                            SpecOutcome::Malformed
                        }
                    } else {
                        SpecOutcome::Malformed
                    }
                } else if t == 42 {
                    if p == seq![45u8, 49u8] {
                        SpecOutcome::Parsed(FrameModel::NullArray, after - pos)
                    } else if valid_count(p) {
                        match spec_decode_items(buf, after, digits_val(p) as nat) {
                            SpecItems::Items(vs, c) => SpecOutcome::Parsed(
                                FrameModel::Array(vs),
                                after + c - pos,
                            ),
                            SpecItems::ItemsIncomplete => SpecOutcome::Incomplete,
                            SpecItems::ItemsMalformed => SpecOutcome::Malformed,
                        }
                    } else {
                        SpecOutcome::Malformed
                    }
                } else if t == 126 {
                    if valid_count(p) {
                        match spec_decode_items(buf, after, digits_val(p) as nat) {
                            SpecItems::Items(vs, c) => SpecOutcome::Parsed(
                                FrameModel::SetFrame(vs),
                                after + c - pos,
                            ),
                            SpecItems::ItemsIncomplete => SpecOutcome::Incomplete,
                            SpecItems::ItemsMalformed => SpecOutcome::Malformed,
                        }
                    } else {
                        SpecOutcome::Malformed
                    }
                } else if t == 37 {
                    if valid_count(p) {
                        match spec_decode_entries(buf, after, digits_val(p) as nat) {
                            SpecEntries::Entries(es, c) => SpecOutcome::Parsed(
                                FrameModel::MapFrame(es),
                                after + c - pos,
                            ),
                            SpecEntries::EntriesIncomplete => SpecOutcome::Incomplete,
                            SpecEntries::EntriesMalformed => SpecOutcome::Malformed,
                        }
                    } else {
                        SpecOutcome::Malformed
                    }
                } else {
                    SpecOutcome::Malformed
                }
            },
        }
    }
}

#[via_fn]
proof fn spec_decode_decreases(buf: Seq<u8>, pos: int) {
    if 0 <= pos < buf.len() {
        lemma_find_break_range(buf, pos + 1);
    }
}

/// Decode `n` consecutive frames starting at `pos`.
///
/// A parsed sub-frame always consumes between 1 and the remaining bytes (see
/// `lemma_decode_consumed`); the guard merely keeps the recursion structural.
pub open spec fn spec_decode_items(buf: Seq<u8>, pos: int, n: nat) -> SpecItems
    decreases buf.len() - pos, 1int, n,
{
    if n == 0 {
        SpecItems::Items(Seq::empty(), 0)
    } else {
        match spec_decode(buf, pos) {
            SpecOutcome::Parsed(v, c) => if 0 < c && pos + c <= buf.len() && 0 <= pos {
                match spec_decode_items(buf, pos + c, (n - 1) as nat) {
                    SpecItems::Items(vs, c2) => SpecItems::Items(seq![v] + vs, c + c2),
                    SpecItems::ItemsIncomplete => SpecItems::ItemsIncomplete,
                    SpecItems::ItemsMalformed => SpecItems::ItemsMalformed,
                }
            } else {
                SpecItems::ItemsMalformed
            },
            SpecOutcome::Incomplete => SpecItems::ItemsIncomplete,
            SpecOutcome::Malformed => SpecItems::ItemsMalformed,
        }
    }
}

/// Decode `n` consecutive key-value pairs starting at `pos`; every key must
/// be a simple string.
pub open spec fn spec_decode_entries(buf: Seq<u8>, pos: int, n: nat) -> SpecEntries
    decreases buf.len() - pos, 1int, n,
{
    if n == 0 {
        SpecEntries::Entries(Seq::empty(), 0)
    } else {
        match spec_decode(buf, pos) {
            SpecOutcome::Parsed(k, ck) => if !(k is SimpleString) {
                SpecEntries::EntriesMalformed
            } else if 0 < ck && pos + ck <= buf.len() && 0 <= pos {
                match spec_decode(buf, pos + ck) {
                    SpecOutcome::Parsed(v, cv) => if 0 < cv && pos + ck + cv <= buf.len() {
                        match spec_decode_entries(buf, pos + ck + cv, (n - 1) as nat) {
                            SpecEntries::Entries(es, c2) => SpecEntries::Entries(
                                seq![(k->SimpleString_0, v)] + es,
                                ck + cv + c2,
                            ),
                            SpecEntries::EntriesIncomplete => SpecEntries::EntriesIncomplete,
                            SpecEntries::EntriesMalformed => SpecEntries::EntriesMalformed,
                        }
                    } else {
                        SpecEntries::EntriesMalformed
                    },
                    SpecOutcome::Incomplete => SpecEntries::EntriesIncomplete,
                    SpecOutcome::Malformed => SpecEntries::EntriesMalformed,
                }
            } else {
                SpecEntries::EntriesMalformed
            },
            SpecOutcome::Incomplete => SpecEntries::EntriesIncomplete,
            SpecOutcome::Malformed => SpecEntries::EntriesMalformed,
        }
    }
}

} // verus!

verus! {

// ---------------------------------------------------------------------------
// Supporting lemmas for the codec laws
// ---------------------------------------------------------------------------

/// `buf` agrees with `e` at offset `pos`, as far as `buf` reaches.
pub open spec fn matches_at(buf: Seq<u8>, pos: int, e: Seq<u8>) -> bool {
    forall|k: int| 0 <= k < e.len() && pos + k < buf.len() ==> buf[pos + k] == #[trigger] e[k]
}

pub proof fn lemma_find_break_at(buf: Seq<u8>, i: int, b: int)
    requires
        0 <= i <= b < buf.len(),
        buf[b] == 13 || buf[b] == 10,
        forall|j: int| i <= j < b ==> buf[j] != 13 && buf[j] != 10,
    ensures
        find_break(buf, i) == b,
    decreases b - i,
{
    if i < b {
        lemma_find_break_at(buf, i + 1, b);
    }
}

pub proof fn lemma_find_break_none(buf: Seq<u8>, i: int)
    requires
        0 <= i <= buf.len(),
        forall|j: int| i <= j < buf.len() ==> buf[j] != 13 && buf[j] != 10,
    ensures
        find_break(buf, i) == -1,
    decreases buf.len() - i,
{
    if i < buf.len() {
        lemma_find_break_none(buf, i + 1);
    }
}

pub proof fn lemma_matches_split(buf: Seq<u8>, pos: int, a: Seq<u8>, b: Seq<u8>)
    requires
        matches_at(buf, pos, a + b),
    ensures
        matches_at(buf, pos, a),
        matches_at(buf, pos + a.len(), b),
{
    let e = a + b;
    assert forall|k: int| 0 <= k < a.len() && pos + k < buf.len() implies buf[pos + k] == #[trigger] a[k] by {
        assert(e[k] == a[k]);
        assert(buf[pos + k] == e[k]);
    }
    assert forall|k: int| 0 <= k < b.len() && pos + a.len() + k < buf.len() implies buf[pos + a.len()
        + k] == #[trigger] b[k] by {
        assert(e[a.len() + k] == b[k]);
        assert(buf[pos + (a.len() + k)] == e[a.len() + k]);
    }
}

/// How line scanning behaves on a buffer that agrees with `p + CRLF`: the
/// full line parses to exactly `p`, and any strict prefix is incomplete.
pub proof fn lemma_line_at(buf: Seq<u8>, pos: int, p: Seq<u8>)
    requires
        0 <= pos <= buf.len(),
        crlf_free(p),
        matches_at(buf, pos, p + crlf()),
    ensures
        buf.len() >= pos + p.len() + 2 ==> spec_line(buf, pos) == SpecLine::Line(pos + p.len())
            && buf.subrange(pos, pos + p.len() as int) == p,
        buf.len() < pos + p.len() + 2 ==> spec_line(buf, pos) == SpecLine::LineIncomplete,
{
    let e = p + crlf();
    let pl = p.len() as int;
    assert(e.len() == pl + 2);
    assert(e[pl] == 13 && e[pl + 1] == 10);
    assert forall|j: int| pos <= j < pos + pl && j < buf.len() implies buf[j] != 13 && buf[j] != 10 by {
        let k = j - pos;
        assert(e[k] == p[k]);
        assert(buf[pos + k] == e[k]);
    }
    if buf.len() >= pos + pl + 2 {
        assert(buf[pos + pl] == e[pl]);
        assert(buf[pos + pl + 1] == e[pl + 1]);
        lemma_find_break_at(buf, pos, pos + pl);
        assert(spec_line(buf, pos) == SpecLine::Line(pos + pl));
        assert forall|j: int| 0 <= j < pl implies buf.subrange(pos, pos + pl)[j] == p[j] by {
            assert(e[j] == p[j]);
            assert(buf[pos + j] == e[j]);
        }
        assert(buf.subrange(pos, pos + pl) =~= p);
    } else if buf.len() <= pos + pl {
        lemma_find_break_none(buf, pos);
    } else {
        assert(buf.len() == pos + pl + 1);
        assert(buf[pos + pl] == e[pl]);
        lemma_find_break_at(buf, pos, pos + pl);
    }
}

/// Every encoding is at least three bytes long.
pub proof fn lemma_encode_len(v: FrameModel)
    ensures
        spec_encode(v).len() >= 3,
{
    match v {
        FrameModel::SimpleString(s) => assert(spec_encode(v).len() == 3 + s.len()),
        FrameModel::Error(s) => assert(spec_encode(v).len() == 3 + s.len()),
        FrameModel::Integer(i) => assert(spec_encode(v).len() == 3 + int_payload(i).len()),
        FrameModel::BulkString(b) => assert(spec_encode(v).len() == 5 + dec_digits(b.len()).len()
            + b.len()),
        FrameModel::NullBulkString => assert(spec_encode(v).len() == 5),
        FrameModel::Array(items) => assert(spec_encode(v).len() == 3 + dec_digits(
            items.len()).len() + spec_encode_items(items, 0).len()),
        FrameModel::Null => assert(spec_encode(v).len() == 3),
        FrameModel::NullArray => assert(spec_encode(v).len() == 5),
        FrameModel::Boolean(b) => assert(spec_encode(v).len() == 4),
        FrameModel::Double(d) => assert(spec_encode(v).len() == 3 + d.len()),
        FrameModel::MapFrame(es) => assert(spec_encode(v).len() == 3 + dec_digits(es.len()).len()
            + spec_encode_entries(es, 0).len()),
        FrameModel::SetFrame(items) => assert(spec_encode(v).len() == 3 + dec_digits(
            items.len()).len() + spec_encode_items(items, 0).len()),
    }
}

/// The integer payload the encoder writes is exactly what the decoder
/// demands, and it reads back to the same value.
pub proof fn lemma_int_payload_form(i: i64)
    ensures
        int_payload(i).len() >= 2,
        valid_int_payload(int_payload(i)),
        int_val(int_payload(i)) == i as int,
        crlf_free(int_payload(i)),
{
    let p = int_payload(i);
    if i >= 0 {
        let d = dec_digits(i as nat);
        lemma_dec_digits_form(i as nat);
        lemma_digits_val_of_dec(i as nat);
        assert(p == seq![43u8] + d);
        assert(p.skip(1) =~= d);
        assert(p[0] == 43);
        assert forall|j: int| 0 <= j < p.len() implies p[j] != 13 && p[j] != 10 by {
            if j >= 1 {
                assert(p[j] == d[j - 1]);
                assert(is_digit(d[j - 1]));
            }
        }
    } else {
        let m = (-(i as int)) as nat;
        let d = dec_digits(m);
        lemma_dec_digits_form(m);
        lemma_digits_val_of_dec(m);
        assert(p == seq![45u8] + d);
        assert(p.skip(1) =~= d);
        assert(p[0] == 45);
        assert(1 <= m <= -(i64::MIN as int));
        assert forall|j: int| 0 <= j < p.len() implies p[j] != 13 && p[j] != 10 by {
            if j >= 1 {
                assert(p[j] == d[j - 1]);
                assert(is_digit(d[j - 1]));
            }
        }
    }
}

pub proof fn lemma_digits_end_char(d: Seq<u8>, i: int)
    requires
        0 <= i <= d.len(),
    ensures
        i <= digits_end(d, i) <= d.len(),
        forall|j: int| i <= j < digits_end(d, i) ==> is_digit(d[j]),
        digits_end(d, i) < d.len() ==> !is_digit(d[digits_end(d, i)]),
    decreases d.len() - i,
{
    if i < d.len() && is_digit(d[i]) {
        lemma_digits_end_char(d, i + 1);
    }
}

/// A valid double payload holds only signs, digits, a dot and an `e`: in
/// particular no CR or LF.
pub proof fn lemma_double_crlf_free(d: Seq<u8>)
    requires
        valid_double_repr(d),
    ensures
        crlf_free(d),
{
    let n = d.len() as int;
    let p1 = digits_end(d, 1);
    lemma_digits_end_char(d, 1);
    let dotted = p1 < n && d[p1] == 46;
    let p2: int = if dotted {
        digits_end(d, p1 + 1)
    } else {
        p1
    };
    if dotted {
        lemma_digits_end_char(d, p1 + 1);
    }
    if p2 == n {
        assert forall|j: int| 0 <= j < n implies d[j] != 13 && d[j] != 10 by {
            if j == 0 {
            } else if j < p1 {
                assert(is_digit(d[j]));
            } else if j == p1 {
            } else {
                assert(is_digit(d[j]));
            }
        }
    } else {
        let e0: int = if p2 + 1 < n && d[p2 + 1] == 45 {
            p2 + 2
        } else {
            p2 + 1
        };
        let p3 = digits_end(d, e0);
        lemma_digits_end_char(d, e0);
        assert forall|j: int| 0 <= j < n implies d[j] != 13 && d[j] != 10 by {
            if j == 0 {
            } else if j < p1 {
                assert(is_digit(d[j]));
            } else if dotted && j == p1 {
            } else if dotted && j < p2 {
                assert(is_digit(d[j]));
            } else if j == p2 {
            } else if j < e0 {
            } else {
                assert(is_digit(d[j]));
            }
        }
    }
}

} // verus!

verus! {

// ---------------------------------------------------------------------------
// The codec laws: decoding what the encoder wrote
// ---------------------------------------------------------------------------

pub proof fn lemma_matches_first(buf: Seq<u8>, pos: int, e: Seq<u8>)
    requires
        matches_at(buf, pos, e),
        e.len() >= 1,
        0 <= pos < buf.len(),
    ensures
        buf[pos] == e[0],
{
    assert(buf[pos + 0] == e[0]);
}

/// Decoding a buffer that starts with the encoding of a simple string `+k`:
/// complete bytes parse back to the same value, a strict prefix is
/// incomplete.
pub proof fn lemma_decode_simple_at(k: Seq<u8>, buf: Seq<u8>, pos: int)
    requires
        0 <= pos <= buf.len(),
        crlf_free(k),
        matches_at(buf, pos, seq![43u8] + k + crlf()),
    ensures
        buf.len() - pos >= k.len() + 3 ==> spec_decode(buf, pos) == SpecOutcome::Parsed(
            FrameModel::SimpleString(k),
            k.len() + 3 as int,
        ),
        buf.len() - pos < k.len() + 3 ==> spec_decode(buf, pos) == SpecOutcome::Incomplete,
{
    let e = seq![43u8] + k + crlf();
    assert(e =~= seq![43u8] + (k + crlf()));
    lemma_matches_split(buf, pos, seq![43u8], k + crlf());
    if pos == buf.len() {
        assert(spec_decode(buf, pos) == SpecOutcome::Incomplete);
    } else {
        lemma_matches_first(buf, pos, seq![43u8]);
        assert(buf[pos] == 43);
        lemma_line_at(buf, pos + 1, k);
        if buf.len() >= pos + 1 + k.len() + 2 {
            assert(spec_line(buf, pos + 1) == SpecLine::Line(pos + 1 + k.len()));
            assert(buf.subrange(pos + 1, pos + 1 + k.len() as int) == k);
            assert(spec_decode(buf, pos) == SpecOutcome::Parsed(
                FrameModel::SimpleString(k),
                k.len() + 3 as int,
            ));
        } else {
            assert(spec_line(buf, pos + 1) == SpecLine::LineIncomplete);
        }
    }
}

/// The central induction: a buffer that agrees with `spec_encode(v)` from
/// `pos` on decodes to exactly `v` when all the bytes are there, and to
/// `Incomplete` when it stops short.
#[verifier::rlimit(100)]
pub proof fn lemma_decode_encoded(v: FrameModel, buf: Seq<u8>, pos: int)
    requires
        wf_model(v),
        0 <= pos <= buf.len(),
        matches_at(buf, pos, spec_encode(v)),
    ensures
        buf.len() - pos >= spec_encode(v).len() ==> spec_decode(buf, pos) == SpecOutcome::Parsed(
            v,
            spec_encode(v).len() as int,
        ),
        buf.len() - pos < spec_encode(v).len() ==> spec_decode(buf, pos)
            == SpecOutcome::Incomplete,
    decreases v, 0int, 0int,
{
    let enc = spec_encode(v);
    let avail = buf.len() - pos;
    lemma_encode_len(v);
    match v {
        FrameModel::SimpleString(s) => {
            lemma_decode_simple_at(s, buf, pos);
            assert(enc.len() == s.len() + 3);
        },
        FrameModel::Error(s) => {
            assert(enc =~= seq![45u8] + (s + crlf()));
            lemma_matches_split(buf, pos, seq![45u8], s + crlf());
            if pos < buf.len() {
                lemma_matches_first(buf, pos, seq![45u8]);
                lemma_line_at(buf, pos + 1, s);
                assert(enc.len() == s.len() + 3);
                if buf.len() >= pos + 1 + s.len() + 2 {
                    assert(buf.subrange(pos + 1, pos + 1 + s.len() as int) == s);
                }
            }
        },
        FrameModel::Integer(i) => {
            let p = int_payload(i);
            lemma_int_payload_form(i);
            assert(enc =~= seq![58u8] + (p + crlf()));
            lemma_matches_split(buf, pos, seq![58u8], p + crlf());
            if pos < buf.len() {
                lemma_matches_first(buf, pos, seq![58u8]);
                lemma_line_at(buf, pos + 1, p);
                assert(enc.len() == p.len() + 3);
                if buf.len() >= pos + 1 + p.len() + 2 {
                    assert(buf.subrange(pos + 1, pos + 1 + p.len() as int) == p);
                    assert(int_val(p) as i64 == i);
                }
            }
        },
        FrameModel::Boolean(b) => {
            let p: Seq<u8> = if b {
                seq![116u8]
            } else {
                seq![102u8]
            };
            assert(crlf_free(p));
            assert(enc =~= seq![35u8] + (p + crlf()));
            lemma_matches_split(buf, pos, seq![35u8], p + crlf());
            if pos < buf.len() {
                lemma_matches_first(buf, pos, seq![35u8]);
                lemma_line_at(buf, pos + 1, p);
                assert(enc.len() == 4);
                if buf.len() >= pos + 1 + p.len() + 2 {
                    assert(buf.subrange(pos + 1, pos + 1 + p.len() as int) == p);
                    if !b {
                        assert(p[0] == 102);
                        assert(p != seq![116u8]);
                    }
                }
            }
        },
        FrameModel::Double(d) => {
            lemma_double_crlf_free(d);
            assert(enc =~= seq![44u8] + (d + crlf()));
            lemma_matches_split(buf, pos, seq![44u8], d + crlf());
            if pos < buf.len() {
                lemma_matches_first(buf, pos, seq![44u8]);
                lemma_line_at(buf, pos + 1, d);
                assert(enc.len() == d.len() + 3);
                if buf.len() >= pos + 1 + d.len() + 2 {
                    assert(buf.subrange(pos + 1, pos + 1 + d.len() as int) == d);
                }
            }
        },
        FrameModel::Null => {
            let p = Seq::<u8>::empty();
            assert(crlf_free(p));
            assert(enc =~= seq![95u8] + (p + crlf()));
            lemma_matches_split(buf, pos, seq![95u8], p + crlf());
            if pos < buf.len() {
                lemma_matches_first(buf, pos, seq![95u8]);
                lemma_line_at(buf, pos + 1, p);
                assert(enc.len() == 3);
                if buf.len() >= pos + 3 {
                    assert(buf.subrange(pos + 1, pos + 1) == p);
                }
            }
        },
        FrameModel::NullBulkString => {
            let p = seq![45u8, 49u8];
            assert(crlf_free(p));
            assert(enc =~= seq![36u8] + (p + crlf()));
            lemma_matches_split(buf, pos, seq![36u8], p + crlf());
            if pos < buf.len() {
                lemma_matches_first(buf, pos, seq![36u8]);
                lemma_line_at(buf, pos + 1, p);
                assert(enc.len() == 5);
                if buf.len() >= pos + 5 {
                    assert(buf.subrange(pos + 1, pos + 3) == p);
                }
            }
        },
        FrameModel::NullArray => {
            let p = seq![45u8, 49u8];
            assert(crlf_free(p));
            assert(enc =~= seq![42u8] + (p + crlf()));
            lemma_matches_split(buf, pos, seq![42u8], p + crlf());
            if pos < buf.len() {
                lemma_matches_first(buf, pos, seq![42u8]);
                lemma_line_at(buf, pos + 1, p);
                assert(enc.len() == 5);
                if buf.len() >= pos + 5 {
                    assert(buf.subrange(pos + 1, pos + 3) == p);
                }
            }
        },
        FrameModel::BulkString(bs) => {
            let cnt = dec_digits(bs.len());
            lemma_dec_digits_form(bs.len());
            lemma_digits_val_of_dec(bs.len());
            assert(crlf_free(cnt)) by {
                assert(forall|j: int| 0 <= j < cnt.len() ==> is_digit(#[trigger] cnt[j]));
            }
            assert(enc =~= seq![36u8] + ((cnt + crlf()) + (bs + crlf())));
            lemma_matches_split(buf, pos, seq![36u8], (cnt + crlf()) + (bs + crlf()));
            lemma_matches_split(buf, pos + 1, cnt + crlf(), bs + crlf());
            let hdr = 1 + cnt.len() + 2;
            let after = pos + hdr;
            assert(enc.len() == hdr + bs.len() + 2);
            if pos < buf.len() {
                lemma_matches_first(buf, pos, seq![36u8]);
                lemma_line_at(buf, pos + 1, cnt);
                if buf.len() >= pos + hdr {
                    assert(spec_line(buf, pos + 1) == SpecLine::Line(pos + 1 + cnt.len()));
                    assert(buf.subrange(pos + 1, pos + 1 + cnt.len() as int) == cnt);
                    assert(is_digit(cnt[0]));
                    assert(cnt != seq![45u8, 49u8]) by {
                        assert(seq![45u8, 49u8][0] == 45);
                    }
                    assert(valid_count(cnt));
                    let n = bs.len() as int;
                    assert(digits_val(cnt) == n);
                    if buf.len() >= pos + enc.len() {
                        assert((bs + crlf())[n] == 13);
                        assert((bs + crlf())[n + 1] == 10);
                        assert(buf[after + n] == (bs + crlf())[n]);
                        assert(buf[after + n + 1] == (bs + crlf())[n + 1]);
                        assert forall|j: int| 0 <= j < n implies buf.subrange(after, after + n)[j]
                            == bs[j] by {
                            assert((bs + crlf())[j] == bs[j]);
                            assert(buf[after + j] == (bs + crlf())[j]);
                        }
                        assert(buf.subrange(after, after + n) =~= bs);
                        assert(spec_decode(buf, pos) == SpecOutcome::Parsed(
                            FrameModel::BulkString(bs),
                            enc.len() as int,
                        ));
                    } else {
                        assert(buf.len() < after + n + 2);
                        assert(spec_decode(buf, pos) == SpecOutcome::Incomplete);
                    }
                } else {
                    assert(spec_line(buf, pos + 1) == SpecLine::LineIncomplete);
                }
            }
        },
        FrameModel::Array(items) => {
            let cnt = dec_digits(items.len());
            lemma_dec_digits_form(items.len());
            lemma_digits_val_of_dec(items.len());
            assert(crlf_free(cnt)) by {
                assert(forall|j: int| 0 <= j < cnt.len() ==> is_digit(#[trigger] cnt[j]));
            }
            let body = spec_encode_items(items, 0);
            assert(enc =~= seq![42u8] + ((cnt + crlf()) + body));
            lemma_matches_split(buf, pos, seq![42u8], (cnt + crlf()) + body);
            lemma_matches_split(buf, pos + 1, cnt + crlf(), body);
            let hdr = 1 + cnt.len() + 2;
            let after = pos + hdr;
            assert(enc.len() == hdr + body.len());
            if pos < buf.len() {
                lemma_matches_first(buf, pos, seq![42u8]);
                lemma_line_at(buf, pos + 1, cnt);
                if buf.len() >= pos + hdr {
                    assert(spec_line(buf, pos + 1) == SpecLine::Line(pos + 1 + cnt.len()));
                    assert(buf.subrange(pos + 1, pos + 1 + cnt.len() as int) == cnt);
                    assert(is_digit(cnt[0]));
                    assert(cnt != seq![45u8, 49u8]) by {
                        assert(seq![45u8, 49u8][0] == 45);
                    }
                    assert(valid_count(cnt));
                    assert(digits_val(cnt) == items.len());
                    lemma_decode_items_at(items, 0, buf, after);
                    assert(items.skip(0) =~= items);
                    if buf.len() >= pos + enc.len() {
                        assert(spec_decode_items(buf, after, items.len()) == SpecItems::Items(
                            items,
                            body.len() as int,
                        ));
                        assert(spec_decode(buf, pos) == SpecOutcome::Parsed(
                            FrameModel::Array(items),
                            enc.len() as int,
                        ));
                    } else {
                        assert(spec_decode_items(buf, after, items.len())
                            == SpecItems::ItemsIncomplete);
                        assert(spec_decode(buf, pos) == SpecOutcome::Incomplete);
                    }
                } else {
                    assert(spec_line(buf, pos + 1) == SpecLine::LineIncomplete);
                }
            }
        },
        FrameModel::SetFrame(items) => {
            let cnt = dec_digits(items.len());
            lemma_dec_digits_form(items.len());
            lemma_digits_val_of_dec(items.len());
            assert(crlf_free(cnt)) by {
                assert(forall|j: int| 0 <= j < cnt.len() ==> is_digit(#[trigger] cnt[j]));
            }
            let body = spec_encode_items(items, 0);
            assert(enc =~= seq![126u8] + ((cnt + crlf()) + body));
            lemma_matches_split(buf, pos, seq![126u8], (cnt + crlf()) + body);
            lemma_matches_split(buf, pos + 1, cnt + crlf(), body);
            let hdr = 1 + cnt.len() + 2;
            let after = pos + hdr;
            assert(enc.len() == hdr + body.len());
            if pos < buf.len() {
                lemma_matches_first(buf, pos, seq![126u8]);
                lemma_line_at(buf, pos + 1, cnt);
                if buf.len() >= pos + hdr {
                    assert(spec_line(buf, pos + 1) == SpecLine::Line(pos + 1 + cnt.len()));
                    assert(buf.subrange(pos + 1, pos + 1 + cnt.len() as int) == cnt);
                    assert(valid_count(cnt));
                    assert(digits_val(cnt) == items.len());
                    lemma_decode_items_at(items, 0, buf, after);
                    assert(items.skip(0) =~= items);
                    if buf.len() >= pos + enc.len() {
                        assert(spec_decode(buf, pos) == SpecOutcome::Parsed(
                            FrameModel::SetFrame(items),
                            enc.len() as int,
                        ));
                    } else {
                        assert(spec_decode(buf, pos) == SpecOutcome::Incomplete);
                    }
                } else {
                    assert(spec_line(buf, pos + 1) == SpecLine::LineIncomplete);
                }
            }
        },
        FrameModel::MapFrame(es) => {
            let cnt = dec_digits(es.len());
            lemma_dec_digits_form(es.len());
            lemma_digits_val_of_dec(es.len());
            assert(crlf_free(cnt)) by {
                assert(forall|j: int| 0 <= j < cnt.len() ==> is_digit(#[trigger] cnt[j]));
            }
            let body = spec_encode_entries(es, 0);
            assert(enc =~= seq![37u8] + ((cnt + crlf()) + body));
            lemma_matches_split(buf, pos, seq![37u8], (cnt + crlf()) + body);
            lemma_matches_split(buf, pos + 1, cnt + crlf(), body);
            let hdr = 1 + cnt.len() + 2;
            let after = pos + hdr;
            assert(enc.len() == hdr + body.len());
            if pos < buf.len() {
                lemma_matches_first(buf, pos, seq![37u8]);
                lemma_line_at(buf, pos + 1, cnt);
                if buf.len() >= pos + hdr {
                    assert(spec_line(buf, pos + 1) == SpecLine::Line(pos + 1 + cnt.len()));
                    assert(buf.subrange(pos + 1, pos + 1 + cnt.len() as int) == cnt);
                    assert(valid_count(cnt));
                    assert(digits_val(cnt) == es.len());
                    lemma_decode_entries_at(es, 0, buf, after);
                    assert(es.skip(0) =~= es);
                    if buf.len() >= pos + enc.len() {
                        assert(spec_decode(buf, pos) == SpecOutcome::Parsed(
                            FrameModel::MapFrame(es),
                            enc.len() as int,
                        ));
                    } else {
                        assert(spec_decode(buf, pos) == SpecOutcome::Incomplete);
                    }
                } else {
                    assert(spec_line(buf, pos + 1) == SpecLine::LineIncomplete);
                }
            }
        },
    }
}

#[verifier::rlimit(60)]
pub proof fn lemma_decode_items_at(s: Seq<FrameModel>, i: int, buf: Seq<u8>, pos: int)
    requires
        0 <= i <= s.len(),
        wf_items(s, i),
        0 <= pos <= buf.len(),
        matches_at(buf, pos, spec_encode_items(s, i)),
    ensures
        buf.len() - pos >= spec_encode_items(s, i).len() ==> spec_decode_items(
            buf,
            pos,
            (s.len() - i) as nat,
        ) == SpecItems::Items(s.skip(i), spec_encode_items(s, i).len() as int),
        buf.len() - pos < spec_encode_items(s, i).len() ==> spec_decode_items(
            buf,
            pos,
            (s.len() - i) as nat,
        ) == SpecItems::ItemsIncomplete,
    decreases s, 1int, s.len() - i,
{
    if i == s.len() {
        assert(s.skip(i) =~= Seq::<FrameModel>::empty());
        assert(spec_decode_items(buf, pos, 0) == SpecItems::Items(Seq::empty(), 0));
    } else {
        let enc0 = spec_encode(s[i]);
        let rest = spec_encode_items(s, i + 1);
        assert(spec_encode_items(s, i) == enc0 + rest);
        lemma_matches_split(buf, pos, enc0, rest);
        lemma_encode_len(s[i]);
        assert(decreases_to!(s => s[i]));
        lemma_decode_encoded(s[i], buf, pos);
        let n = (s.len() - i) as nat;
        assert(n >= 1);
        if buf.len() - pos < enc0.len() {
            assert(spec_decode(buf, pos) == SpecOutcome::Incomplete);
            assert(spec_decode_items(buf, pos, n) == SpecItems::ItemsIncomplete);
        } else {
            let c = enc0.len() as int;
            assert(spec_decode(buf, pos) == SpecOutcome::Parsed(s[i], c));
            lemma_decode_items_at(s, i + 1, buf, pos + c);
            if buf.len() - pos >= spec_encode_items(s, i).len() {
                assert(spec_decode_items(buf, pos + c, (n - 1) as nat) == SpecItems::Items(
                    s.skip(i + 1),
                    rest.len() as int,
                ));
                assert(seq![s[i]] + s.skip(i + 1) =~= s.skip(i));
                assert(spec_decode_items(buf, pos, n) == SpecItems::Items(
                    s.skip(i),
                    spec_encode_items(s, i).len() as int,
                ));
            } else {
                assert(spec_decode_items(buf, pos + c, (n - 1) as nat)
                    == SpecItems::ItemsIncomplete);
                assert(spec_decode_items(buf, pos, n) == SpecItems::ItemsIncomplete);
            }
        }
    }
}

#[verifier::rlimit(60)]
pub proof fn lemma_decode_entries_at(s: Seq<(Seq<u8>, FrameModel)>, i: int, buf: Seq<u8>, pos: int)
    requires
        0 <= i <= s.len(),
        wf_entries(s, i),
        0 <= pos <= buf.len(),
        matches_at(buf, pos, spec_encode_entries(s, i)),
    ensures
        buf.len() - pos >= spec_encode_entries(s, i).len() ==> spec_decode_entries(
            buf,
            pos,
            (s.len() - i) as nat,
        ) == SpecEntries::Entries(s.skip(i), spec_encode_entries(s, i).len() as int),
        buf.len() - pos < spec_encode_entries(s, i).len() ==> spec_decode_entries(
            buf,
            pos,
            (s.len() - i) as nat,
        ) == SpecEntries::EntriesIncomplete,
    decreases s, 1int, s.len() - i,
{
    if i == s.len() {
        assert(s.skip(i) =~= Seq::<(Seq<u8>, FrameModel)>::empty());
        assert(spec_decode_entries(buf, pos, 0) == SpecEntries::Entries(Seq::empty(), 0));
    } else {
        let k = s[i].0;
        let keypart = seq![43u8] + k + crlf();
        let encv = spec_encode(s[i].1);
        let rest = spec_encode_entries(s, i + 1);
        assert(spec_encode_entries(s, i) == keypart + (encv + rest));
        lemma_matches_split(buf, pos, keypart, encv + rest);
        assert(keypart.len() == k.len() + 3);
        lemma_decode_simple_at(k, buf, pos);
        let n = (s.len() - i) as nat;
        assert(n >= 1);
        if buf.len() - pos < keypart.len() {
            assert(spec_decode(buf, pos) == SpecOutcome::Incomplete);
            assert(spec_decode_entries(buf, pos, n) == SpecEntries::EntriesIncomplete);
        } else {
            let ck = keypart.len() as int;
            assert(spec_decode(buf, pos) == SpecOutcome::Parsed(FrameModel::SimpleString(k), ck));
            lemma_matches_split(buf, pos + ck, encv, rest);
            lemma_encode_len(s[i].1);
            assert(decreases_to!(s => s[i]));
            assert(decreases_to!(s[i] => s[i].1));
            lemma_decode_encoded(s[i].1, buf, pos + ck);
            if buf.len() - pos - ck < encv.len() {
                assert(spec_decode(buf, pos + ck) == SpecOutcome::Incomplete);
                assert(spec_decode_entries(buf, pos, n) == SpecEntries::EntriesIncomplete);
            } else {
                let cv = encv.len() as int;
                assert(spec_decode(buf, pos + ck) == SpecOutcome::Parsed(s[i].1, cv));
                lemma_decode_entries_at(s, i + 1, buf, pos + ck + cv);
                if buf.len() - pos >= spec_encode_entries(s, i).len() {
                    assert(spec_decode_entries(buf, pos + ck + cv, (n - 1) as nat)
                        == SpecEntries::Entries(s.skip(i + 1), rest.len() as int));
                    assert(s[i] == (s[i].0, s[i].1));
                    assert(seq![(k, s[i].1)] + s.skip(i + 1) =~= s.skip(i));
                    assert(spec_decode_entries(buf, pos, n) == SpecEntries::Entries(
                        s.skip(i),
                        spec_encode_entries(s, i).len() as int,
                    ));
                } else {
                    assert(spec_decode_entries(buf, pos + ck + cv, (n - 1) as nat)
                        == SpecEntries::EntriesIncomplete);
                    assert(spec_decode_entries(buf, pos, n) == SpecEntries::EntriesIncomplete);
                }
            }
        }
    }
}

/// Round trip: decoding the encoder's output, with anything at all appended,
/// parses back the very value that was encoded and consumes exactly its
/// encoding.
pub proof fn lemma_round_trip(v: FrameModel, rest: Seq<u8>)
    requires
        wf_model(v),
    ensures
        spec_decode(spec_encode(v) + rest, 0) == SpecOutcome::Parsed(
            v,
            spec_encode(v).len() as int,
        ),
{
    let buf = spec_encode(v) + rest;
    assert forall|j: int| 0 <= j < spec_encode(v).len() && 0 + j < buf.len() implies buf[0 + j]
        == #[trigger] spec_encode(v)[j] by {
        assert(buf[j] == spec_encode(v)[j]);
    }
    lemma_decode_encoded(v, buf, 0);
}

/// Truncation safety: any strict prefix of a valid encoding decodes to
/// `Incomplete` — never to a frame and never to `Malformed`.
pub proof fn lemma_truncation_incomplete(v: FrameModel, n: int)
    requires
        wf_model(v),
        0 <= n < spec_encode(v).len(),
    ensures
        spec_decode(spec_encode(v).subrange(0, n), 0) == SpecOutcome::Incomplete,
{
    let buf = spec_encode(v).subrange(0, n);
    assert forall|j: int| 0 <= j < spec_encode(v).len() && 0 + j < buf.len() implies buf[0 + j]
        == #[trigger] spec_encode(v)[j] by {
        assert(buf[j] == spec_encode(v)[j]);
    }
    lemma_decode_encoded(v, buf, 0);
}

} // verus!

verus! {

// ---------------------------------------------------------------------------
// The exec decoder
// ---------------------------------------------------------------------------

/// Result of one decode attempt. `Parsed(frame, n)` consumed exactly the
/// first `n` bytes; `Incomplete` consumed nothing and asks for more input;
/// `Malformed` is fatal.
#[derive(Debug, PartialEq)]
pub enum DecodeOutcome {
    Parsed(RespFrame, usize),
    Incomplete,
    Malformed,
}

/// The exec outcome agrees with the spec-level one.
pub open spec fn decode_matches(r: DecodeOutcome, o: SpecOutcome) -> bool {
    match r {
        DecodeOutcome::Parsed(f, n) => o == SpecOutcome::Parsed(frame_model(f), n as int),
        DecodeOutcome::Incomplete => o == SpecOutcome::Incomplete,
        DecodeOutcome::Malformed => o == SpecOutcome::Malformed,
    }
}

enum LineScan {
    Found(usize),
    NeedMore,
    Bad,
}

/// Scan for the CRLF closing the line that starts at `pos`.
fn scan_line(buf: &Vec<u8>, pos: usize) -> (r: LineScan)
    requires
        pos <= buf.len(),
    ensures
        match r {
            LineScan::Found(e) => spec_line(buf@, pos as int) == SpecLine::Line(e as int) && pos
                <= e && e + 2 <= buf.len(),
            LineScan::NeedMore => spec_line(buf@, pos as int) == SpecLine::LineIncomplete,
            LineScan::Bad => spec_line(buf@, pos as int) == SpecLine::LineMalformed,
        },
{
    let mut i: usize = pos;
    while i < buf.len()
        invariant
            pos <= i <= buf.len(),
            find_break(buf@, pos as int) == find_break(buf@, i as int),
        decreases buf.len() - i,
    {
        let b = buf[i];
        if b == 13 || b == 10 {
            proof {
                assert(find_break(buf@, i as int) == i);
            }
            if b == 10 {
                return LineScan::Bad;
            }
            if i + 1 >= buf.len() {
                return LineScan::NeedMore;
            }
            if buf[i + 1] != 10 {
                return LineScan::Bad;
            }
            return LineScan::Found(i);
        }
        i = i + 1;
    }
    LineScan::NeedMore
}

/// Copy `buf[from..to]` into a fresh vector.
fn copy_range(buf: &Vec<u8>, from: usize, to: usize) -> (r: Vec<u8>)
    requires
        from <= to <= buf.len(),
    ensures
        r@ == buf@.subrange(from as int, to as int),
{
    let mut out: Vec<u8> = Vec::new();
    proof {
        assert(out@ =~= buf@.subrange(from as int, from as int));
    }
    let mut i: usize = from;
    while i < to
        invariant
            from <= i <= to <= buf.len(),
            out@ == buf@.subrange(from as int, i as int),
        decreases to - i,
    {
        out.push(buf[i]);
        proof {
            assert(buf@.subrange(from as int, i + 1 as int) =~= buf@.subrange(
                from as int,
                i as int,
            ).push(buf@[i as int]));
        }
        i = i + 1;
    }
    out
}

/// Parse `buf[from..to]` as an element count or payload length.
fn parse_count(buf: &Vec<u8>, from: usize, to: usize) -> (r: Option<usize>)
    requires
        from <= to <= buf.len(),
    ensures
        ({
            let p = buf@.subrange(from as int, to as int);
            match r {
                Some(n) => valid_count(p) && n as int == digits_val(p),
                None => !valid_count(p),
            }
        }),
{
    let ghost p = buf@.subrange(from as int, to as int);
    if from == to {
        return None;
    }
    if to - from > 1 && buf[from] == 48 {
        proof {
            assert(p[0] == 48);
        }
        return None;
    }
    match parse_digits(buf, from, to) {
        None => {
            proof {
                assert(usize::MAX <= u64::MAX);
            }
            None
        },
        Some(v) => {
            if v > usize::MAX as u64 {
                None
            } else {
                Some(v as usize)
            }
        },
    }
}

/// Parse `buf[from..to]` as a signed integer payload.
fn parse_int(buf: &Vec<u8>, from: usize, to: usize) -> (r: Option<i64>)
    requires
        from <= to <= buf.len(),
    ensures
        ({
            let p = buf@.subrange(from as int, to as int);
            match r {
                Some(i) => valid_int_payload(p) && i as int == int_val(p),
                None => !valid_int_payload(p),
            }
        }),
{
    let ghost p = buf@.subrange(from as int, to as int);
    if to - from < 2 {
        return None;
    }
    proof {
        assert(p.skip(1) =~= buf@.subrange(from + 1 as int, to as int));
    }
    let sign = buf[from];
    if sign != 43 && sign != 45 {
        proof {
            assert(p[0] == sign);
        }
        return None;
    }
    if to - from > 2 && buf[from + 1] == 48 {
        proof {
            assert(p.skip(1)[0] == 48);
        }
        return None;
    }
    match parse_digits(buf, from + 1, to) {
        None => None,
        Some(v) => {
            if sign == 43 {
                if v <= i64::MAX as u64 {
                    Some(v as i64)
                } else {
                    None
                }
            } else {
                if v == 0 {
                    None
                } else if v <= i64::MAX as u64 {
                    Some(-(v as i64))
                } else if v == (i64::MAX as u64) + 1 {
                    Some(i64::MIN)
                } else {
                    None
                }
            }
        },
    }
}

/// First index at or after `i` holding a non-digit byte of `p`.
fn digits_end_x(p: &Vec<u8>, i: usize) -> (r: usize)
    requires
        i <= p.len(),
    ensures
        r as int == digits_end(p@, i as int),
        i <= r <= p.len(),
{
    let mut j: usize = i;
    while j < p.len()
        invariant
            i <= j <= p.len(),
            digits_end(p@, i as int) == digits_end(p@, j as int),
        decreases p.len() - j,
    {
        let b = p[j];
        if b < 48 || b > 57 {
            return j;
        }
        j = j + 1;
    }
    j
}

/// Decide the double-payload grammar.
fn is_valid_double(p: &Vec<u8>) -> (r: bool)
    ensures
        r == valid_double_repr(p@),
{
    let n = p.len();
    if n < 1 {
        return false;
    }
    let s0 = p[0];
    if s0 != 43 && s0 != 45 {
        return false;
    }
    let p1 = digits_end_x(p, 1);
    if p1 <= 1 {
        return false;
    }
    let dotted = p1 < n && p[p1] == 46;
    let p2: usize = if dotted {
        digits_end_x(p, p1 + 1)
    } else {
        p1
    };
    if dotted && p2 <= p1 + 1 {
        return false;
    }
    if p2 == n {
        return true;
    }
    if p[p2] != 101 {
        return false;
    }
    let e0: usize = if p2 + 1 < n && p[p2 + 1] == 45 {
        p2 + 2
    } else {
        p2 + 1
    };
    let p3 = digits_end_x(p, e0);
    p3 > e0 && p3 == n
}

// ---------------------------------------------------------------------------
// Sub-frame loops
// ---------------------------------------------------------------------------

pub open spec fn items_combine(ms: Seq<FrameModel>, c0: int, o: SpecItems) -> SpecItems {
    match o {
        SpecItems::Items(s, c) => SpecItems::Items(ms + s, c0 + c),
        SpecItems::ItemsIncomplete => SpecItems::ItemsIncomplete,
        SpecItems::ItemsMalformed => SpecItems::ItemsMalformed,
    }
}

pub open spec fn entries_combine(ms: Seq<(Seq<u8>, FrameModel)>, c0: int, o: SpecEntries) -> SpecEntries {
    match o {
        SpecEntries::Entries(s, c) => SpecEntries::Entries(ms + s, c0 + c),
        SpecEntries::EntriesIncomplete => SpecEntries::EntriesIncomplete,
        SpecEntries::EntriesMalformed => SpecEntries::EntriesMalformed,
    }
}

pub proof fn lemma_model_items_push(s: Seq<RespFrame>, f: RespFrame)
    ensures
        model_items(s.push(f), 0) == model_items(s, 0).push(frame_model(f)),
{
    lemma_model_items(s, 0);
    lemma_model_items(s.push(f), 0);
    assert forall|j: int| 0 <= j < s.len() + 1 implies model_items(s.push(f), 0)[j] == model_items(
        s,
        0,
    ).push(frame_model(f))[j] by {
        if j < s.len() {
            assert(s.push(f)[j] == s[j]);
        } else {
            assert(s.push(f)[j] == f);
        }
    }
    assert(model_items(s.push(f), 0) =~= model_items(s, 0).push(frame_model(f)));
}

pub proof fn lemma_model_entries_push(s: Seq<(Vec<u8>, RespFrame)>, kv: (Vec<u8>, RespFrame))
    ensures
        model_entries(s.push(kv), 0) == model_entries(s, 0).push((kv.0@, frame_model(kv.1))),
{
    lemma_model_entries(s, 0);
    lemma_model_entries(s.push(kv), 0);
    assert forall|j: int| 0 <= j < s.len() + 1 implies model_entries(s.push(kv), 0)[j]
        == model_entries(s, 0).push((kv.0@, frame_model(kv.1)))[j] by {
        if j < s.len() {
            assert(s.push(kv)[j] == s[j]);
        } else {
            assert(s.push(kv)[j] == kv);
        }
    }
    assert(model_entries(s.push(kv), 0) =~= model_entries(s, 0).push((kv.0@, frame_model(kv.1))));
}

enum ItemsRes {
    Got(Vec<RespFrame>, usize),
    NeedMore,
    Bad,
}

fn decode_items_x(buf: &Vec<u8>, start: usize, n: usize) -> (r: ItemsRes)
    requires
        start <= buf.len(),
    ensures
        match r {
            ItemsRes::Got(vs, c) => spec_decode_items(buf@, start as int, n as nat)
                == SpecItems::Items(model_items(vs@, 0), c as int) && start + c <= buf.len(),
            ItemsRes::NeedMore => spec_decode_items(buf@, start as int, n as nat)
                == SpecItems::ItemsIncomplete,
            ItemsRes::Bad => spec_decode_items(buf@, start as int, n as nat)
                == SpecItems::ItemsMalformed,
        },
    decreases buf.len() - start, 1int,
{
    let mut vs: Vec<RespFrame> = Vec::new();
    let mut cur: usize = start;
    let mut k: usize = 0;
    proof {
        assert(model_items(vs@, 0) =~= Seq::<FrameModel>::empty());
        assert(items_combine(Seq::empty(), 0, spec_decode_items(buf@, start as int, n as nat))
            == spec_decode_items(buf@, start as int, n as nat)) by {
            match spec_decode_items(buf@, start as int, n as nat) {
                SpecItems::Items(s, c) => {
                    assert(Seq::<FrameModel>::empty() + s =~= s);
                },
                _ => {},
            }
        }
    }
    while k < n
        invariant
            start <= cur <= buf.len(),
            k <= n,
            spec_decode_items(buf@, start as int, n as nat) == items_combine(
                model_items(vs@, 0),
                cur - start,
                spec_decode_items(buf@, cur as int, (n - k) as nat),
            ),
        decreases n - k,
    {
        let d = decode_at(buf, cur);
        match d {
            DecodeOutcome::Parsed(f, c) => {
                proof {
                    assert(spec_decode(buf@, cur as int) == SpecOutcome::Parsed(
                        frame_model(f),
                        c as int,
                    ));
                }
                let ghost old_vs = vs@;
                let ghost old_cur = cur as int;
                vs.push(f);
                cur = cur + c;
                k = k + 1;
                proof {
                    lemma_model_items_push(old_vs, f);
                    match spec_decode_items(buf@, cur as int, (n - k) as nat) {
                        SpecItems::Items(s2, c2) => {
                            assert(model_items(old_vs, 0) + (seq![frame_model(f)] + s2)
                                =~= model_items(vs@, 0) + s2);
                        },
                        _ => {},
                    }
                }
            },
            DecodeOutcome::Incomplete => {
                return ItemsRes::NeedMore;
            },
            DecodeOutcome::Malformed => {
                return ItemsRes::Bad;
            },
        }
    }
    proof {
        assert(spec_decode_items(buf@, cur as int, 0) == SpecItems::Items(Seq::empty(), 0));
        assert(model_items(vs@, 0) + Seq::<FrameModel>::empty() =~= model_items(vs@, 0));
    }
    ItemsRes::Got(vs, cur - start)
}

enum EntriesRes {
    Got(Vec<(Vec<u8>, RespFrame)>, usize),
    NeedMore,
    Bad,
}

fn decode_entries_x(buf: &Vec<u8>, start: usize, n: usize) -> (r: EntriesRes)
    requires
        start <= buf.len(),
    ensures
        match r {
            EntriesRes::Got(es, c) => spec_decode_entries(buf@, start as int, n as nat)
                == SpecEntries::Entries(model_entries(es@, 0), c as int) && start + c <= buf.len(),
            EntriesRes::NeedMore => spec_decode_entries(buf@, start as int, n as nat)
                == SpecEntries::EntriesIncomplete,
            EntriesRes::Bad => spec_decode_entries(buf@, start as int, n as nat)
                == SpecEntries::EntriesMalformed,
        },
    decreases buf.len() - start, 1int,
{
    let mut es: Vec<(Vec<u8>, RespFrame)> = Vec::new();
    let mut cur: usize = start;
    let mut k: usize = 0;
    proof {
        assert(model_entries(es@, 0) =~= Seq::<(Seq<u8>, FrameModel)>::empty());
        assert(entries_combine(Seq::empty(), 0, spec_decode_entries(buf@, start as int, n as nat))
            == spec_decode_entries(buf@, start as int, n as nat)) by {
            match spec_decode_entries(buf@, start as int, n as nat) {
                SpecEntries::Entries(s, c) => {
                    assert(Seq::<(Seq<u8>, FrameModel)>::empty() + s =~= s);
                },
                _ => {},
            }
        }
    }
    while k < n
        invariant
            start <= cur <= buf.len(),
            k <= n,
            spec_decode_entries(buf@, start as int, n as nat) == entries_combine(
                model_entries(es@, 0),
                cur - start,
                spec_decode_entries(buf@, cur as int, (n - k) as nat),
            ),
        decreases n - k,
    {
        let d1 = decode_at(buf, cur);
        match d1 {
            DecodeOutcome::Parsed(kf, ck) => {
                proof {
                    assert(spec_decode(buf@, cur as int) == SpecOutcome::Parsed(
                        frame_model(kf),
                        ck as int,
                    ));
                }
                match kf {
                    RespFrame::SimpleString(ss) => {
                        let d2 = decode_at(buf, cur + ck);
                        match d2 {
                            DecodeOutcome::Parsed(vf, cv) => {
                                proof {
                                    assert(spec_decode(buf@, cur + ck as int)
                                        == SpecOutcome::Parsed(frame_model(vf), cv as int));
                                }
                                let ghost old_es = es@;
                                let key = ss.0;
                                es.push((key, vf));
                                cur = cur + ck + cv;
                                k = k + 1;
                                proof {
                                    lemma_model_entries_push(old_es, es@[es@.len() - 1]);
                                    match spec_decode_entries(buf@, cur as int, (n - k) as nat) {
                                        SpecEntries::Entries(s2, c2) => {
                                            assert(model_entries(old_es, 0) + (seq![
                                                (es@[es@.len() - 1].0@, frame_model(es@[es@.len()
                                                    - 1].1)),
                                            ] + s2) =~= model_entries(es@, 0) + s2);
                                        },
                                        _ => {},
                                    }
                                }
                            },
                            DecodeOutcome::Incomplete => {
                                return EntriesRes::NeedMore;
                            },
                            DecodeOutcome::Malformed => {
                                return EntriesRes::Bad;
                            },
                        }
                    },
                    _ => {
                        proof {
                            assert(!(frame_model(kf) is SimpleString));
                        }
                        return EntriesRes::Bad;
                    },
                }
            },
            DecodeOutcome::Incomplete => {
                return EntriesRes::NeedMore;
            },
            DecodeOutcome::Malformed => {
                return EntriesRes::Bad;
            },
        }
    }
    proof {
        assert(spec_decode_entries(buf@, cur as int, 0) == SpecEntries::Entries(Seq::empty(), 0));
        assert(model_entries(es@, 0) + Seq::<(Seq<u8>, FrameModel)>::empty() =~= model_entries(
            es@,
            0,
        ));
    }
    EntriesRes::Got(es, cur - start)
}

/// Decode one frame starting at `pos`. Agrees exactly with `spec_decode`.
fn decode_at(buf: &Vec<u8>, pos: usize) -> (r: DecodeOutcome)
    requires
        pos <= buf.len(),
    ensures
        decode_matches(r, spec_decode(buf@, pos as int)),
        r matches DecodeOutcome::Parsed(f, n) ==> 0 < n && pos + n <= buf.len(),
    decreases buf.len() - pos, 0int,
{
    if pos >= buf.len() {
        return DecodeOutcome::Incomplete;
    }
    let t = buf[pos];
    let e: usize = match scan_line(buf, pos + 1) {
        LineScan::NeedMore => {
            return DecodeOutcome::Incomplete;
        },
        LineScan::Bad => {
            return DecodeOutcome::Malformed;
        },
        LineScan::Found(e) => e,
    };
    let ghost p = buf@.subrange(pos + 1 as int, e as int);
    let after: usize = e + 2;
    let cline: usize = after - pos;
    if t == 43 {
        let payload = copy_range(buf, pos + 1, e);
        DecodeOutcome::Parsed(RespFrame::SimpleString(SimpleString(payload)), cline)
    } else if t == 45 {
        let payload = copy_range(buf, pos + 1, e);
        DecodeOutcome::Parsed(RespFrame::Error(SimpleError(payload)), cline)
    } else if t == 58 {
        match parse_int(buf, pos + 1, e) {
            Some(i) => DecodeOutcome::Parsed(RespFrame::Integer(i), cline),
            None => DecodeOutcome::Malformed,
        }
    } else if t == 35 {
        if e == pos + 2 && buf[pos + 1] == 116 {
            proof {
                assert(p =~= seq![116u8]);
            }
            DecodeOutcome::Parsed(RespFrame::Boolean(true), cline)
        } else if e == pos + 2 && buf[pos + 1] == 102 {
            proof {
                assert(p =~= seq![102u8]);
                assert(p != seq![116u8]) by {
                    assert(p[0] == 102 && seq![116u8][0] == 116);
                }
            }
            DecodeOutcome::Parsed(RespFrame::Boolean(false), cline)
        } else {
            proof {
                assert(p != seq![116u8] && p != seq![102u8]) by {
                    assert(seq![116u8].len() == 1 && seq![102u8].len() == 1);
                    assert(seq![116u8][0] == 116 && seq![102u8][0] == 102);
                    if p.len() == 1 {
                        assert(p[0] == buf@[pos + 1]);
                    }
                }
            }
            DecodeOutcome::Malformed
        }
    } else if t == 44 {
        let payload = copy_range(buf, pos + 1, e);
        if is_valid_double(&payload) {
            DecodeOutcome::Parsed(RespFrame::Double(RespDouble(payload)), cline)
        } else {
            DecodeOutcome::Malformed
        }
    } else if t == 95 {
        if e == pos + 1 {
            DecodeOutcome::Parsed(RespFrame::Null(RespNull), cline)
        } else {
            DecodeOutcome::Malformed
        }
    } else if t == 36 {
        if e == pos + 3 && buf[pos + 1] == 45 && buf[pos + 2] == 49 {
            proof {
                assert(p =~= seq![45u8, 49u8]);
            }
            DecodeOutcome::Parsed(RespFrame::NullBulkString(RespNullBulkString), cline)
        } else {
            proof {
                assert(p != seq![45u8, 49u8]) by {
                    assert(seq![45u8, 49u8].len() == 2);
                    assert(seq![45u8, 49u8][0] == 45 && seq![45u8, 49u8][1] == 49);
                    if p.len() == 2 {
                        assert(p[0] == buf@[pos + 1] && p[1] == buf@[pos + 2]);
                    }
                }
            }
            match parse_count(buf, pos + 1, e) {
                None => DecodeOutcome::Malformed,
                Some(n) => {
                    if n > buf.len() - after || buf.len() - after - n < 2 {
                        DecodeOutcome::Incomplete
                    } else if buf[after + n] == 13 && buf[after + n + 1] == 10 {
                        let payload = copy_range(buf, after, after + n);
                        DecodeOutcome::Parsed(
                            RespFrame::BulkString(BulkString(payload)),
                            after + n + 2 - pos,
                        )
                    } else {
                        DecodeOutcome::Malformed
                    }
                },
            }
        }
    } else if t == 42 {
        if e == pos + 3 && buf[pos + 1] == 45 && buf[pos + 2] == 49 {
            proof {
                assert(p =~= seq![45u8, 49u8]);
            }
            DecodeOutcome::Parsed(RespFrame::NullArray(RespNullArray), cline)
        } else {
            proof {
                assert(p != seq![45u8, 49u8]) by {
                    assert(seq![45u8, 49u8].len() == 2);
                    assert(seq![45u8, 49u8][0] == 45 && seq![45u8, 49u8][1] == 49);
                    if p.len() == 2 {
                        assert(p[0] == buf@[pos + 1] && p[1] == buf@[pos + 2]);
                    }
                }
            }
            match parse_count(buf, pos + 1, e) {
                None => DecodeOutcome::Malformed,
                Some(n) => {
                    match decode_items_x(buf, after, n) {
                        ItemsRes::Got(vs, c) => DecodeOutcome::Parsed(
                            RespFrame::Array(RespArray(vs)),
                            cline + c,
                        ),
                        ItemsRes::NeedMore => DecodeOutcome::Incomplete,
                        ItemsRes::Bad => DecodeOutcome::Malformed,
                    }
                },
            }
        }
    } else if t == 126 {
        match parse_count(buf, pos + 1, e) {
            None => DecodeOutcome::Malformed,
            Some(n) => {
                match decode_items_x(buf, after, n) {
                    ItemsRes::Got(vs, c) => DecodeOutcome::Parsed(
                        RespFrame::SetFrame(RespSet(vs)),
                        cline + c,
                    ),
                    ItemsRes::NeedMore => DecodeOutcome::Incomplete,
                    ItemsRes::Bad => DecodeOutcome::Malformed,
                }
            },
        }
    } else if t == 37 {
        match parse_count(buf, pos + 1, e) {
            None => DecodeOutcome::Malformed,
            Some(n) => {
                match decode_entries_x(buf, after, n) {
                    EntriesRes::Got(es, c) => DecodeOutcome::Parsed(
                        RespFrame::MapFrame(RespMap(es)),
                        cline + c,
                    ),
                    EntriesRes::NeedMore => DecodeOutcome::Incomplete,
                    EntriesRes::Bad => DecodeOutcome::Malformed,
                }
            },
        }
    } else {
        DecodeOutcome::Malformed
    }
}

/// Decode one frame from the front of `buf`.
///
/// Never consumes what it does not report: `Parsed(f, n)` says the frame
/// occupies exactly `buf[0..n]`; on `Incomplete` the caller keeps its bytes
/// and retries with more input; `Malformed` means the stream can never
/// resynchronize.
pub fn decode(buf: &Vec<u8>) -> (r: DecodeOutcome)
    ensures
        decode_matches(r, spec_decode(buf@, 0)),
        r matches DecodeOutcome::Parsed(f, n) ==> 0 < n && n <= buf.len(),
{
    decode_at(buf, 0)
}

} // verus!


verus! {

// ---------------------------------------------------------------------------
// Canonicality: a parsed frame occupies exactly its own encoding
// ---------------------------------------------------------------------------

pub proof fn lemma_subrange_split(buf: Seq<u8>, a: int, b: int, c: int)
    requires
        0 <= a <= b <= c <= buf.len(),
    ensures
        buf.subrange(a, c) == buf.subrange(a, b) + buf.subrange(b, c),
{
    assert(buf.subrange(a, c) =~= buf.subrange(a, b) + buf.subrange(b, c));
}

/// What a successful break scan found: a CR or LF, within range.
pub proof fn lemma_find_break_hit(buf: Seq<u8>, i: int)
    requires
        0 <= i <= buf.len(),
        find_break(buf, i) != -1,
    ensures
        i <= find_break(buf, i) < buf.len(),
        buf[find_break(buf, i)] == 13 || buf[find_break(buf, i)] == 10,
    decreases buf.len() - i,
{
    if i < buf.len() && !(buf[i] == 13 || buf[i] == 10) {
        lemma_find_break_hit(buf, i + 1);
    }
}

/// The bytes of one tag-plus-line region, regrouped as tag, payload, CRLF.
pub proof fn lemma_tagged_line_bytes(buf: Seq<u8>, pos: int, e: int)
    requires
        0 <= pos < pos + 1 <= e,
        e + 2 <= buf.len(),
        buf[e] == 13,
        buf[e + 1] == 10,
    ensures
        buf.subrange(pos, e + 2) == seq![buf[pos]] + buf.subrange(pos + 1, e) + crlf(),
{
    assert(buf.subrange(pos, e + 2) =~= seq![buf[pos]] + buf.subrange(pos + 1, e) + crlf());
}

/// A valid integer payload is rebuilt from its own value.
pub proof fn lemma_int_payload_inverse(p: Seq<u8>)
    requires
        valid_int_payload(p),
    ensures
        int_payload(int_val(p) as i64) == p,
{
    let q = p.skip(1);
    lemma_dec_of_digits_val(q);
    let v = digits_val(q);
    if p[0] == 43 {
        let i: i64 = int_val(p) as i64;
        assert(i as int == v);
        assert(int_payload(i) == seq![43u8] + dec_digits(i as nat));
        assert(dec_digits(v as nat) == q);
        assert(seq![43u8] + q =~= p);
    } else {
        let i: i64 = int_val(p) as i64;
        assert(i as int == -v);
        assert(i < 0);
        assert(int_payload(i) == seq![45u8] + dec_digits((-(i as int)) as nat));
        assert((-(i as int)) as nat == v as nat);
        assert(dec_digits(v as nat) == q);
        assert(seq![45u8] + q =~= p);
    }
}

pub proof fn lemma_enc_items_shift(v: FrameModel, s: Seq<FrameModel>, i: int)
    requires
        0 <= i <= s.len(),
    ensures
        spec_encode_items(seq![v] + s, i + 1) == spec_encode_items(s, i),
    decreases s.len() - i,
{
    let vs = seq![v] + s;
    if i < s.len() {
        assert(vs[i + 1] == s[i]);
        lemma_enc_items_shift(v, s, i + 1);
    }
}

pub proof fn lemma_enc_entries_shift(kv: (Seq<u8>, FrameModel), s: Seq<(Seq<u8>, FrameModel)>, i: int)
    requires
        0 <= i <= s.len(),
    ensures
        spec_encode_entries(seq![kv] + s, i + 1) == spec_encode_entries(s, i),
    decreases s.len() - i,
{
    let vs = seq![kv] + s;
    if i < s.len() {
        assert(vs[i + 1] == s[i]);
        lemma_enc_entries_shift(kv, s, i + 1);
    }
}

/// The decoder accepts only canonical input: whenever it parses a frame it
/// has read exactly that frame's own encoding, nothing looser.
#[verifier::rlimit(100)]
pub proof fn lemma_decode_canonical(buf: Seq<u8>, pos: int)
    requires
        0 <= pos <= buf.len(),
    ensures
        spec_decode(buf, pos) matches SpecOutcome::Parsed(v, n) ==> 3 <= n && pos + n <= buf.len()
            && buf.subrange(pos, pos + n) == spec_encode(v),
    decreases buf.len() - pos, 0int, 0int,
{
    if 0 <= pos < buf.len() {
        match spec_line(buf, pos + 1) {
            SpecLine::Line(e) => {
                lemma_find_break_hit(buf, pos + 1);
                assert(pos + 1 <= e < buf.len());
                assert(buf[e] == 13 && buf[e + 1] == 10 && e + 2 <= buf.len());
                let p = buf.subrange(pos + 1, e);
                let after: int = e + 2;
                let t = buf[pos];
                lemma_tagged_line_bytes(buf, pos, e);
                if t == 43 || t == 45 || t == 44 {
                } else if t == 58 {
                    if valid_int_payload(p) {
                        lemma_int_payload_inverse(p);
                    }
                } else if t == 35 {
                    if p == seq![116u8] {
                        assert(seq![35u8] + seq![116u8] =~= seq![35u8, 116u8]);
                    } else if p == seq![102u8] {
                        assert(seq![35u8] + seq![102u8] =~= seq![35u8, 102u8]);
                    }
                } else if t == 95 {
                    if p.len() == 0 {
                        assert(p =~= Seq::<u8>::empty());
                        assert(seq![95u8] + p =~= seq![95u8]);
                    }
                } else if t == 36 {
                    if p == seq![45u8, 49u8] {
                        assert(seq![36u8] + p =~= seq![36u8, 45u8, 49u8]);
                    } else if valid_count(p) {
                        let n: int = digits_val(p);
                        lemma_dec_of_digits_val(p);
                        if buf.len() >= after + n + 2 && buf[after + n] == 13 && buf[after + n + 1]
                            == 10 {
                            let data = buf.subrange(after, after + n);
                            lemma_subrange_split(buf, pos, after, after + n);
                            lemma_subrange_split(buf, pos, after + n, after + n + 2);
                            assert(buf.subrange(after + n, after + n + 2) =~= crlf());
                            assert(data.len() == n);
                            assert(buf.subrange(pos, after + n + 2) == ((seq![36u8] + p + crlf())
                                + data) + crlf());
                            assert(spec_encode(FrameModel::BulkString(data)) == seq![36u8]
                                + dec_digits(data.len()) + crlf() + data + crlf());
                        }
                    }
                } else if t == 42 {
                    if p == seq![45u8, 49u8] {
                        assert(seq![42u8] + p =~= seq![42u8, 45u8, 49u8]);
                    } else if valid_count(p) {
                        lemma_dec_of_digits_val(p);
                        lemma_decode_items_canonical(buf, after, digits_val(p) as nat);
                        match spec_decode_items(buf, after, digits_val(p) as nat) {
                            SpecItems::Items(vs, c) => {
                                lemma_subrange_split(buf, pos, after, after + c);
                                assert(buf.subrange(pos, after + c) == (seq![42u8] + p + crlf())
                                    + spec_encode_items(vs, 0));
                            },
                            _ => {},
                        }
                    }
                } else if t == 126 {
                    if valid_count(p) {
                        lemma_dec_of_digits_val(p);
                        lemma_decode_items_canonical(buf, after, digits_val(p) as nat);
                        match spec_decode_items(buf, after, digits_val(p) as nat) {
                            SpecItems::Items(vs, c) => {
                                lemma_subrange_split(buf, pos, after, after + c);
                                assert(buf.subrange(pos, after + c) == (seq![126u8] + p + crlf())
                                    + spec_encode_items(vs, 0));
                            },
                            _ => {},
                        }
                    }
                } else if t == 37 {
                    if valid_count(p) {
                        lemma_dec_of_digits_val(p);
                        lemma_decode_entries_canonical(buf, after, digits_val(p) as nat);
                        match spec_decode_entries(buf, after, digits_val(p) as nat) {
                            SpecEntries::Entries(es, c) => {
                                lemma_subrange_split(buf, pos, after, after + c);
                                assert(buf.subrange(pos, after + c) == (seq![37u8] + p + crlf())
                                    + spec_encode_entries(es, 0));
                            },
                            _ => {},
                        }
                    }
                }
            },
            _ => {},
        }
    }
}

pub proof fn lemma_decode_items_canonical(buf: Seq<u8>, pos: int, n: nat)
    requires
        0 <= pos <= buf.len(),
    ensures
        spec_decode_items(buf, pos, n) matches SpecItems::Items(vs, c) ==> 0 <= c && pos + c
            <= buf.len() && vs.len() == n && buf.subrange(pos, pos + c) == spec_encode_items(
            vs,
            0,
        ),
    decreases buf.len() - pos, 1int, n,
{
    if n == 0 {
        assert(buf.subrange(pos, pos) =~= Seq::<u8>::empty());
    } else {
        match spec_decode(buf, pos) {
            SpecOutcome::Parsed(v, c0) => {
                if 0 < c0 && pos + c0 <= buf.len() {
                    lemma_decode_canonical(buf, pos);
                    lemma_decode_items_canonical(buf, pos + c0, (n - 1) as nat);
                    match spec_decode_items(buf, pos + c0, (n - 1) as nat) {
                        SpecItems::Items(vs2, c2) => {
                            let vs = seq![v] + vs2;
                            assert(vs[0] == v);
                            lemma_enc_items_shift(v, vs2, 0);
                            lemma_subrange_split(buf, pos, pos + c0, pos + c0 + c2);
                            assert(spec_encode_items(vs, 0) == spec_encode(v)
                                + spec_encode_items(vs2, 0));
                        },
                        _ => {},
                    }
                }
            },
            _ => {},
        }
    }
}

pub proof fn lemma_decode_entries_canonical(buf: Seq<u8>, pos: int, n: nat)
    requires
        0 <= pos <= buf.len(),
    ensures
        spec_decode_entries(buf, pos, n) matches SpecEntries::Entries(es, c) ==> 0 <= c && pos + c
            <= buf.len() && es.len() == n && buf.subrange(pos, pos + c) == spec_encode_entries(
            es,
            0,
        ),
    decreases buf.len() - pos, 1int, n,
{
    if n == 0 {
        assert(buf.subrange(pos, pos) =~= Seq::<u8>::empty());
    } else {
        match spec_decode(buf, pos) {
            SpecOutcome::Parsed(k, ck) => {
                if k is SimpleString && 0 < ck && pos + ck <= buf.len() {
                    lemma_decode_canonical(buf, pos);
                    match spec_decode(buf, pos + ck) {
                        SpecOutcome::Parsed(v, cv) => {
                            if 0 < cv && pos + ck + cv <= buf.len() {
                                lemma_decode_canonical(buf, pos + ck);
                                lemma_decode_entries_canonical(buf, pos + ck + cv, (n - 1) as nat);
                                match spec_decode_entries(buf, pos + ck + cv, (n - 1) as nat) {
                                    SpecEntries::Entries(es2, c2) => {
                                        let kv = (k->SimpleString_0, v);
                                        let es = seq![kv] + es2;
                                        assert(es[0] == kv);
                                        lemma_enc_entries_shift(kv, es2, 0);
                                        lemma_subrange_split(buf, pos, pos + ck, pos + ck + cv
                                            + c2);
                                        lemma_subrange_split(buf, pos + ck, pos + ck + cv, pos + ck
                                            + cv + c2);
                                        assert(spec_encode(k) == seq![43u8] + k->SimpleString_0
                                            + crlf());
                                        assert(spec_encode_entries(es, 0) == (seq![43u8] + kv.0
                                            + crlf()) + (spec_encode(kv.1) + spec_encode_entries(
                                            es2,
                                            0,
                                        )));
                                    },
                                    _ => {},
                                }
                            }
                        },
                        _ => {},
                    }
                }
            },
            _ => {},
        }
    }
}

} // verus!

verus! {

// ---------------------------------------------------------------------------
// Stability: more input can only resolve Incomplete
// ---------------------------------------------------------------------------

pub proof fn lemma_find_break_first(buf: Seq<u8>, i: int)
    requires
        0 <= i <= buf.len(),
        find_break(buf, i) != -1,
    ensures
        forall|j: int| i <= j < find_break(buf, i) ==> buf[j] != 13 && buf[j] != 10,
    decreases buf.len() - i,
{
    if i < buf.len() && !(buf[i] == 13 || buf[i] == 10) {
        lemma_find_break_first(buf, i + 1);
    }
}

/// A found line survives appended input, and so does a bad terminator.
pub proof fn lemma_line_persists(buf: Seq<u8>, ext: Seq<u8>, pos: int)
    requires
        0 <= pos <= buf.len(),
    ensures
        spec_line(buf, pos) matches SpecLine::Line(e) ==> spec_line(buf + ext, pos)
            == SpecLine::Line(e),
        spec_line(buf, pos) == SpecLine::LineMalformed ==> spec_line(buf + ext, pos)
            == SpecLine::LineMalformed,
{
    let buf2 = buf + ext;
    let b = find_break(buf, pos);
    if b != -1 {
        lemma_find_break_hit(buf, pos);
        lemma_find_break_first(buf, pos);
        assert(forall|j: int| 0 <= j < buf.len() ==> buf2[j] == buf[j]);
        lemma_find_break_at(buf2, pos, b);
    }
}

/// What the decoder has settled stays settled: a parsed frame is still the
/// same parsed frame after more bytes arrive, and malformed input can never
/// become valid. Only `Incomplete` is provisional.
#[verifier::rlimit(100)]
pub proof fn lemma_decode_persists(buf: Seq<u8>, ext: Seq<u8>, pos: int)
    requires
        0 <= pos <= buf.len(),
    ensures
        spec_decode(buf, pos) matches SpecOutcome::Parsed(v, c) ==> spec_decode(buf + ext, pos)
            == SpecOutcome::Parsed(v, c),
        spec_decode(buf, pos) == SpecOutcome::Malformed ==> spec_decode(buf + ext, pos)
            == SpecOutcome::Malformed,
    decreases buf.len() - pos, 0int, 0int,
{
    let buf2 = buf + ext;
    if pos < buf.len() {
        assert(forall|j: int| 0 <= j < buf.len() ==> buf2[j] == buf[j]);
        lemma_line_persists(buf, ext, pos + 1);
        match spec_line(buf, pos + 1) {
            SpecLine::Line(e) => {
                lemma_find_break_hit(buf, pos + 1);
                let p = buf.subrange(pos + 1, e);
                assert(buf2.subrange(pos + 1, e) =~= p);
                let after: int = e + 2;
                let t = buf[pos];
                if t == 36 && !(p == seq![45u8, 49u8]) && valid_count(p) {
                    let n: int = digits_val(p);
                    lemma_digits_val_bounds(p);
                    if buf.len() >= after + n + 2 {
                        assert(buf2.subrange(after, after + n) =~= buf.subrange(after, after + n));
                        assert(buf2[after + n] == buf[after + n]);
                        assert(buf2[after + n + 1] == buf[after + n + 1]);
                    }
                } else if (t == 42 && !(p == seq![45u8, 49u8]) && valid_count(p)) || (t == 126
                    && valid_count(p)) {
                    lemma_decode_items_persists(buf, ext, after, digits_val(p) as nat);
                } else if t == 37 && valid_count(p) {
                    lemma_decode_entries_persists(buf, ext, after, digits_val(p) as nat);
                }
            },
            _ => {},
        }
    }
}

pub proof fn lemma_decode_items_persists(buf: Seq<u8>, ext: Seq<u8>, pos: int, n: nat)
    requires
        0 <= pos <= buf.len(),
    ensures
        spec_decode_items(buf, pos, n) matches SpecItems::Items(vs, c) ==> spec_decode_items(
            buf + ext,
            pos,
            n,
        ) == SpecItems::Items(vs, c),
        spec_decode_items(buf, pos, n) == SpecItems::ItemsMalformed ==> spec_decode_items(
            buf + ext,
            pos,
            n,
        ) == SpecItems::ItemsMalformed,
    decreases buf.len() - pos, 1int, n,
{
    if n > 0 {
        lemma_decode_persists(buf, ext, pos);
        match spec_decode(buf, pos) {
            SpecOutcome::Parsed(v, c) => {
                lemma_decode_canonical(buf, pos);
                assert(0 < c && pos + c <= buf.len());
                lemma_decode_items_persists(buf, ext, pos + c, (n - 1) as nat);
            },
            _ => {},
        }
    }
}

pub proof fn lemma_decode_entries_persists(buf: Seq<u8>, ext: Seq<u8>, pos: int, n: nat)
    requires
        0 <= pos <= buf.len(),
    ensures
        spec_decode_entries(buf, pos, n) matches SpecEntries::Entries(es, c) ==>
            spec_decode_entries(buf + ext, pos, n) == SpecEntries::Entries(es, c),
        spec_decode_entries(buf, pos, n) == SpecEntries::EntriesMalformed ==> spec_decode_entries(
            buf + ext,
            pos,
            n,
        ) == SpecEntries::EntriesMalformed,
    decreases buf.len() - pos, 1int, n,
{
    if n > 0 {
        lemma_decode_persists(buf, ext, pos);
        match spec_decode(buf, pos) {
            SpecOutcome::Parsed(k, ck) => {
                lemma_decode_canonical(buf, pos);
                assert(0 < ck && pos + ck <= buf.len());
                if k is SimpleString {
                    lemma_decode_persists(buf, ext, pos + ck);
                    match spec_decode(buf, pos + ck) {
                        SpecOutcome::Parsed(v, cv) => {
                            lemma_decode_canonical(buf, pos + ck);
                            assert(0 < cv && pos + ck + cv <= buf.len());
                            lemma_decode_entries_persists(buf, ext, pos + ck + cv, (n - 1) as nat);
                        },
                        _ => {},
                    }
                }
            },
            _ => {},
        }
    }
}

/// Malformed input is fatal: whatever bytes arrive later, the stream can
/// never become a valid frame.
pub proof fn lemma_malformed_is_fatal(buf: Seq<u8>, ext: Seq<u8>)
    requires
        spec_decode(buf, 0) == SpecOutcome::Malformed,
    ensures
        spec_decode(buf + ext, 0) == SpecOutcome::Malformed,
{
    lemma_decode_persists(buf, ext, 0);
}

} // verus!

//! The wire-protocol value model: one exec type per wire variant, plus the
//! ghost model (`FrameModel`) that every contract in the crate speaks of.

use vstd::prelude::*;

verus! {

// ---------------------------------------------------------------------------
// Ghost model
// ---------------------------------------------------------------------------

/// The mathematical value a frame denotes. Text and binary payloads are byte
/// sequences; a double is kept as its textual payload (sign, digits, optional
/// fraction and exponent), which is what the wire carries.
pub enum FrameModel {
    SimpleString(Seq<u8>),
    Error(Seq<u8>),
    Integer(i64),
    BulkString(Seq<u8>),
    NullBulkString,
    Array(Seq<FrameModel>),
    Null,
    NullArray,
    Boolean(bool),
    Double(Seq<u8>),
    MapFrame(Seq<(Seq<u8>, FrameModel)>),
    SetFrame(Seq<FrameModel>),
}

/// No carriage return and no line feed anywhere in `s`.
pub open spec fn crlf_free(s: Seq<u8>) -> bool {
    forall|i: int| 0 <= i < s.len() ==> s[i] != 13u8 && s[i] != 10u8
}

pub open spec fn is_digit(b: u8) -> bool {
    48 <= b <= 57
}

/// First index at or after `i` that holds a non-digit byte (or `d.len()`).
pub open spec fn digits_end(d: Seq<u8>, i: int) -> int
    decreases d.len() - i,
{
    if i < 0 {
        i
    } else if i >= d.len() {
        d.len() as int
    } else if is_digit(d[i]) {
        digits_end(d, i + 1)
    } else {
        i
    }
}

/// Grammar of a double payload: an explicit sign, an integral digit run,
/// optionally `.` and a fractional digit run, optionally `e`, an optional
/// `-`, and an exponent digit run.
pub open spec fn valid_double_repr(d: Seq<u8>) -> bool {
    let n: int = d.len() as int;
    if n < 1 || (d[0] != 43u8 && d[0] != 45u8) {
        false
    } else {
        let p1: int = digits_end(d, 1);
        if p1 <= 1 {
            false
        } else {
            let p2: int = if p1 < n && d[p1] == 46u8 {
                digits_end(d, p1 + 1)
            } else {
                p1
            };
            if p1 < n && d[p1] == 46u8 && p2 <= p1 + 1 {
                false
            } else if p2 == n {
                true
            } else if d[p2] == 101u8 {
                let e0: int = if p2 + 1 < n && d[p2 + 1] == 45u8 {
                    p2 + 2
                } else {
                    p2 + 1
                };
                let p3: int = digits_end(d, e0);
                p3 > e0 && p3 == n
            } else {
                false
            }
        }
    }
}

/// Strict byte-lexicographic order on byte sequences.
pub open spec fn lex_lt(a: Seq<u8>, b: Seq<u8>) -> bool
    decreases a.len(),
{
    if b.len() == 0 {
        false
    } else if a.len() == 0 {
        true
    } else if a[0] < b[0] {
        true
    } else if a[0] > b[0] {
        false
    } else {
        lex_lt(a.skip(1), b.skip(1))
    }
}

// ---------------------------------------------------------------------------
// Exec types
// ---------------------------------------------------------------------------

#[derive(Debug, PartialEq)]
pub struct SimpleString(pub Vec<u8>);

#[derive(Debug, PartialEq)]
pub struct SimpleError(pub Vec<u8>);

#[derive(Debug, PartialEq)]
pub struct BulkString(pub Vec<u8>);

#[derive(Debug, PartialEq)]
pub struct RespArray(pub Vec<RespFrame>);

#[derive(Debug, PartialEq)]
pub struct RespNull;

#[derive(Debug, PartialEq)]
pub struct RespNullArray;

#[derive(Debug, PartialEq)]
pub struct RespNullBulkString;

/// The textual payload of a double, e.g. `+123.456` or `-1.23456e-9`.
#[derive(Debug, PartialEq)]
pub struct RespDouble(pub Vec<u8>);

/// Entries are kept sorted by key (strict byte-lexicographic order), which is
/// the order the encoder emits them in.
#[derive(Debug, PartialEq)]
pub struct RespMap(pub Vec<(Vec<u8>, RespFrame)>);

#[derive(Debug, PartialEq)]
pub struct RespSet(pub Vec<RespFrame>);

#[derive(Debug, PartialEq)]
pub enum RespFrame {
    SimpleString(SimpleString),
    Error(SimpleError),
    Integer(i64),
    BulkString(BulkString),
    NullBulkString(RespNullBulkString),
    Array(RespArray),
    Null(RespNull),
    NullArray(RespNullArray),
    Boolean(bool),
    Double(RespDouble),
    MapFrame(RespMap),
    SetFrame(RespSet),
}

// ---------------------------------------------------------------------------
// From exec frames to the model
// ---------------------------------------------------------------------------

pub open spec fn frame_model(f: RespFrame) -> FrameModel
    decreases f, 0int, 0int,
{
    match f {
        RespFrame::SimpleString(s) => FrameModel::SimpleString(s.0@),
        RespFrame::Error(e) => FrameModel::Error(e.0@),
        RespFrame::Integer(i) => FrameModel::Integer(i),
        RespFrame::BulkString(b) => FrameModel::BulkString(b.0@),
        RespFrame::NullBulkString(_) => FrameModel::NullBulkString,
        RespFrame::Array(a) => FrameModel::Array(model_items(a.0@, 0)),
        RespFrame::Null(_) => FrameModel::Null,
        RespFrame::NullArray(_) => FrameModel::NullArray,
        RespFrame::Boolean(b) => FrameModel::Boolean(b),
        RespFrame::Double(d) => FrameModel::Double(d.0@),
        RespFrame::MapFrame(m) => FrameModel::MapFrame(model_entries(m.0@, 0)),
        RespFrame::SetFrame(s) => FrameModel::SetFrame(model_items(s.0@, 0)),
    }
}

pub open spec fn model_items(s: Seq<RespFrame>, i: int) -> Seq<FrameModel>
    decreases s, 1int, s.len() - i,
{
    if 0 <= i < s.len() {
        seq![frame_model(s[i])].add(model_items(s, i + 1))
    } else {
        Seq::empty()
    }
}

pub open spec fn model_entries(s: Seq<(Vec<u8>, RespFrame)>, i: int) -> Seq<(Seq<u8>, FrameModel)>
    decreases s, 1int, s.len() - i,
{
    if 0 <= i < s.len() {
        seq![(s[i].0@, frame_model(s[i].1))].add(model_entries(s, i + 1))
    } else {
        Seq::empty()
    }
}

pub proof fn lemma_model_items(s: Seq<RespFrame>, i: int)
    requires
        0 <= i <= s.len(),
    ensures
        model_items(s, i).len() == s.len() - i,
        forall|j: int| i <= j < s.len() ==> model_items(s, i)[j - i] == frame_model(s[j]),
    decreases s.len() - i,
{
    if i < s.len() {
        lemma_model_items(s, i + 1);
    }
}

pub proof fn lemma_model_entries(s: Seq<(Vec<u8>, RespFrame)>, i: int)
    requires
        0 <= i <= s.len(),
    ensures
        model_entries(s, i).len() == s.len() - i,
        forall|j: int| i <= j < s.len() ==> model_entries(s, i)[j - i] == (
        s[j].0@,
        frame_model(s[j].1),
        ),
    decreases s.len() - i,
{
    if i < s.len() {
        lemma_model_entries(s, i + 1);
    }
}

pub proof fn lemma_model_items_at(s: Seq<RespFrame>, j: int)
    requires
        0 <= j < s.len(),
    ensures
        model_items(s, 0).len() == s.len(),
        model_items(s, 0)[j] == frame_model(s[j]),
{
    lemma_model_items(s, 0);
    assert(model_items(s, 0)[j - 0] == frame_model(s[j]));
}

pub proof fn lemma_model_entries_at(s: Seq<(Vec<u8>, RespFrame)>, j: int)
    requires
        0 <= j < s.len(),
    ensures
        model_entries(s, 0).len() == s.len(),
        model_entries(s, 0)[j] == (s[j].0@, frame_model(s[j].1)),
{
    lemma_model_entries(s, 0);
    assert(model_entries(s, 0)[j - 0] == (s[j].0@, frame_model(s[j].1)));
}

// ---------------------------------------------------------------------------
// Well-formedness: the frames the encoder is total on and the round trip
// holds for.
// ---------------------------------------------------------------------------

pub open spec fn wf_model(m: FrameModel) -> bool
    decreases m, 0int, 0int,
{
    match m {
        FrameModel::SimpleString(s) => crlf_free(s),
        FrameModel::Error(s) => crlf_free(s),
        FrameModel::Integer(_) => true,
        FrameModel::BulkString(b) => b.len() <= usize::MAX,
        FrameModel::NullBulkString => true,
        FrameModel::Array(items) => items.len() <= usize::MAX && wf_items(items, 0),
        FrameModel::Null => true,
        FrameModel::NullArray => true,
        FrameModel::Boolean(_) => true,
        FrameModel::Double(d) => valid_double_repr(d),
        FrameModel::MapFrame(es) => es.len() <= usize::MAX && entries_sorted(es) && wf_entries(es, 0),
        FrameModel::SetFrame(items) => items.len() <= usize::MAX && wf_items(items, 0),
    }
}

pub open spec fn wf_items(s: Seq<FrameModel>, i: int) -> bool
    decreases s, 1int, s.len() - i,
{
    if 0 <= i < s.len() {
        wf_model(s[i]) && wf_items(s, i + 1)
    } else {
        true
    }
}

pub open spec fn wf_entries(s: Seq<(Seq<u8>, FrameModel)>, i: int) -> bool
    decreases s, 1int, s.len() - i,
{
    if 0 <= i < s.len() {
        crlf_free(s[i].0) && wf_model(s[i].1) && wf_entries(s, i + 1)
    } else {
        true
    }
}

/// Keys strictly ascend, which also makes them unique.
pub open spec fn entries_sorted(s: Seq<(Seq<u8>, FrameModel)>) -> bool {
    forall|j: int| 0 <= j && j + 1 < s.len() ==> lex_lt(#[trigger] s[j].0, s[j + 1].0)
}

pub proof fn lemma_wf_items(s: Seq<FrameModel>, i: int)
    requires
        0 <= i <= s.len(),
        wf_items(s, i),
    ensures
        forall|j: int| i <= j < s.len() ==> wf_model(#[trigger] s[j]),
    decreases s.len() - i,
{
    if i < s.len() {
        lemma_wf_items(s, i + 1);
    }
}

pub proof fn lemma_wf_entries(s: Seq<(Seq<u8>, FrameModel)>, i: int)
    requires
        0 <= i <= s.len(),
        wf_entries(s, i),
    ensures
        forall|j: int| i <= j < s.len() ==> crlf_free(#[trigger] s[j].0) && wf_model(s[j].1),
    decreases s.len() - i,
{
    if i < s.len() {
        lemma_wf_entries(s, i + 1);
    }
}

// ---------------------------------------------------------------------------
// Constructors
// ---------------------------------------------------------------------------

impl SimpleString {
    pub fn new(s: Vec<u8>) -> (r: Self)
        ensures
            r.0@ == s@,
    {
        SimpleString(s)
    }
}

impl SimpleError {
    pub fn new(s: Vec<u8>) -> (r: Self)
        ensures
            r.0@ == s@,
    {
        SimpleError(s)
    }
}

impl BulkString {
    pub fn new(s: Vec<u8>) -> (r: Self)
        ensures
            r.0@ == s@,
    {
        BulkString(s)
    }
}

impl RespArray {
    pub fn new(s: Vec<RespFrame>) -> (r: Self)
        ensures
            r.0@ == s@,
    {
        RespArray(s)
    }
}

impl RespDouble {
    pub fn new(s: Vec<u8>) -> (r: Self)
        ensures
            r.0@ == s@,
    {
        RespDouble(s)
    }
}

impl RespMap {
    pub fn new() -> (r: Self)
        ensures
            r.0@ == Seq::<(Vec<u8>, RespFrame)>::empty(),
    {
        RespMap(Vec::new())
    }
}

impl RespSet {
    pub fn new(s: Vec<RespFrame>) -> (r: Self)
        ensures
            r.0@ == s@,
    {
        RespSet(s)
    }
}

impl Default for RespMap {
    fn default() -> (r: Self)
        ensures
            r.0@ == Seq::<(Vec<u8>, RespFrame)>::empty(),
    {
        RespMap::new()
    }
}

} // verus!

//! The command layer: validating a request array against the grammar,
//! producing a typed command, and executing it against the store.

use vstd::prelude::*;
use crate::resp::{FrameModel, RespFrame, RespArray, RespNull, SimpleString, frame_model,
    model_items, lemma_model_items, lemma_model_items_at};
use crate::text::{is_utf8, is_utf8_bytes};
use crate::assoc::{bytes_eq, copy_bytes};
use crate::digits::dec_digits;
use crate::encode::{push_bytes, push_digits};
use crate::backend::Backend;

verus! {

/// The grammar's failure modes: an unrecognized or ill-shaped command name,
/// a wrong argument count or shape, or a key/field that is not UTF-8 text.
/// Each carries its message text as bytes; the contracts below pin the text
/// exactly (an arity error names the command and the expected count).
#[derive(Debug, PartialEq)]
pub enum CommandError {
    InvalidCommand(Vec<u8>),
    InvalidArguments(Vec<u8>),
    TextDecodeError(Vec<u8>),
}

impl CommandError {
    /// The message text carried by the error.
    pub fn message(&self) -> (r: &Vec<u8>)
        ensures
            match *self {
                CommandError::InvalidCommand(m) => r@ == m@,
                CommandError::InvalidArguments(m) => r@ == m@,
                CommandError::TextDecodeError(m) => r@ == m@,
            },
    {
        match self {
            CommandError::InvalidCommand(m) => m,
            CommandError::InvalidArguments(m) => m,
            CommandError::TextDecodeError(m) => m,
        }
    }
}

/// Ghost mirror of a command error, its message as a byte sequence.
pub enum CommandErrorModel {
    InvalidCommandM(Seq<u8>),
    InvalidArgumentsM(Seq<u8>),
    TextDecodeErrorM(Seq<u8>),
}

pub open spec fn error_model(e: CommandError) -> CommandErrorModel {
    match e {
        CommandError::InvalidCommand(m) => CommandErrorModel::InvalidCommandM(m@),
        CommandError::InvalidArguments(m) => CommandErrorModel::InvalidArgumentsM(m@),
        CommandError::TextDecodeError(m) => CommandErrorModel::TextDecodeErrorM(m@),
    }
}

#[derive(Debug, PartialEq)]
pub struct Get {
    pub key: Vec<u8>,
}

#[derive(Debug, PartialEq)]
pub struct SetCmd {
    pub key: Vec<u8>,
    pub value: RespFrame,
}

#[derive(Debug, PartialEq)]
pub struct HGet {
    pub key: Vec<u8>,
    pub field: Vec<u8>,
}

#[derive(Debug, PartialEq)]
pub struct HSet {
    pub key: Vec<u8>,
    pub field: Vec<u8>,
    pub value: RespFrame,
}

#[derive(Debug, PartialEq)]
pub struct HGetAll {
    pub key: Vec<u8>,
}

#[derive(Debug, PartialEq)]
pub enum Command {
    Get(Get),
    SetCmd(SetCmd),
    HGet(HGet),
    HSet(HSet),
    HGetAll(HGetAll),
}

/// Ghost mirror of a typed command.
pub enum CommandModel {
    GetM(Seq<u8>),
    SetM(Seq<u8>, FrameModel),
    HGetM(Seq<u8>, Seq<u8>),
    HSetM(Seq<u8>, Seq<u8>, FrameModel),
    HGetAllM(Seq<u8>),
}

pub open spec fn command_model(c: Command) -> CommandModel {
    match c {
        Command::Get(g) => CommandModel::GetM(g.key@),
        Command::SetCmd(s) => CommandModel::SetM(s.key@, frame_model(s.value)),
        Command::HGet(h) => CommandModel::HGetM(h.key@, h.field@),
        Command::HSet(h) => CommandModel::HSetM(h.key@, h.field@, frame_model(h.value)),
        Command::HGetAll(h) => CommandModel::HGetAllM(h.key@),
    }
}

// ---------------------------------------------------------------------------
// Tokens and case folding
// ---------------------------------------------------------------------------

pub open spec fn tok_get() -> Seq<u8> {
    seq![103u8, 101u8, 116u8]
}

pub open spec fn tok_set() -> Seq<u8> {
    seq![115u8, 101u8, 116u8]
}

pub open spec fn tok_hget() -> Seq<u8> {
    seq![104u8, 103u8, 101u8, 116u8]
}

pub open spec fn tok_hset() -> Seq<u8> {
    seq![104u8, 115u8, 101u8, 116u8]
}

pub open spec fn tok_hgetall() -> Seq<u8> {
    seq![104u8, 103u8, 101u8, 116u8, 97u8, 108u8, 108u8]
}

pub open spec fn ok_text() -> Seq<u8> {
    seq![79u8, 75u8]
}

pub open spec fn lower_byte(b: u8) -> u8 {
    if 65 <= b <= 90 {
        (b + 32) as u8
    } else {
        b
    }
}

pub open spec fn lower_bytes(s: Seq<u8>) -> Seq<u8> {
    Seq::new(s.len(), |i: int| lower_byte(s[i]))
}

fn lower_vec(v: &Vec<u8>) -> (r: Vec<u8>)
    ensures
        r@ == lower_bytes(v@),
{
    let mut out: Vec<u8> = Vec::new();
    let mut i: usize = 0;
    while i < v.len()
        invariant
            i <= v.len(),
            out@.len() == i,
            forall|j: int| 0 <= j < i ==> out@[j] == lower_byte(v@[j]),
        decreases v.len() - i,
    {
        let b = v[i];
        if 65 <= b && b <= 90 {
            out.push(b + 32);
        } else {
            out.push(b);
        }
        i = i + 1;
    }
    proof {
        assert(out@ =~= lower_bytes(v@));
    }
    out
}

/// A frame's model is a bulk string (or an array) exactly when the frame
/// is.
pub proof fn lemma_model_variant(f: RespFrame)
    ensures
        (frame_model(f) is BulkString) <==> (f is BulkString),
        (frame_model(f) is BulkString) ==> frame_model(f)->BulkString_0 == f->BulkString_0.0@,
        (frame_model(f) is Array) <==> (f is Array),
        (frame_model(f) is Array) ==> frame_model(f)->Array_0 == model_items(f->Array_0.0@, 0),
{
    match f {
        RespFrame::SimpleString(_) => {},
        RespFrame::Error(_) => {},
        RespFrame::Integer(_) => {},
        RespFrame::BulkString(_) => {},
        RespFrame::NullBulkString(_) => {},
        RespFrame::Array(_) => {},
        RespFrame::Null(_) => {},
        RespFrame::NullArray(_) => {},
        RespFrame::Boolean(_) => {},
        RespFrame::Double(_) => {},
        RespFrame::MapFrame(_) => {},
        RespFrame::SetFrame(_) => {},
    }
}

// ---------------------------------------------------------------------------
// Error messages
// ---------------------------------------------------------------------------

/// The text ` command must have exactly `.
pub open spec fn txt_arity_mid() -> Seq<u8> {
    seq![32u8, 99u8, 111u8, 109u8, 109u8, 97u8, 110u8, 100u8, 32u8, 109u8, 117u8, 115u8, 116u8, 32u8, 104u8, 97u8, 118u8, 101u8, 32u8, 101u8, 120u8, 97u8, 99u8, 116u8, 108u8, 121u8, 32u8]
}

/// The text ` argument`.
pub open spec fn txt_arity_end() -> Seq<u8> {
    seq![32u8, 97u8, 114u8, 103u8, 117u8, 109u8, 101u8, 110u8, 116u8]
}

/// The text `Invalid command: expected `.
pub open spec fn txt_expected() -> Seq<u8> {
    seq![73u8, 110u8, 118u8, 97u8, 108u8, 105u8, 100u8, 32u8, 99u8, 111u8, 109u8, 109u8, 97u8, 110u8, 100u8, 58u8, 32u8, 101u8, 120u8, 112u8, 101u8, 99u8, 116u8, 101u8, 100u8, 32u8]
}

/// The text `, got `.
pub open spec fn txt_got() -> Seq<u8> {
    seq![44u8, 32u8, 103u8, 111u8, 116u8, 32u8]
}

/// The text `Command must have a BulkString as the first argument`.
pub open spec fn txt_first_elem() -> Seq<u8> {
    seq![67u8, 111u8, 109u8, 109u8, 97u8, 110u8, 100u8, 32u8, 109u8, 117u8, 115u8, 116u8, 32u8, 104u8, 97u8, 118u8, 101u8, 32u8, 97u8, 32u8, 66u8, 117u8, 108u8, 107u8, 83u8, 116u8, 114u8, 105u8, 110u8, 103u8, 32u8, 97u8, 115u8, 32u8, 116u8, 104u8, 101u8, 32u8, 102u8, 105u8, 114u8, 115u8, 116u8, 32u8, 97u8, 114u8, 103u8, 117u8, 109u8, 101u8, 110u8, 116u8]
}

/// The text `Invalid command: `.
pub open spec fn txt_unknown() -> Seq<u8> {
    seq![73u8, 110u8, 118u8, 97u8, 108u8, 105u8, 100u8, 32u8, 99u8, 111u8, 109u8, 109u8, 97u8, 110u8, 100u8, 58u8, 32u8]
}

/// The text `Utf8 error: `.
pub open spec fn txt_utf8() -> Seq<u8> {
    seq![85u8, 116u8, 102u8, 56u8, 32u8, 101u8, 114u8, 114u8, 111u8, 114u8, 58u8, 32u8]
}

/// The text `Invalid key`.
pub open spec fn txt_invalid_key() -> Seq<u8> {
    seq![73u8, 110u8, 118u8, 97u8, 108u8, 105u8, 100u8, 32u8, 107u8, 101u8, 121u8]
}

/// The text `Invalid key or value`.
pub open spec fn txt_invalid_key_value() -> Seq<u8> {
    seq![73u8, 110u8, 118u8, 97u8, 108u8, 105u8, 100u8, 32u8, 107u8, 101u8, 121u8, 32u8, 111u8, 114u8, 32u8, 118u8, 97u8, 108u8, 117u8, 101u8]
}

/// The text `Invalid key or field`.
pub open spec fn txt_invalid_key_field() -> Seq<u8> {
    seq![73u8, 110u8, 118u8, 97u8, 108u8, 105u8, 100u8, 32u8, 107u8, 101u8, 121u8, 32u8, 111u8, 114u8, 32u8, 102u8, 105u8, 101u8, 108u8, 100u8]
}

/// The text `Invalid key, field or value`.
pub open spec fn txt_invalid_key_field_value() -> Seq<u8> {
    seq![73u8, 110u8, 118u8, 97u8, 108u8, 105u8, 100u8, 32u8, 107u8, 101u8, 121u8, 44u8, 32u8, 102u8, 105u8, 101u8, 108u8, 100u8, 32u8, 111u8, 114u8, 32u8, 118u8, 97u8, 108u8, 117u8, 101u8]
}

/// The text `Command must be an Array`.
pub open spec fn txt_envelope() -> Seq<u8> {
    seq![67u8, 111u8, 109u8, 109u8, 97u8, 110u8, 100u8, 32u8, 109u8, 117u8, 115u8, 116u8, 32u8, 98u8, 101u8, 32u8, 97u8, 110u8, 32u8, 65u8, 114u8, 114u8, 97u8, 121u8]
}

/// `{name} command must have exactly {n_args} argument`.
pub open spec fn arity_message(name: Seq<u8>, n_args: int) -> Seq<u8> {
    name + txt_arity_mid() + dec_digits(n_args as nat) + txt_arity_end()
}

/// `Invalid command: expected {name}, got {got}`.
pub open spec fn mismatch_message(name: Seq<u8>, got: Seq<u8>) -> Seq<u8> {
    txt_expected() + name + txt_got() + got
}

/// `Invalid command: {got}`.
pub open spec fn unknown_message(got: Seq<u8>) -> Seq<u8> {
    txt_unknown() + got
}

/// `Utf8 error: {arg}`, carrying the offending bytes as they came.
pub open spec fn utf8_message(arg: Seq<u8>) -> Seq<u8> {
    txt_utf8() + arg
}

fn txt_arity_mid_vec() -> (r: Vec<u8>)
    ensures
        r@ == txt_arity_mid(),
{
    let mut v: Vec<u8> = Vec::new();
    v.push(32);
    v.push(99);
    v.push(111);
    v.push(109);
    v.push(109);
    v.push(97);
    v.push(110);
    v.push(100);
    v.push(32);
    v.push(109);
    v.push(117);
    v.push(115);
    v.push(116);
    v.push(32);
    v.push(104);
    v.push(97);
    v.push(118);
    v.push(101);
    v.push(32);
    v.push(101);
    v.push(120);
    v.push(97);
    v.push(99);
    v.push(116);
    v.push(108);
    v.push(121);
    v.push(32);
    proof {
        assert(v@ =~= txt_arity_mid());
    }
    v
}

fn txt_arity_end_vec() -> (r: Vec<u8>)
    ensures
        r@ == txt_arity_end(),
{
    let mut v: Vec<u8> = Vec::new();
    v.push(32);
    v.push(97);
    v.push(114);
    v.push(103);
    v.push(117);
    v.push(109);
    v.push(101);
    v.push(110);
    v.push(116);
    proof {
        assert(v@ =~= txt_arity_end());
    }
    v
}

fn txt_expected_vec() -> (r: Vec<u8>)
    ensures
        r@ == txt_expected(),
{
    let mut v: Vec<u8> = Vec::new();
    v.push(73);
    v.push(110);
    v.push(118);
    v.push(97);
    v.push(108);
    v.push(105);
    v.push(100);
    v.push(32);
    v.push(99);
    v.push(111);
    v.push(109);
    v.push(109);
    v.push(97);
    v.push(110);
    v.push(100);
    v.push(58);
    v.push(32);
    v.push(101);
    v.push(120);
    v.push(112);
    v.push(101);
    v.push(99);
    v.push(116);
    v.push(101);
    v.push(100);
    v.push(32);
    proof {
        assert(v@ =~= txt_expected());
    }
    v
}

fn txt_got_vec() -> (r: Vec<u8>)
    ensures
        r@ == txt_got(),
{
    let mut v: Vec<u8> = Vec::new();
    v.push(44);
    v.push(32);
    v.push(103);
    v.push(111);
    v.push(116);
    v.push(32);
    proof {
        assert(v@ =~= txt_got());
    }
    v
}

fn txt_first_elem_vec() -> (r: Vec<u8>)
    ensures
        r@ == txt_first_elem(),
{
    let mut v: Vec<u8> = Vec::new();
    v.push(67);
    v.push(111);
    v.push(109);
    v.push(109);
    v.push(97);
    v.push(110);
    v.push(100);
    v.push(32);
    v.push(109);
    v.push(117);
    v.push(115);
    v.push(116);
    v.push(32);
    v.push(104);
    v.push(97);
    v.push(118);
    v.push(101);
    v.push(32);
    v.push(97);
    v.push(32);
    v.push(66);
    v.push(117);
    v.push(108);
    v.push(107);
    v.push(83);
    v.push(116);
    v.push(114);
    v.push(105);
    v.push(110);
    v.push(103);
    v.push(32);
    v.push(97);
    v.push(115);
    v.push(32);
    v.push(116);
    v.push(104);
    v.push(101);
    v.push(32);
    v.push(102);
    v.push(105);
    v.push(114);
    v.push(115);
    v.push(116);
    v.push(32);
    v.push(97);
    v.push(114);
    v.push(103);
    v.push(117);
    v.push(109);
    v.push(101);
    v.push(110);
    v.push(116);
    proof {
        assert(v@ =~= txt_first_elem());
    }
    v
}

fn txt_unknown_vec() -> (r: Vec<u8>)
    ensures
        r@ == txt_unknown(),
{
    let mut v: Vec<u8> = Vec::new();
    v.push(73);
    v.push(110);
    v.push(118);
    v.push(97);
    v.push(108);
    v.push(105);
    v.push(100);
    v.push(32);
    v.push(99);
    v.push(111);
    v.push(109);
    v.push(109);
    v.push(97);
    v.push(110);
    v.push(100);
    v.push(58);
    v.push(32);
    proof {
        assert(v@ =~= txt_unknown());
    }
    v
}

fn txt_utf8_vec() -> (r: Vec<u8>)
    ensures
        r@ == txt_utf8(),
{
    let mut v: Vec<u8> = Vec::new();
    v.push(85);
    v.push(116);
    v.push(102);
    v.push(56);
    v.push(32);
    v.push(101);
    v.push(114);
    v.push(114);
    v.push(111);
    v.push(114);
    v.push(58);
    v.push(32);
    proof {
        assert(v@ =~= txt_utf8());
    }
    v
}

fn txt_invalid_key_vec() -> (r: Vec<u8>)
    ensures
        r@ == txt_invalid_key(),
{
    let mut v: Vec<u8> = Vec::new();
    v.push(73);
    v.push(110);
    v.push(118);
    v.push(97);
    v.push(108);
    v.push(105);
    v.push(100);
    v.push(32);
    v.push(107);
    v.push(101);
    v.push(121);
    proof {
        assert(v@ =~= txt_invalid_key());
    }
    v
}

fn txt_invalid_key_value_vec() -> (r: Vec<u8>)
    ensures
        r@ == txt_invalid_key_value(),
{
    let mut v: Vec<u8> = Vec::new();
    v.push(73);
    v.push(110);
    v.push(118);
    v.push(97);
    v.push(108);
    v.push(105);
    v.push(100);
    v.push(32);
    v.push(107);
    v.push(101);
    v.push(121);
    v.push(32);
    v.push(111);
    v.push(114);
    v.push(32);
    v.push(118);
    v.push(97);
    v.push(108);
    v.push(117);
    v.push(101);
    proof {
        assert(v@ =~= txt_invalid_key_value());
    }
    v
}

fn txt_invalid_key_field_vec() -> (r: Vec<u8>)
    ensures
        r@ == txt_invalid_key_field(),
{
    let mut v: Vec<u8> = Vec::new();
    v.push(73);
    v.push(110);
    v.push(118);
    v.push(97);
    v.push(108);
    v.push(105);
    v.push(100);
    v.push(32);
    v.push(107);
    v.push(101);
    v.push(121);
    v.push(32);
    v.push(111);
    v.push(114);
    v.push(32);
    v.push(102);
    v.push(105);
    v.push(101);
    v.push(108);
    v.push(100);
    proof {
        assert(v@ =~= txt_invalid_key_field());
    }
    v
}

fn txt_invalid_key_field_value_vec() -> (r: Vec<u8>)
    ensures
        r@ == txt_invalid_key_field_value(),
{
    let mut v: Vec<u8> = Vec::new();
    v.push(73);
    v.push(110);
    v.push(118);
    v.push(97);
    v.push(108);
    v.push(105);
    v.push(100);
    v.push(32);
    v.push(107);
    v.push(101);
    v.push(121);
    v.push(44);
    v.push(32);
    v.push(102);
    v.push(105);
    v.push(101);
    v.push(108);
    v.push(100);
    v.push(32);
    v.push(111);
    v.push(114);
    v.push(32);
    v.push(118);
    v.push(97);
    v.push(108);
    v.push(117);
    v.push(101);
    proof {
        assert(v@ =~= txt_invalid_key_field_value());
    }
    v
}

fn txt_envelope_vec() -> (r: Vec<u8>)
    ensures
        r@ == txt_envelope(),
{
    let mut v: Vec<u8> = Vec::new();
    v.push(67);
    v.push(111);
    v.push(109);
    v.push(109);
    v.push(97);
    v.push(110);
    v.push(100);
    v.push(32);
    v.push(109);
    v.push(117);
    v.push(115);
    v.push(116);
    v.push(32);
    v.push(98);
    v.push(101);
    v.push(32);
    v.push(97);
    v.push(110);
    v.push(32);
    v.push(65);
    v.push(114);
    v.push(114);
    v.push(97);
    v.push(121);
    proof {
        assert(v@ =~= txt_envelope());
    }
    v
}

fn arity_message_vec(name: &Vec<u8>, n_args: usize) -> (r: Vec<u8>)
    ensures
        r@ == arity_message(name@, n_args as int),
{
    let mut out = copy_bytes(name);
    let mid = txt_arity_mid_vec();
    push_bytes(&mut out, &mid);
    push_digits(n_args as u64, &mut out);
    let end = txt_arity_end_vec();
    push_bytes(&mut out, &end);
    proof {
        assert(out@ =~= arity_message(name@, n_args as int));
    }
    out
}

fn mismatch_message_vec(name: &Vec<u8>, got: &Vec<u8>) -> (r: Vec<u8>)
    ensures
        r@ == mismatch_message(name@, got@),
{
    let mut out = txt_expected_vec();
    push_bytes(&mut out, name);
    let mid = txt_got_vec();
    push_bytes(&mut out, &mid);
    push_bytes(&mut out, got);
    proof {
        assert(out@ =~= mismatch_message(name@, got@));
    }
    out
}

fn unknown_message_vec(got: &Vec<u8>) -> (r: Vec<u8>)
    ensures
        r@ == unknown_message(got@),
{
    let mut out = txt_unknown_vec();
    push_bytes(&mut out, got);
    proof {
        assert(out@ =~= unknown_message(got@));
    }
    out
}

fn utf8_message_vec(arg: &Vec<u8>) -> (r: Vec<u8>)
    ensures
        r@ == utf8_message(arg@),
{
    let mut out = txt_utf8_vec();
    push_bytes(&mut out, arg);
    proof {
        assert(out@ =~= utf8_message(arg@));
    }
    out
}

// ---------------------------------------------------------------------------
// The grammar, per command
// ---------------------------------------------------------------------------

/// `get key`: two elements; the key must be a UTF-8 bulk string.
pub open spec fn spec_parse_get(a: Seq<FrameModel>) -> Result<Seq<u8>, CommandErrorModel> {
    if a.len() != 2 {
        Err(CommandErrorModel::InvalidArgumentsM(arity_message(tok_get(), 1)))
    } else if !(a[0] is BulkString) {
        Err(CommandErrorModel::InvalidCommandM(txt_first_elem()))
    } else if lower_bytes(a[0]->BulkString_0) != tok_get() {
        Err(CommandErrorModel::InvalidCommandM(mismatch_message(tok_get(), a[0]->BulkString_0)))
    } else if !(a[1] is BulkString) {
        Err(CommandErrorModel::InvalidArgumentsM(txt_invalid_key()))
    } else if !is_utf8(a[1]->BulkString_0) {
        Err(CommandErrorModel::TextDecodeErrorM(utf8_message(a[1]->BulkString_0)))
    } else {
        Ok(a[1]->BulkString_0)
    }
}

/// `set key value`: three elements; the key must be a UTF-8 bulk string, the
/// value may be any frame and is stored as-is.
pub open spec fn spec_parse_set(a: Seq<FrameModel>) -> Result<
    (Seq<u8>, FrameModel),
    CommandErrorModel,
> {
    if a.len() != 3 {
        Err(CommandErrorModel::InvalidArgumentsM(arity_message(tok_set(), 2)))
    } else if !(a[0] is BulkString) {
        Err(CommandErrorModel::InvalidCommandM(txt_first_elem()))
    } else if lower_bytes(a[0]->BulkString_0) != tok_set() {
        Err(CommandErrorModel::InvalidCommandM(mismatch_message(tok_set(), a[0]->BulkString_0)))
    } else if !(a[1] is BulkString) {
        Err(CommandErrorModel::InvalidArgumentsM(txt_invalid_key_value()))
    } else if !is_utf8(a[1]->BulkString_0) {
        Err(CommandErrorModel::TextDecodeErrorM(utf8_message(a[1]->BulkString_0)))
    } else {
        Ok((a[1]->BulkString_0, a[2]))
    }
}

/// `hget key field`: three elements; key and field must be UTF-8 bulk
/// strings.
pub open spec fn spec_parse_hget(a: Seq<FrameModel>) -> Result<
    (Seq<u8>, Seq<u8>),
    CommandErrorModel,
> {
    if a.len() != 3 {
        Err(CommandErrorModel::InvalidArgumentsM(arity_message(tok_hget(), 2)))
    } else if !(a[0] is BulkString) {
        Err(CommandErrorModel::InvalidCommandM(txt_first_elem()))
    } else if lower_bytes(a[0]->BulkString_0) != tok_hget() {
        Err(CommandErrorModel::InvalidCommandM(mismatch_message(tok_hget(), a[0]->BulkString_0)))
    } else if !(a[1] is BulkString) || !(a[2] is BulkString) {
        Err(CommandErrorModel::InvalidArgumentsM(txt_invalid_key_field()))
    } else if !is_utf8(a[1]->BulkString_0) {
        Err(CommandErrorModel::TextDecodeErrorM(utf8_message(a[1]->BulkString_0)))
    } else if !is_utf8(a[2]->BulkString_0) {
        Err(CommandErrorModel::TextDecodeErrorM(utf8_message(a[2]->BulkString_0)))
    } else {
        Ok((a[1]->BulkString_0, a[2]->BulkString_0))
    }
}

/// `hset key field value`: four elements; key and field must be UTF-8 bulk
/// strings, the value may be any frame.
pub open spec fn spec_parse_hset(a: Seq<FrameModel>) -> Result<
    (Seq<u8>, Seq<u8>, FrameModel),
    CommandErrorModel,
> {
    if a.len() != 4 {
        Err(CommandErrorModel::InvalidArgumentsM(arity_message(tok_hset(), 3)))
    } else if !(a[0] is BulkString) {
        Err(CommandErrorModel::InvalidCommandM(txt_first_elem()))
    } else if lower_bytes(a[0]->BulkString_0) != tok_hset() {
        Err(CommandErrorModel::InvalidCommandM(mismatch_message(tok_hset(), a[0]->BulkString_0)))
    } else if !(a[1] is BulkString) || !(a[2] is BulkString) {
        Err(CommandErrorModel::InvalidArgumentsM(txt_invalid_key_field_value()))
    } else if !is_utf8(a[1]->BulkString_0) {
        Err(CommandErrorModel::TextDecodeErrorM(utf8_message(a[1]->BulkString_0)))
    } else if !is_utf8(a[2]->BulkString_0) {
        Err(CommandErrorModel::TextDecodeErrorM(utf8_message(a[2]->BulkString_0)))
    } else {
        Ok((a[1]->BulkString_0, a[2]->BulkString_0, a[3]))
    }
}

/// `hgetall key`: two elements; the key must be a UTF-8 bulk string.
pub open spec fn spec_parse_hgetall(a: Seq<FrameModel>) -> Result<Seq<u8>, CommandErrorModel> {
    if a.len() != 2 {
        Err(CommandErrorModel::InvalidArgumentsM(arity_message(tok_hgetall(), 1)))
    } else if !(a[0] is BulkString) {
        Err(CommandErrorModel::InvalidCommandM(txt_first_elem()))
    } else if lower_bytes(a[0]->BulkString_0) != tok_hgetall() {
        Err(CommandErrorModel::InvalidCommandM(mismatch_message(
            tok_hgetall(),
            a[0]->BulkString_0,
        )))
    } else if !(a[1] is BulkString) {
        Err(CommandErrorModel::InvalidArgumentsM(txt_invalid_key()))
    } else if !is_utf8(a[1]->BulkString_0) {
        Err(CommandErrorModel::TextDecodeErrorM(utf8_message(a[1]->BulkString_0)))
    } else {
        Ok(a[1]->BulkString_0)
    }
}

/// The whole request grammar: the first element must be a bulk string whose
/// exact bytes select a command; everything else is that command's business.
pub open spec fn spec_parse(a: Seq<FrameModel>) -> Result<CommandModel, CommandErrorModel> {
    if a.len() == 0 || !(a[0] is BulkString) {
        Err(CommandErrorModel::InvalidCommandM(txt_first_elem()))
    } else {
        let t = a[0]->BulkString_0;
        if t == tok_get() {
            match spec_parse_get(a) {
                Ok(k) => Ok(CommandModel::GetM(k)),
                Err(e) => Err(e),
            }
        } else if t == tok_set() {
            match spec_parse_set(a) {
                Ok(kv) => Ok(CommandModel::SetM(kv.0, kv.1)),
                Err(e) => Err(e),
            }
        } else if t == tok_hget() {
            match spec_parse_hget(a) {
                Ok(kf) => Ok(CommandModel::HGetM(kf.0, kf.1)),
                Err(e) => Err(e),
            }
        } else if t == tok_hset() {
            match spec_parse_hset(a) {
                Ok(kfv) => Ok(CommandModel::HSetM(kfv.0, kfv.1, kfv.2)),
                Err(e) => Err(e),
            }
        } else if t == tok_hgetall() {
            match spec_parse_hgetall(a) {
                Ok(k) => Ok(CommandModel::HGetAllM(k)),
                Err(e) => Err(e),
            }
        } else {
            Err(CommandErrorModel::InvalidCommandM(unknown_message(t)))
        }
    }
}

// ---------------------------------------------------------------------------
// Validation helpers
// ---------------------------------------------------------------------------

/// Check the request array's shape: exactly `n_args` arguments after the
/// name, and a first element that is a bulk string matching `name`
/// case-insensitively.
pub fn validate_command(value: &RespArray, name: &Vec<u8>, n_args: usize) -> (r: Result<
    (),
    CommandError,
>)
    ensures
        match r {
            Ok(()) => value.0@.len() == n_args + 1 && frame_model(value.0@[0]) is BulkString
                && lower_bytes(frame_model(value.0@[0])->BulkString_0) == name@,
            Err(e) => match error_model(e) {
                CommandErrorModel::InvalidArgumentsM(m) => value.0@.len() != n_args + 1 && m
                    == arity_message(name@, n_args as int),
                CommandErrorModel::InvalidCommandM(m) => value.0@.len() == n_args + 1 && ((!(
                frame_model(value.0@[0]) is BulkString) && m == txt_first_elem()) || (frame_model(
                    value.0@[0],
                ) is BulkString && lower_bytes(frame_model(value.0@[0])->BulkString_0) != name@
                    && m == mismatch_message(name@, frame_model(value.0@[0])->BulkString_0))),
                CommandErrorModel::TextDecodeErrorM(_) => false,
            },
        },
{
    if value.0.len() < 1 || value.0.len() - 1 != n_args {
        return Err(CommandError::InvalidArguments(arity_message_vec(name, n_args)));
    }
    proof {
        lemma_model_variant(value.0@[0]);
    }
    match &value.0[0] {
        RespFrame::BulkString(b) => {
            let low = lower_vec(&b.0);
            if bytes_eq(&low, name) {
                Ok(())
            } else {
                Err(CommandError::InvalidCommand(mismatch_message_vec(name, &b.0)))
            }
        },
        _ => Err(CommandError::InvalidCommand(txt_first_elem_vec())),
    }
}

/// Hand back the elements of the request array from `start` on, in order.
pub fn extract_args(value: RespArray, start: usize) -> (r: Result<Vec<RespFrame>, CommandError>)
    requires
        start <= value.0@.len(),
    ensures
        match r {
            Ok(args) => args@ == value.0@.skip(start as int),
            Err(_) => false,
        },
{
    let mut v = value.0;
    let ghost orig = v@;
    let mut out: Vec<RespFrame> = Vec::new();
    proof {
        assert(out@ + v@.skip(start as int) =~= orig.skip(start as int));
    }
    while v.len() > start
        invariant
            v@.len() >= start,
            out@ + v@.skip(start as int) == orig.skip(start as int),
        decreases v@.len() - start,
    {
        let ghost oldv = v@;
        let ghost oldout = out@;
        let x = v.remove(start);
        out.push(x);
        proof {
            assert(v@ =~= oldv.remove(start as int));
            assert(oldout.push(x) + v@.skip(start as int) =~= oldout + oldv.skip(start as int));
        }
    }
    proof {
        assert(v@.skip(start as int) =~= Seq::<RespFrame>::empty());
        assert(out@ + Seq::<RespFrame>::empty() =~= out@);
    }
    Ok(out)
}

} // verus!

verus! {

// ---------------------------------------------------------------------------
// Typed command extraction
// ---------------------------------------------------------------------------

fn tok_get_vec() -> (r: Vec<u8>)
    ensures
        r@ == tok_get(),
{
    let mut v: Vec<u8> = Vec::new();
    v.push(103);
    v.push(101);
    v.push(116);
    proof {
        assert(v@ =~= tok_get());
    }
    v
}

fn tok_set_vec() -> (r: Vec<u8>)
    ensures
        r@ == tok_set(),
{
    let mut v: Vec<u8> = Vec::new();
    v.push(115);
    v.push(101);
    v.push(116);
    proof {
        assert(v@ =~= tok_set());
    }
    v
}

fn tok_hget_vec() -> (r: Vec<u8>)
    ensures
        r@ == tok_hget(),
{
    let mut v: Vec<u8> = Vec::new();
    v.push(104);
    v.push(103);
    v.push(101);
    v.push(116);
    proof {
        assert(v@ =~= tok_hget());
    }
    v
}

fn tok_hset_vec() -> (r: Vec<u8>)
    ensures
        r@ == tok_hset(),
{
    let mut v: Vec<u8> = Vec::new();
    v.push(104);
    v.push(115);
    v.push(101);
    v.push(116);
    proof {
        assert(v@ =~= tok_hset());
    }
    v
}

fn tok_hgetall_vec() -> (r: Vec<u8>)
    ensures
        r@ == tok_hgetall(),
{
    let mut v: Vec<u8> = Vec::new();
    v.push(104);
    v.push(103);
    v.push(101);
    v.push(116);
    v.push(97);
    v.push(108);
    v.push(108);
    proof {
        assert(v@ =~= tok_hgetall());
    }
    v
}

impl Get {
    /// Extract a `get` command from a request array.
    pub fn try_from_array(frame: RespArray) -> (r: Result<Get, CommandError>)
        ensures
            match r {
                Ok(g) => spec_parse_get(model_items(frame.0@, 0)) == Ok::<
                    Seq<u8>,
                    CommandErrorModel,
                >(g.key@),
                Err(e) => spec_parse_get(model_items(frame.0@, 0)) == Err::<
                    Seq<u8>,
                    CommandErrorModel,
                >(error_model(e)),
            },
    {
        let ghost ms = model_items(frame.0@, 0);
        proof {
            lemma_model_items(frame.0@, 0);
            if frame.0@.len() > 0 {
                lemma_model_items_at(frame.0@, 0);
            }
        }
        let name = tok_get_vec();
        match validate_command(&frame, &name, 1) {
            Err(e) => {
                return Err(e);
            },
            Ok(()) => {},
        }
        proof {
            lemma_model_items_at(frame.0@, 1);
        }
        let mut v = frame.0;
        let arg = v.remove(1);
        let ghost am = frame_model(arg);
        proof {
            lemma_model_variant(arg);
            assert(am == ms[1]);
        }
        match arg {
            RespFrame::BulkString(b) => {
                if is_utf8_bytes(&b.0) {
                    Ok(Get { key: b.0 })
                } else {
                    Err(CommandError::TextDecodeError(utf8_message_vec(&b.0)))
                }
            },
            _ => Err(CommandError::InvalidArguments(txt_invalid_key_vec())),
        }
    }
}

impl SetCmd {
    /// Extract a `set` command from a request array.
    pub fn try_from_array(frame: RespArray) -> (r: Result<SetCmd, CommandError>)
        ensures
            match r {
                Ok(s) => spec_parse_set(model_items(frame.0@, 0)) == Ok::<
                    (Seq<u8>, FrameModel),
                    CommandErrorModel,
                >((s.key@, frame_model(s.value))),
                Err(e) => spec_parse_set(model_items(frame.0@, 0)) == Err::<
                    (Seq<u8>, FrameModel),
                    CommandErrorModel,
                >(error_model(e)),
            },
    {
        let ghost ms = model_items(frame.0@, 0);
        proof {
            lemma_model_items(frame.0@, 0);
            if frame.0@.len() > 0 {
                lemma_model_items_at(frame.0@, 0);
            }
        }
        let name = tok_set_vec();
        match validate_command(&frame, &name, 2) {
            Err(e) => {
                return Err(e);
            },
            Ok(()) => {},
        }
        proof {
            lemma_model_items_at(frame.0@, 1);
            lemma_model_items_at(frame.0@, 2);
        }
        let mut v = frame.0;
        let value = v.remove(2);
        let argk = v.remove(1);
        let ghost am = frame_model(argk);
        proof {
            assert(value == frame.0@[2]);
            assert(argk == frame.0@[1]);
            lemma_model_variant(argk);
            assert(am == ms[1]);
            assert(frame_model(value) == ms[2]);
        }
        match argk {
            RespFrame::BulkString(b) => {
                if is_utf8_bytes(&b.0) {
                    Ok(SetCmd { key: b.0, value })
                } else {
                    Err(CommandError::TextDecodeError(utf8_message_vec(&b.0)))
                }
            },
            _ => Err(CommandError::InvalidArguments(txt_invalid_key_value_vec())),
        }
    }
}

impl HGet {
    /// Extract an `hget` command from a request array.
    pub fn try_from_array(frame: RespArray) -> (r: Result<HGet, CommandError>)
        ensures
            match r {
                Ok(h) => spec_parse_hget(model_items(frame.0@, 0)) == Ok::<
                    (Seq<u8>, Seq<u8>),
                    CommandErrorModel,
                >((h.key@, h.field@)),
                Err(e) => spec_parse_hget(model_items(frame.0@, 0)) == Err::<
                    (Seq<u8>, Seq<u8>),
                    CommandErrorModel,
                >(error_model(e)),
            },
    {
        let ghost ms = model_items(frame.0@, 0);
        proof {
            lemma_model_items(frame.0@, 0);
            if frame.0@.len() > 0 {
                lemma_model_items_at(frame.0@, 0);
            }
        }
        let name = tok_hget_vec();
        match validate_command(&frame, &name, 2) {
            Err(e) => {
                return Err(e);
            },
            Ok(()) => {},
        }
        proof {
            lemma_model_items_at(frame.0@, 1);
            lemma_model_items_at(frame.0@, 2);
        }
        let mut v = frame.0;
        let argf = v.remove(2);
        let argk = v.remove(1);
        proof {
            assert(argf == frame.0@[2]);
            assert(argk == frame.0@[1]);
            lemma_model_variant(argk);
            lemma_model_variant(argf);
            assert(frame_model(argk) == ms[1]);
            assert(frame_model(argf) == ms[2]);
        }
        match (argk, argf) {
            (RespFrame::BulkString(bk), RespFrame::BulkString(bf)) => {
                if !is_utf8_bytes(&bk.0) {
                    Err(CommandError::TextDecodeError(utf8_message_vec(&bk.0)))
                } else if !is_utf8_bytes(&bf.0) {
                    Err(CommandError::TextDecodeError(utf8_message_vec(&bf.0)))
                } else {
                    Ok(HGet { key: bk.0, field: bf.0 })
                }
            },
            _ => Err(CommandError::InvalidArguments(txt_invalid_key_field_vec())),
        }
    }
}

impl HSet {
    /// Extract an `hset` command from a request array.
    pub fn try_from_array(frame: RespArray) -> (r: Result<HSet, CommandError>)
        ensures
            match r {
                Ok(h) => spec_parse_hset(model_items(frame.0@, 0)) == Ok::<
                    (Seq<u8>, Seq<u8>, FrameModel),
                    CommandErrorModel,
                >((h.key@, h.field@, frame_model(h.value))),
                Err(e) => spec_parse_hset(model_items(frame.0@, 0)) == Err::<
                    (Seq<u8>, Seq<u8>, FrameModel),
                    CommandErrorModel,
                >(error_model(e)),
            },
    {
        let ghost ms = model_items(frame.0@, 0);
        proof {
            lemma_model_items(frame.0@, 0);
            if frame.0@.len() > 0 {
                lemma_model_items_at(frame.0@, 0);
            }
        }
        let name = tok_hset_vec();
        match validate_command(&frame, &name, 3) {
            Err(e) => {
                return Err(e);
            },
            Ok(()) => {},
        }
        proof {
            lemma_model_items_at(frame.0@, 1);
            lemma_model_items_at(frame.0@, 2);
            lemma_model_items_at(frame.0@, 3);
        }
        let mut v = frame.0;
        let value = v.remove(3);
        let argf = v.remove(2);
        let argk = v.remove(1);
        proof {
            assert(value == frame.0@[3]);
            assert(argf == frame.0@[2]);
            assert(argk == frame.0@[1]);
            lemma_model_variant(argk);
            lemma_model_variant(argf);
            assert(frame_model(argk) == ms[1]);
            assert(frame_model(argf) == ms[2]);
            assert(frame_model(value) == ms[3]);
        }
        match (argk, argf) {
            (RespFrame::BulkString(bk), RespFrame::BulkString(bf)) => {
                if !is_utf8_bytes(&bk.0) {
                    Err(CommandError::TextDecodeError(utf8_message_vec(&bk.0)))
                } else if !is_utf8_bytes(&bf.0) {
                    Err(CommandError::TextDecodeError(utf8_message_vec(&bf.0)))
                } else {
                    Ok(HSet { key: bk.0, field: bf.0, value })
                }
            },
            _ => Err(CommandError::InvalidArguments(txt_invalid_key_field_value_vec())),
        }
    }
}

impl HGetAll {
    /// Extract an `hgetall` command from a request array.
    pub fn try_from_array(frame: RespArray) -> (r: Result<HGetAll, CommandError>)
        ensures
            match r {
                Ok(h) => spec_parse_hgetall(model_items(frame.0@, 0)) == Ok::<
                    Seq<u8>,
                    CommandErrorModel,
                >(h.key@),
                Err(e) => spec_parse_hgetall(model_items(frame.0@, 0)) == Err::<
                    Seq<u8>,
                    CommandErrorModel,
                >(error_model(e)),
            },
    {
        let ghost ms = model_items(frame.0@, 0);
        proof {
            lemma_model_items(frame.0@, 0);
            if frame.0@.len() > 0 {
                lemma_model_items_at(frame.0@, 0);
            }
        }
        let name = tok_hgetall_vec();
        match validate_command(&frame, &name, 1) {
            Err(e) => {
                return Err(e);
            },
            Ok(()) => {},
        }
        proof {
            lemma_model_items_at(frame.0@, 1);
        }
        let mut v = frame.0;
        let arg = v.remove(1);
        let ghost am = frame_model(arg);
        proof {
            lemma_model_variant(arg);
            assert(am == ms[1]);
        }
        match arg {
            RespFrame::BulkString(b) => {
                if is_utf8_bytes(&b.0) {
                    Ok(HGetAll { key: b.0 })
                } else {
                    Err(CommandError::TextDecodeError(utf8_message_vec(&b.0)))
                }
            },
            _ => Err(CommandError::InvalidArguments(txt_invalid_key_vec())),
        }
    }
}

/// Which command the first element names: 1-5 for the five commands, 0 for
/// an unknown token, 6 when the first element is not a bulk string.
fn classify(frame: &RespArray) -> (w: u32)
    requires
        frame.0@.len() >= 1,
    ensures
        ({
            let ms = model_items(frame.0@, 0);
            &&& (w == 6) == !(ms[0] is BulkString)
            &&& (w == 1) ==> ms[0]->BulkString_0 == tok_get()
            &&& (w == 2) ==> ms[0]->BulkString_0 == tok_set()
            &&& (w == 3) ==> ms[0]->BulkString_0 == tok_hget()
            &&& (w == 4) ==> ms[0]->BulkString_0 == tok_hset()
            &&& (w == 5) ==> ms[0]->BulkString_0 == tok_hgetall()
            &&& (w == 0) ==> ms[0] is BulkString && ms[0]->BulkString_0 != tok_get()
                && ms[0]->BulkString_0 != tok_set() && ms[0]->BulkString_0 != tok_hget()
                && ms[0]->BulkString_0 != tok_hset() && ms[0]->BulkString_0 != tok_hgetall()
            &&& w <= 6
        }),
{
    proof {
        lemma_model_items_at(frame.0@, 0);
        lemma_model_variant(frame.0@[0]);
    }
    match &frame.0[0] {
        RespFrame::BulkString(b) => {
            if bytes_eq(&b.0, &tok_get_vec()) {
                1
            } else if bytes_eq(&b.0, &tok_set_vec()) {
                2
            } else if bytes_eq(&b.0, &tok_hget_vec()) {
                3
            } else if bytes_eq(&b.0, &tok_hset_vec()) {
                4
            } else if bytes_eq(&b.0, &tok_hgetall_vec()) {
                5
            } else {
                0
            }
        },
        _ => 6,
    }
}

impl Command {
    /// Turn a request array into a typed command, or say exactly why it is
    /// not one: the whole grammar, including every rejection, is
    /// `spec_parse`.
    pub fn try_from_array(frame: RespArray) -> (r: Result<Command, CommandError>)
        ensures
            match r {
                Ok(c) => spec_parse(model_items(frame.0@, 0)) == Ok::<
                    CommandModel,
                    CommandErrorModel,
                >(command_model(c)),
                Err(e) => spec_parse(model_items(frame.0@, 0)) == Err::<
                    CommandModel,
                    CommandErrorModel,
                >(error_model(e)),
            },
    {
        let ghost ms = model_items(frame.0@, 0);
        proof {
            lemma_model_items(frame.0@, 0);
        }
        if frame.0.len() == 0 {
            return Err(CommandError::InvalidCommand(txt_first_elem_vec()));
        }
        let w = classify(&frame);
        proof {
            assert(lower_bytes(tok_get()) =~= tok_get());
            assert(lower_bytes(tok_set()) =~= tok_set());
            assert(lower_bytes(tok_hget()) =~= tok_hget());
            assert(lower_bytes(tok_hset()) =~= tok_hset());
            assert(lower_bytes(tok_hgetall()) =~= tok_hgetall());
        }
        if w == 6 {
            Err(CommandError::InvalidCommand(txt_first_elem_vec()))
        } else if w == 0 {
            proof {
                lemma_model_items_at(frame.0@, 0);
                lemma_model_variant(frame.0@[0]);
            }
            match &frame.0[0] {
                RespFrame::BulkString(b) => Err(CommandError::InvalidCommand(unknown_message_vec(
                    &b.0,
                ))),
                _ => {
                    proof {
                        assert(false);
                    }
                    Err(CommandError::InvalidCommand(txt_first_elem_vec()))
                },
            }
        } else if w == 1 {
            match Get::try_from_array(frame) {
                Ok(g) => Ok(Command::Get(g)),
                Err(e) => Err(e),
            }
        } else if w == 2 {
            match SetCmd::try_from_array(frame) {
                Ok(s) => Ok(Command::SetCmd(s)),
                Err(e) => Err(e),
            }
        } else if w == 3 {
            match HGet::try_from_array(frame) {
                Ok(h) => Ok(Command::HGet(h)),
                Err(e) => Err(e),
            }
        } else if w == 4 {
            match HSet::try_from_array(frame) {
                Ok(h) => Ok(Command::HSet(h)),
                Err(e) => Err(e),
            }
        } else {
            match HGetAll::try_from_array(frame) {
                Ok(h) => Ok(Command::HGetAll(h)),
                Err(e) => Err(e),
            }
        }
    }
}

/// The shared success reply: the simple string `OK`.
pub fn resp_ok() -> (r: RespFrame)
    ensures
        frame_model(r) == FrameModel::SimpleString(ok_text()),
{
    let mut v: Vec<u8> = Vec::new();
    v.push(79);
    v.push(75);
    proof {
        assert(v@ =~= ok_text());
    }
    RespFrame::SimpleString(SimpleString(v))
}

} // verus!

verus! {

use crate::resp::{RespMap, model_entries, lemma_model_entries, lemma_model_entries_at,
    entries_sorted, lex_lt};
use crate::assoc::{pairs_view, sorted_pairs};

// ---------------------------------------------------------------------------
// Dispatch
// ---------------------------------------------------------------------------

/// The map denoted by a sequence of model entries, later entries shadowing
/// earlier ones.
pub open spec fn entries_map(es: Seq<(Seq<u8>, FrameModel)>) -> Map<Seq<u8>, FrameModel>
    decreases es.len(),
{
    if es.len() == 0 {
        Map::empty()
    } else {
        entries_map(es.drop_last()).insert(es.last().0, es.last().1)
    }
}

/// A map frame built from a pair vector denotes that vector's map.
pub proof fn lemma_entries_map_of_pairs(s: Seq<(Vec<u8>, RespFrame)>)
    ensures
        entries_map(model_entries(s, 0)) == pairs_view(s),
    decreases s.len(),
{
    if s.len() > 0 {
        let es = model_entries(s, 0);
        let d = s.drop_last();
        lemma_model_entries(s, 0);
        lemma_model_entries(d, 0);
        assert forall|j: int| 0 <= j < d.len() implies es.drop_last()[j] == model_entries(d, 0)[j] by {
            lemma_model_entries_at(s, j);
            lemma_model_entries_at(d, j);
            assert(d[j] == s[j]);
            assert(es.drop_last()[j] == es[j]);
        }
        assert(es.drop_last() =~= model_entries(d, 0));
        lemma_entries_map_of_pairs(d);
        lemma_model_entries_at(s, s.len() - 1);
        assert(es.last() == (s.last().0@, frame_model(s.last().1)));
    }
}

pub proof fn lemma_entries_sorted_of_pairs(s: Seq<(Vec<u8>, RespFrame)>)
    requires
        sorted_pairs(s),
    ensures
        entries_sorted(model_entries(s, 0)),
{
    let es = model_entries(s, 0);
    lemma_model_entries(s, 0);
    assert forall|j: int| 0 <= j && j + 1 < es.len() implies lex_lt(
        (#[trigger] es[j]).0,
        es[j + 1].0,
    ) by {
        lemma_model_entries_at(s, j);
        lemma_model_entries_at(s, j + 1);
        assert(lex_lt(s[j].0@, s[j + 1].0@));
    }
}

/// What dispatching a command does: how the store's two views change, and
/// which reply comes back. Absence is reported as `Null`; writes always
/// succeed and answer `OK`.
pub open spec fn executed(c: CommandModel, pre: Backend, post: Backend, r: RespFrame) -> bool {
    match c {
        CommandModel::GetM(k) => post.scalar_view() == pre.scalar_view() && post.hash_view()
            == pre.hash_view() && (if pre.scalar_view().contains_key(k) {
            frame_model(r) == pre.scalar_view()[k]
        } else {
            frame_model(r) == FrameModel::Null
        }),
        CommandModel::SetM(k, v) => post.scalar_view() == pre.scalar_view().insert(k, v)
            && post.hash_view() == pre.hash_view() && frame_model(r) == FrameModel::SimpleString(
            ok_text(),
        ),
        CommandModel::HGetM(k, f) => post.scalar_view() == pre.scalar_view() && post.hash_view()
            == pre.hash_view() && (if pre.hash_view().contains_key(k)
            && pre.hash_view()[k].contains_key(f) {
            frame_model(r) == pre.hash_view()[k][f]
        } else {
            frame_model(r) == FrameModel::Null
        }),
        CommandModel::HSetM(k, f, v) => post.scalar_view() == pre.scalar_view()
            && post.hash_view() == pre.hash_view().insert(
            k,
            (if pre.hash_view().contains_key(k) {
                pre.hash_view()[k]
            } else {
                Map::<Seq<u8>, FrameModel>::empty()
            }).insert(f, v),
        ) && frame_model(r) == FrameModel::SimpleString(ok_text()),
        CommandModel::HGetAllM(k) => post.scalar_view() == pre.scalar_view() && post.hash_view()
            == pre.hash_view() && (if pre.hash_view().contains_key(k) {
            (frame_model(r) matches FrameModel::MapFrame(es) && entries_map(es)
                == pre.hash_view()[k] && entries_sorted(es))
        } else {
            frame_model(r) == FrameModel::Null
        }),
    }
}

impl Command {
    /// Execute the command against the store: total, and exactly one store
    /// operation.
    pub fn execute(self, backend: &mut Backend) -> (r: RespFrame)
        requires
            old(backend).wf(),
        ensures
            final(backend).wf(),
            executed(command_model(self), *old(backend), *final(backend), r),
    {
        match self {
            Command::Get(g) => {
                match backend.get(&g.key) {
                    Some(f) => f,
                    None => RespFrame::Null(RespNull),
                }
            },
            Command::SetCmd(s) => {
                backend.set(s.key, s.value);
                resp_ok()
            },
            Command::HGet(h) => {
                match backend.hget(&h.key, &h.field) {
                    Some(f) => f,
                    None => RespFrame::Null(RespNull),
                }
            },
            Command::HSet(h) => {
                backend.hset(h.key, h.field, h.value);
                resp_ok()
            },
            Command::HGetAll(h) => {
                match backend.hgetall(&h.key) {
                    Some(m) => {
                        proof {
                            lemma_entries_map_of_pairs(m.0@);
                            lemma_entries_sorted_of_pairs(m.0@);
                        }
                        RespFrame::MapFrame(m)
                    },
                    None => RespFrame::Null(RespNull),
                }
            },
        }
    }
}

/// One whole request: the frame must be the request envelope (an array);
/// parse it against the grammar and run the command. An error is the
/// condition that ends the connection, and leaves the store untouched.
pub fn handle_request(frame: RespFrame, backend: &mut Backend) -> (r: Result<
    RespFrame,
    CommandError,
>)
    requires
        old(backend).wf(),
    ensures
        final(backend).wf(),
        match frame_model(frame) {
            FrameModel::Array(ms) => match r {
                Ok(reply) => spec_parse(ms) matches Ok(c)
                    && executed(c, *old(backend), *final(backend), reply),
                Err(e) => spec_parse(ms) == Err::<CommandModel, CommandErrorModel>(error_model(e))
                    && *final(backend) == *old(backend),
            },
            _ => (r matches Err(e) && error_model(e) == CommandErrorModel::InvalidCommandM(
                txt_envelope(),
            )) && *final(backend) == *old(backend),
        },
{
    proof {
        lemma_model_variant(frame);
    }
    match frame {
        RespFrame::Array(a) => {
            match Command::try_from_array(a) {
                Ok(cmd) => Ok(cmd.execute(backend)),
                Err(e) => Err(e),
            }
        },
        _ => Err(CommandError::InvalidCommand(txt_envelope_vec())),
    }
}

} // verus!

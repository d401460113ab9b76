use vstd::prelude::*;

use crate::timeline::Frame;

verus! {

/// One operand of the IR: either an immediate constant or a back-reference
/// (`OpRes`) to the result bound by an earlier operation of the same block.
///
/// Numeric constants of the two binary floating-point kinds are carried as
/// their already-rendered decimal literal text, supplied by the lowering step
/// that produces the IR; the text must be a numeric literal of the target
/// language that parses back to the value the bytecode held.
pub enum Value {
    Undefined,
    Null,
    Bool(bool),
    I32(i32),
    F32Lit(String),
    F64Lit(String),
    Str(String),
    OpRes(usize),
}

/// One operation of a linear IR block. The IR carries no control flow: a
/// block is compiled operation by operation, in order.
pub enum Op {
    Play,
    Stop,
    GotoFrame(Frame),
    GetVar(String),
    SetVar(String, Value),
    GetFn(String),
    Call(Value, Vec<Value>),
    CallMethod(Value, String, Vec<Value>),
}

/// One compiled action block: the ordered operation list of a single
/// `do_action` record.
pub struct Code {
    pub ops: Vec<Op>,
}

} // verus!

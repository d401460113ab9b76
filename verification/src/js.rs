use vstd::prelude::*;

use crate::avm1::{Code, Op, Value};

verus! {

/// Relies on str::chars, which yields the string's characters in order.
#[verifier::external_body]
fn chars_of(s: &str) -> (r: Vec<char>)
    ensures
        r@ == s@,
{
    s.chars().collect()
}

/// Relies on String's FromIterator over chars, which concatenates the
/// characters in order.
#[verifier::external_body]
fn string_from_chars(v: &Vec<char>) -> (r: String)
    ensures
        r@ == v@,
{
    v.iter().collect()
}

/// The decimal digit character for `d` (meaningful for `d < 10`).
pub open spec fn dec_digit(d: nat) -> char {
    if d == 0 {
        '0'
    } else if d == 1 {
        '1'
    } else if d == 2 {
        '2'
    } else if d == 3 {
        '3'
    } else if d == 4 {
        '4'
    } else if d == 5 {
        '5'
    } else if d == 6 {
        '6'
    } else if d == 7 {
        '7'
    } else if d == 8 {
        '8'
    } else {
        '9'
    }
}

/// The decimal digits of `n`, most significant first, no sign and no
/// leading zeros (a single zero for zero).
pub open spec fn dec_u(n: nat) -> Seq<char>
    decreases n,
{
    if n < 10 {
        seq![dec_digit(n)]
    } else {
        dec_u(n / 10).push(dec_digit(n % 10))
    }
}

/// The decimal rendering of a signed integer: a minus sign for negative
/// values, then the digits of the magnitude.
pub open spec fn dec_i(n: int) -> Seq<char> {
    if n < 0 {
        seq!['-'] + dec_u((-n) as nat)
    } else {
        dec_u(n as nat)
    }
}

/// The numeric value of a decimal digit character (0 for non-digits).
pub open spec fn digit_val(c: char) -> int {
    if c == '0' {
        0
    } else if c == '1' {
        1
    } else if c == '2' {
        2
    } else if c == '3' {
        3
    } else if c == '4' {
        4
    } else if c == '5' {
        5
    } else if c == '6' {
        6
    } else if c == '7' {
        7
    } else if c == '8' {
        8
    } else if c == '9' {
        9
    } else {
        0
    }
}

/// The integer a digit string denotes, most significant digit first: the
/// value a decimal parse of the rendered literal recovers.
pub open spec fn parse_digits(s: Seq<char>) -> int
    decreases s.len(),
{
    if s.len() == 0 {
        0
    } else {
        parse_digits(s.drop_last()) * 10 + digit_val(s.last())
    }
}

/// A signed decimal parse: an optional leading minus sign, then digits.
pub open spec fn parse_int(s: Seq<char>) -> int {
    if s.len() > 0 && s[0] == '-' {
        -parse_digits(s.subrange(1, s.len() as int))
    } else {
        parse_digits(s)
    }
}

proof fn lemma_dec_u_digits(n: nat)
    ensures
        dec_u(n).len() > 0,
        forall|k: int| 0 <= k < dec_u(n).len() ==> digit_val(#[trigger] dec_u(n)[k]) < 10
            && dec_u(n)[k] != '-' && dec_u(n)[k] == dec_digit(digit_val(dec_u(n)[k]) as nat),
    decreases n,
{
    if n >= 10 {
        lemma_dec_u_digits(n / 10);
        assert(forall|k: int|
            0 <= k < dec_u(n / 10).len() ==> #[trigger] dec_u(n)[k] == dec_u(n / 10)[k]);
        assert(dec_u(n).last() == dec_digit(n % 10));
    }
}

proof fn lemma_parse_dec_u(n: nat)
    ensures
        parse_digits(dec_u(n)) == n,
    decreases n,
{
    if n < 10 {
        assert(dec_u(n).drop_last() =~= Seq::<char>::empty());
        assert(parse_digits(Seq::<char>::empty()) == 0);
        assert(dec_u(n).last() == dec_digit(n));
        assert(digit_val(dec_digit(n)) == n);
    } else {
        lemma_parse_dec_u(n / 10);
        assert(dec_u(n).drop_last() =~= dec_u(n / 10));
        assert(dec_u(n).last() == dec_digit(n % 10));
        assert(digit_val(dec_digit(n % 10)) == n % 10);
    }
}

/// Rendering an integer in decimal and parsing the text back recovers the
/// same value: the integer literals the compiler emits round-trip.
pub proof fn lemma_dec_i_round_trip(n: int)
    ensures
        parse_int(dec_i(n)) == n,
{
    if n < 0 {
        lemma_dec_u_digits((-n) as nat);
        lemma_parse_dec_u((-n) as nat);
        assert(dec_i(n)[0] == '-');
        assert(dec_i(n).subrange(1, dec_i(n).len() as int) =~= dec_u((-n) as nat));
    } else {
        lemma_dec_u_digits(n as nat);
        lemma_parse_dec_u(n as nat);
        assert(dec_i(n)[0] != '-');
    }
}

/// Decimal renderings are unique: equal digit strings come from equal values.
pub proof fn lemma_dec_u_injective(a: nat, b: nat)
    requires
        dec_u(a) == dec_u(b),
    ensures
        a == b,
{
    lemma_parse_dec_u(a);
    lemma_parse_dec_u(b);
}

/// The hexadecimal digit character for `d` (meaningful for `d < 16`).
pub open spec fn hex_digit(d: nat) -> char {
    if d < 10 {
        dec_digit(d)
    } else if d == 10 {
        'a'
    } else if d == 11 {
        'b'
    } else if d == 12 {
        'c'
    } else if d == 13 {
        'd'
    } else if d == 14 {
        'e'
    } else {
        'f'
    }
}

/// The numeric value of a hexadecimal digit character (0 for non-digits).
pub open spec fn hex_val(c: char) -> nat {
    if c == 'a' {
        10
    } else if c == 'b' {
        11
    } else if c == 'c' {
        12
    } else if c == 'd' {
        13
    } else if c == 'e' {
        14
    } else if c == 'f' {
        15
    } else {
        digit_val(c) as nat
    }
}

/// The escape of one character inside a double-quoted string literal: the
/// quote character, the backslash and control characters are escaped, every
/// other character stands for itself.
pub open spec fn esc_char(c: char) -> Seq<char> {
    if c == '"' {
        seq!['\\', '"']
    } else if c == '\\' {
        seq!['\\', '\\']
    } else if c == '\n' {
        seq!['\\', 'n']
    } else if c == '\r' {
        seq!['\\', 'r']
    } else if c == '\t' {
        seq!['\\', 't']
    } else if (c as u32) < 32 {
        seq!['\\', 'u', '0', '0', hex_digit((c as u32) as nat / 16), hex_digit((c as u32) as nat % 16)]
    } else {
        seq![c]
    }
}

/// The escaped body of a string literal.
pub open spec fn esc_seq(s: Seq<char>) -> Seq<char>
    decreases s.len(),
{
    if s.len() == 0 {
        Seq::empty()
    } else {
        esc_char(s[0]) + esc_seq(s.subrange(1, s.len() as int))
    }
}

/// A double-quoted string literal for `s`.
pub open spec fn str_lit(s: Seq<char>) -> Seq<char> {
    seq!['"'] + esc_seq(s) + seq!['"']
}

/// The unescape a string-literal parse of the target language performs on a
/// literal body: a backslash starts an escape (a named code, or `u00` and two
/// hexadecimal digits); any other character stands for itself. Malformed
/// escapes (never produced by `esc_seq`) decode to nothing.
pub open spec fn unesc(s: Seq<char>) -> Seq<char>
    decreases s.len(),
{
    if s.len() == 0 {
        Seq::empty()
    } else if s[0] != '\\' {
        seq![s[0]] + unesc(s.subrange(1, s.len() as int))
    } else if s.len() >= 6 && s[1] == 'u' && s[2] == '0' && s[3] == '0' {
        seq![(((hex_val(s[4]) * 16 + hex_val(s[5])) as u8) as char)] + unesc(
            s.subrange(6, s.len() as int),
        )
    } else if s.len() >= 2 && s[1] != 'u' {
        seq![unesc_code(s[1])] + unesc(s.subrange(2, s.len() as int))
    } else {
        Seq::empty()
    }
}

/// The character a named escape code denotes; the quote and backslash escapes
/// denote themselves.
pub open spec fn unesc_code(c: char) -> char {
    if c == 'n' {
        '\n'
    } else if c == 'r' {
        '\r'
    } else if c == 't' {
        '\t'
    } else {
        c
    }
}

proof fn lemma_unesc_one(c: char, t: Seq<char>)
    ensures
        unesc(esc_char(c) + t) == seq![c] + unesc(t),
{
    let s = esc_char(c) + t;
    if c == '"' || c == '\\' || c == '\n' || c == '\r' || c == '\t' {
        assert(s.len() >= 2 && s[0] == '\\' && s[1] != 'u');
        assert(unesc_code(s[1]) == c);
        assert(s.subrange(2, s.len() as int) =~= t);
    } else if (c as u32) < 32 {
        assert(s.len() >= 6 && s[0] == '\\' && s[1] == 'u' && s[2] == '0' && s[3] == '0');
        let v = c as u32;
        assert(hex_val(hex_digit((v as nat) / 16)) == (v as nat) / 16);
        assert(hex_val(hex_digit((v as nat) % 16)) == (v as nat) % 16);
        assert(((v as nat) / 16) * 16 + (v as nat) % 16 == v as nat) by (nonlinear_arith);
        assert((((v as nat) as u8) as char) == c);
        assert(s.subrange(6, s.len() as int) =~= t);
    } else {
        assert(s[0] == c && c != '\\');
        assert(s.subrange(1, s.len() as int) =~= t);
    }
}

/// String escaping round-trips: the literal body the compiler renders for any
/// text, parsed back by the target language's string grammar, denotes exactly
/// the original text.
pub proof fn lemma_escape_round_trip(s: Seq<char>)
    ensures
        unesc(esc_seq(s)) == s,
    decreases s.len(),
{
    if s.len() == 0 {
        assert(unesc(esc_seq(s)) =~= s);
    } else {
        let rest = s.subrange(1, s.len() as int);
        lemma_escape_round_trip(rest);
        lemma_unesc_one(s[0], esc_seq(rest));
        assert(unesc(esc_seq(s)) =~= s);
    }
}

/// The expression referencing the temporary bound for the operation at
/// position `i` of a block.
pub open spec fn temp_ref(i: nat) -> Seq<char> {
    seq!['_'] + dec_u(i)
}

/// The binding prefix of the statement at position `i`, when that operation
/// produces a result.
pub open spec fn bind_js(i: nat) -> Seq<char> {
    "var _"@ + dec_u(i) + " = "@
}

/// The target-language expression a value renders to. A back-reference
/// renders to the temporary of the operation it names — a name, never a
/// recomputation.
pub open spec fn val_js(v: Value) -> Seq<char> {
    match v {
        Value::Undefined => "undefined"@,
        Value::Null => "null"@,
        Value::Bool(b) => if b {
            "true"@
        } else {
            "false"@
        },
        Value::I32(x) => dec_i(x as int),
        Value::F32Lit(s) => s@,
        Value::F64Lit(s) => s@,
        Value::Str(s) => str_lit(s@),
        Value::OpRes(i) => temp_ref(i as nat),
    }
}

/// A comma-separated argument list.
pub open spec fn args_js(args: Seq<Value>) -> Seq<char>
    decreases args.len(),
{
    if args.len() == 0 {
        Seq::empty()
    } else if args.len() == 1 {
        val_js(args[0])
    } else {
        args_js(args.drop_last()) + ", "@ + val_js(args.last())
    }
}

/// Whether an operation produces a value that later operations may reference.
pub open spec fn produces_result(op: Op) -> bool {
    match op {
        Op::GetVar(_) => true,
        Op::GetFn(_) => true,
        Op::Call(_, _) => true,
        Op::CallMethod(_, _, _) => true,
        _ => false,
    }
}

/// The expression an operation compiles to: a call on the implicit runtime
/// handle, a direct call of the callee expression, or a member call on the
/// receiver expression.
pub open spec fn expr_js(op: Op) -> Seq<char> {
    match op {
        Op::Play => "rt.play()"@,
        Op::Stop => "rt.stop()"@,
        Op::GotoFrame(f) => "rt.gotoFrame("@ + dec_u(f.0 as nat) + ")"@,
        Op::GetVar(n) => "rt.getVar("@ + str_lit(n@) + ")"@,
        Op::SetVar(n, v) => "rt.setVar("@ + str_lit(n@) + ", "@ + val_js(v) + ")"@,
        Op::GetFn(n) => "rt.getFn("@ + str_lit(n@) + ")"@,
        Op::Call(callee, args) => val_js(callee) + "("@ + args_js(args@) + ")"@,
        Op::CallMethod(recv, n, args) => val_js(recv) + "."@ + n@ + "("@ + args_js(args@) + ")"@,
    }
}

/// The statement for position `i`: result-producing operations bind their
/// result to the position's temporary, the rest stand bare.
pub open spec fn stmt_js(i: nat, op: Op) -> Seq<char> {
    if produces_result(op) {
        bind_js(i) + expr_js(op)
    } else {
        expr_js(op)
    }
}

/// A compiled block: one statement per operation, in order, each on its own
/// line, indented one level and terminated by the statement separator.
pub open spec fn block_js(ops: Seq<Op>) -> Seq<char>
    decreases ops.len(),
{
    if ops.len() == 0 {
        Seq::empty()
    } else {
        block_js(ops.drop_last()) + "\n  "@ + stmt_js((ops.len() - 1) as nat, ops.last()) + ";"@
    }
}

/// All blocks of one export, in order.
pub open spec fn codes_js(codes: Seq<Code>) -> Seq<char>
    decreases codes.len(),
{
    if codes.len() == 0 {
        Seq::empty()
    } else {
        codes_js(codes.drop_last()) + block_js(codes.last().ops@)
    }
}

/// The whole exported artifact: a single function of the runtime handle whose
/// body is the compiled blocks.
pub open spec fn export_js(codes: Seq<Code>) -> Seq<char> {
    "function(rt) {"@ + codes_js(codes) + "\n}"@
}

/// A value is well-formed at position `p` when any back-reference names a
/// strictly earlier, result-producing operation.
pub open spec fn value_ok(v: Value, p: int, ops: Seq<Op>) -> bool {
    match v {
        Value::OpRes(i) => i < p && produces_result(ops[i as int]),
        _ => true,
    }
}

/// Every argument is well-formed at position `p`.
pub open spec fn args_ok(args: Seq<Value>, p: int, ops: Seq<Op>) -> bool {
    forall|k: int| 0 <= k < args.len() ==> value_ok(#[trigger] args[k], p, ops)
}

/// All operands of the operation at position `p` are well-formed there.
pub open spec fn op_ok(op: Op, p: int, ops: Seq<Op>) -> bool {
    match op {
        Op::SetVar(_, v) => value_ok(v, p, ops),
        Op::Call(callee, args) => value_ok(callee, p, ops) && args_ok(args@, p, ops),
        Op::CallMethod(recv, _, args) => value_ok(recv, p, ops) && args_ok(args@, p, ops),
        _ => true,
    }
}

/// A block is well-formed when every operation's operands are.
pub open spec fn code_wf(ops: Seq<Op>) -> bool {
    forall|p: int| 0 <= p < ops.len() ==> op_ok(#[trigger] ops[p], p, ops)
}

/// A malformed back-reference, naming the block and the operation holding it.
#[derive(Copy, Clone, PartialEq, Eq, Structural, Debug)]
pub struct IrError {
    pub block: usize,
    pub op: usize,
}

fn digit_char(d: u64) -> (r: char)
    requires
        d < 10,
    ensures
        r == dec_digit(d as nat),
{
    if d == 0 {
        '0'
    } else if d == 1 {
        '1'
    } else if d == 2 {
        '2'
    } else if d == 3 {
        '3'
    } else if d == 4 {
        '4'
    } else if d == 5 {
        '5'
    } else if d == 6 {
        '6'
    } else if d == 7 {
        '7'
    } else if d == 8 {
        '8'
    } else {
        '9'
    }
}

fn hex_char(d: u32) -> (r: char)
    requires
        d < 16,
    ensures
        r == hex_digit(d as nat),
{
    if d < 10 {
        digit_char(d as u64)
    } else if d == 10 {
        'a'
    } else if d == 11 {
        'b'
    } else if d == 12 {
        'c'
    } else if d == 13 {
        'd'
    } else if d == 14 {
        'e'
    } else {
        'f'
    }
}

fn push_dec_u64(acc: &mut Vec<char>, n: u64)
    ensures
        final(acc)@ == old(acc)@ + dec_u(n as nat),
    decreases n,
{
    if n >= 10 {
        push_dec_u64(acc, n / 10);
        acc.push(digit_char(n % 10));
        proof {
            assert(dec_u(n as nat) == dec_u((n as nat) / 10).push(dec_digit((n as nat) % 10)));
            assert(final(acc)@ =~= old(acc)@ + dec_u(n as nat));
        }
    } else {
        acc.push(digit_char(n));
        proof {
            assert(dec_u(n as nat) =~= seq![dec_digit(n as nat)]);
            assert(final(acc)@ =~= old(acc)@ + dec_u(n as nat));
        }
    }
}

fn push_dec_i32(acc: &mut Vec<char>, n: i32)
    ensures
        final(acc)@ == old(acc)@ + dec_i(n as int),
{
    if n < 0 {
        acc.push('-');
        let m: u64 = (-(n as i64)) as u64;
        push_dec_u64(acc, m);
        proof {
            assert(m as nat == (-(n as int)) as nat);
            assert(final(acc)@ =~= old(acc)@ + dec_i(n as int));
        }
    } else {
        push_dec_u64(acc, n as u64);
        proof {
            assert((n as u64) as nat == n as nat);
        }
    }
}

fn push_lit(acc: &mut Vec<char>, s: &str)
    ensures
        final(acc)@ == old(acc)@ + s@,
{
    let ghost a0 = acc@;
    let cs = chars_of(s);
    let mut k: usize = 0;
    proof {
        assert(s@.take(0) =~= Seq::<char>::empty());
        assert(acc@ =~= a0 + s@.take(0));
    }
    while k < cs.len()
        invariant
            k <= cs@.len(),
            cs@ == s@,
            acc@ == a0 + s@.take(k as int),
        decreases cs@.len() - k,
    {
        acc.push(cs[k]);
        proof {
            assert(s@.take(k as int + 1) =~= s@.take(k as int).push(s@[k as int]));
            assert(acc@ =~= a0 + s@.take(k as int + 1));
        }
        k = k + 1;
    }
    proof {
        assert(s@.take(s@.len() as int) =~= s@);
    }
}

fn push_esc(acc: &mut Vec<char>, c: char)
    ensures
        final(acc)@ == old(acc)@ + esc_char(c),
{
    if c == '"' {
        acc.push('\\');
        acc.push('"');
        proof {
            assert(final(acc)@ =~= old(acc)@ + esc_char(c));
        }
    } else if c == '\\' {
        acc.push('\\');
        acc.push('\\');
        proof {
            assert(final(acc)@ =~= old(acc)@ + esc_char(c));
        }
    } else if c == '\n' {
        acc.push('\\');
        acc.push('n');
        proof {
            assert(final(acc)@ =~= old(acc)@ + esc_char(c));
        }
    } else if c == '\r' {
        acc.push('\\');
        acc.push('r');
        proof {
            assert(final(acc)@ =~= old(acc)@ + esc_char(c));
        }
    } else if c == '\t' {
        acc.push('\\');
        acc.push('t');
        proof {
            assert(final(acc)@ =~= old(acc)@ + esc_char(c));
        }
    } else {
        let v: u32 = c as u32;
        if v < 32 {
            acc.push('\\');
            acc.push('u');
            acc.push('0');
            acc.push('0');
            acc.push(hex_char(v / 16));
            acc.push(hex_char(v % 16));
            proof {
                assert((v / 16) as nat == (v as nat) / 16);
                assert((v % 16) as nat == (v as nat) % 16);
                assert(final(acc)@ =~= old(acc)@ + esc_char(c));
            }
        } else {
            acc.push(c);
            proof {
                assert(esc_char(c) =~= seq![c]);
                assert(final(acc)@ =~= old(acc)@ + esc_char(c));
            }
        }
    }
}

proof fn lemma_esc_snoc(t: Seq<char>, c: char)
    ensures
        esc_seq(t.push(c)) == esc_seq(t) + esc_char(c),
    decreases t.len(),
{
    let u = t.push(c);
    if t.len() == 0 {
        assert(u[0] == c);
        assert(u.subrange(1, u.len() as int) =~= Seq::<char>::empty());
        assert(esc_seq(Seq::<char>::empty()) == Seq::<char>::empty());
        assert(esc_seq(u) == esc_char(c) + esc_seq(Seq::<char>::empty()));
        assert(esc_seq(u) =~= esc_seq(t) + esc_char(c));
    } else {
        assert(u[0] == t[0]);
        assert(u.subrange(1, u.len() as int) =~= t.subrange(1, t.len() as int).push(c));
        lemma_esc_snoc(t.subrange(1, t.len() as int), c);
        assert(esc_seq(u) =~= esc_seq(t) + esc_char(c));
    }
}

fn push_str_lit(acc: &mut Vec<char>, s: &str)
    ensures
        final(acc)@ == old(acc)@ + str_lit(s@),
{
    let ghost a0 = acc@;
    acc.push('"');
    let cs = chars_of(s);
    let mut k: usize = 0;
    proof {
        assert(s@.take(0) =~= Seq::<char>::empty());
        assert(acc@ =~= a0 + seq!['"'] + esc_seq(s@.take(0)));
    }
    while k < cs.len()
        invariant
            k <= cs@.len(),
            cs@ == s@,
            acc@ == a0 + seq!['"'] + esc_seq(s@.take(k as int)),
        decreases cs@.len() - k,
    {
        push_esc(acc, cs[k]);
        proof {
            lemma_esc_snoc(s@.take(k as int), s@[k as int]);
            assert(s@.take(k as int + 1) =~= s@.take(k as int).push(s@[k as int]));
            assert(acc@ =~= a0 + seq!['"'] + esc_seq(s@.take(k as int + 1)));
        }
        k = k + 1;
    }
    acc.push('"');
    proof {
        assert(s@.take(s@.len() as int) =~= s@);
        assert(final(acc)@ =~= a0 + str_lit(s@));
    }
}

fn push_value(acc: &mut Vec<char>, v: &Value)
    ensures
        final(acc)@ == old(acc)@ + val_js(*v),
{
    match v {
        Value::Undefined => push_lit(acc, "undefined"),
        Value::Null => push_lit(acc, "null"),
        Value::Bool(b) => if *b {
            push_lit(acc, "true")
        } else {
            push_lit(acc, "false")
        },
        Value::I32(x) => push_dec_i32(acc, *x),
        Value::F32Lit(s) => push_lit(acc, s.as_str()),
        Value::F64Lit(s) => push_lit(acc, s.as_str()),
        Value::Str(s) => push_str_lit(acc, s.as_str()),
        Value::OpRes(i) => {
            acc.push('_');
            push_dec_u64(acc, *i as u64);
            proof {
                assert((*i as u64) as nat == *i as nat);
                assert(final(acc)@ =~= old(acc)@ + temp_ref(*i as nat));
            }
        },
    }
}

fn push_args(acc: &mut Vec<char>, args: &Vec<Value>)
    ensures
        final(acc)@ == old(acc)@ + args_js(args@),
{
    let ghost a0 = acc@;
    let mut k: usize = 0;
    proof {
        assert(args@.take(0) =~= Seq::<Value>::empty());
        assert(acc@ =~= a0 + args_js(args@.take(0)));
    }
    while k < args.len()
        invariant
            k <= args@.len(),
            acc@ == a0 + args_js(args@.take(k as int)),
        decreases args@.len() - k,
    {
        if k > 0 {
            push_lit(acc, ", ");
        }
        push_value(acc, &args[k]);
        proof {
            let t1 = args@.take(k as int + 1);
            assert(t1.drop_last() =~= args@.take(k as int));
            assert(t1.last() == args@[k as int]);
            if k == 0 {
                assert(args_js(t1) == val_js(args@[0]));
                assert(args_js(args@.take(0)) == Seq::<char>::empty());
            } else {
                assert(args_js(t1) == args_js(args@.take(k as int)) + ", "@ + val_js(
                    args@[k as int],
                ));
            }
            assert(acc@ =~= a0 + args_js(t1));
        }
        k = k + 1;
    }
    proof {
        assert(args@.take(args@.len() as int) =~= args@);
    }
}

fn push_bind(acc: &mut Vec<char>, i: usize)
    ensures
        final(acc)@ == old(acc)@ + bind_js(i as nat),
{
    push_lit(acc, "var _");
    push_dec_u64(acc, i as u64);
    push_lit(acc, " = ");
    proof {
        assert((i as u64) as nat == i as nat);
        assert(final(acc)@ =~= old(acc)@ + bind_js(i as nat));
    }
}

fn push_stmt(acc: &mut Vec<char>, i: usize, op: &Op)
    ensures
        final(acc)@ == old(acc)@ + stmt_js(i as nat, *op),
{
    let ghost a0 = acc@;
    match op {
        Op::Play => {
            push_lit(acc, "rt.play()");
        },
        Op::Stop => {
            push_lit(acc, "rt.stop()");
        },
        Op::GotoFrame(f) => {
            push_lit(acc, "rt.gotoFrame(");
            push_dec_u64(acc, f.0 as u64);
            push_lit(acc, ")");
            proof {
                assert((f.0 as u64) as nat == f.0 as nat);
                assert(acc@ =~= a0 + stmt_js(i as nat, *op));
            }
        },
        Op::GetVar(n) => {
            push_bind(acc, i);
            push_lit(acc, "rt.getVar(");
            push_str_lit(acc, n.as_str());
            push_lit(acc, ")");
            proof {
                assert(acc@ =~= a0 + stmt_js(i as nat, *op));
            }
        },
        Op::SetVar(n, v) => {
            push_lit(acc, "rt.setVar(");
            push_str_lit(acc, n.as_str());
            push_lit(acc, ", ");
            push_value(acc, v);
            push_lit(acc, ")");
            proof {
                assert(acc@ =~= a0 + stmt_js(i as nat, *op));
            }
        },
        Op::GetFn(n) => {
            push_bind(acc, i);
            push_lit(acc, "rt.getFn(");
            push_str_lit(acc, n.as_str());
            push_lit(acc, ")");
            proof {
                assert(acc@ =~= a0 + stmt_js(i as nat, *op));
            }
        },
        Op::Call(callee, args) => {
            push_bind(acc, i);
            push_value(acc, callee);
            push_lit(acc, "(");
            push_args(acc, args);
            push_lit(acc, ")");
            proof {
                assert(acc@ =~= a0 + stmt_js(i as nat, *op));
            }
        },
        Op::CallMethod(recv, n, args) => {
            push_bind(acc, i);
            push_value(acc, recv);
            push_lit(acc, ".");
            push_lit(acc, n.as_str());
            push_lit(acc, "(");
            push_args(acc, args);
            push_lit(acc, ")");
            proof {
                assert(acc@ =~= a0 + stmt_js(i as nat, *op));
            }
        },
    }
}

fn push_block(acc: &mut Vec<char>, ops: &Vec<Op>)
    ensures
        final(acc)@ == old(acc)@ + block_js(ops@),
{
    let ghost a0 = acc@;
    let mut p: usize = 0;
    proof {
        assert(ops@.take(0) =~= Seq::<Op>::empty());
        assert(acc@ =~= a0 + block_js(ops@.take(0)));
    }
    while p < ops.len()
        invariant
            p <= ops@.len(),
            acc@ == a0 + block_js(ops@.take(p as int)),
        decreases ops@.len() - p,
    {
        push_lit(acc, "\n  ");
        push_stmt(acc, p, &ops[p]);
        push_lit(acc, ";");
        proof {
            let t1 = ops@.take(p as int + 1);
            assert(t1.drop_last() =~= ops@.take(p as int));
            assert(t1.last() == ops@[p as int]);
            assert(block_js(t1) == block_js(ops@.take(p as int)) + "\n  "@ + stmt_js(
                p as nat,
                ops@[p as int],
            ) + ";"@);
            assert(acc@ =~= a0 + block_js(t1));
        }
        p = p + 1;
    }
    proof {
        assert(ops@.take(ops@.len() as int) =~= ops@);
    }
}

fn op_result(op: &Op) -> (r: bool)
    ensures
        r == produces_result(*op),
{
    match op {
        Op::GetVar(_) => true,
        Op::GetFn(_) => true,
        Op::Call(_, _) => true,
        Op::CallMethod(_, _, _) => true,
        _ => false,
    }
}

fn value_valid(v: &Value, p: usize, ops: &Vec<Op>) -> (r: bool)
    requires
        p <= ops@.len(),
    ensures
        r == value_ok(*v, p as int, ops@),
{
    match v {
        Value::OpRes(i) => {
            if *i < p {
                op_result(&ops[*i])
            } else {
                false
            }
        },
        _ => true,
    }
}

fn op_valid(op: &Op, p: usize, ops: &Vec<Op>) -> (r: bool)
    requires
        p <= ops@.len(),
    ensures
        r == op_ok(*op, p as int, ops@),
{
    match op {
        Op::SetVar(_, v) => value_valid(v, p, ops),
        Op::Call(callee, args) => {
            if !value_valid(callee, p, ops) {
                return false;
            }
            let mut k: usize = 0;
            while k < args.len()
                invariant
                    k <= args@.len(),
                    p <= ops@.len(),
                    *op == Op::Call(*callee, *args),
                    value_ok(*callee, p as int, ops@),
                    forall|t: int| 0 <= t < k ==> value_ok(#[trigger] args@[t], p as int, ops@),
                decreases args@.len() - k,
            {
                if !value_valid(&args[k], p, ops) {
                    proof {
                        assert(!value_ok(args@[k as int], p as int, ops@));
                        assert(!args_ok(args@, p as int, ops@));
                        assert(!op_ok(*op, p as int, ops@));
                    }
                    return false;
                }
                k = k + 1;
            }
            true
        },
        Op::CallMethod(recv, n, args) => {
            if !value_valid(recv, p, ops) {
                return false;
            }
            let mut k: usize = 0;
            while k < args.len()
                invariant
                    k <= args@.len(),
                    p <= ops@.len(),
                    *op == Op::CallMethod(*recv, *n, *args),
                    value_ok(*recv, p as int, ops@),
                    forall|t: int| 0 <= t < k ==> value_ok(#[trigger] args@[t], p as int, ops@),
                decreases args@.len() - k,
            {
                if !value_valid(&args[k], p, ops) {
                    proof {
                        assert(!value_ok(args@[k as int], p as int, ops@));
                        assert(!args_ok(args@, p as int, ops@));
                        assert(!op_ok(*op, p as int, ops@));
                    }
                    return false;
                }
                k = k + 1;
            }
            true
        },
        _ => true,
    }
}

fn check_code(ops: &Vec<Op>) -> (r: Option<usize>)
    ensures
        match r {
            None => code_wf(ops@),
            Some(p) => p < ops@.len() && !op_ok(ops@[p as int], p as int, ops@) && forall|q: int|
                0 <= q < p ==> op_ok(#[trigger] ops@[q], q, ops@),
        },
{
    let mut p: usize = 0;
    while p < ops.len()
        invariant
            p <= ops@.len(),
            forall|q: int| 0 <= q < p ==> op_ok(#[trigger] ops@[q], q, ops@),
        decreases ops@.len() - p,
    {
        if !op_valid(&ops[p], p, ops) {
            return Some(p);
        }
        p = p + 1;
    }
    None
}

impl Value {
    /// Renders this value as the target-language expression the compiler
    /// splices for it.
    pub fn to_js(&self) -> (r: String)
        ensures
            r@ == val_js(*self),
    {
        let mut acc: Vec<char> = Vec::new();
        proof {
            assert(acc@ + val_js(*self) =~= val_js(*self));
        }
        push_value(&mut acc, self);
        string_from_chars(&acc)
    }
}

/// Compiles the action blocks of one frame into a single function of the
/// runtime handle. Fails fast on the first malformed back-reference, naming
/// the block and the operation that holds it.
pub fn export(codes: &Vec<Code>) -> (r: Result<String, IrError>)
    ensures
        match r {
            Ok(s) => s@ == export_js(codes@) && forall|b: int|
                0 <= b < codes@.len() ==> code_wf((#[trigger] codes@[b]).ops@),
            Err(e) => e.block < codes@.len() && e.op < codes@[e.block as int].ops@.len() && !op_ok(
                codes@[e.block as int].ops@[e.op as int],
                e.op as int,
                codes@[e.block as int].ops@,
            ) && (forall|q: int|
                0 <= q < e.op ==> op_ok(
                    #[trigger] codes@[e.block as int].ops@[q],
                    q,
                    codes@[e.block as int].ops@,
                )) && (forall|b: int| 0 <= b < e.block ==> code_wf((#[trigger] codes@[b]).ops@)),
        },
{
    let mut acc: Vec<char> = Vec::new();
    proof {
        assert(acc@ =~= Seq::<char>::empty());
    }
    push_lit(&mut acc, "function(rt) {");
    let mut b: usize = 0;
    proof {
        assert(codes@.take(0) =~= Seq::<Code>::empty());
        assert(acc@ =~= "function(rt) {"@ + codes_js(codes@.take(0)));
    }
    while b < codes.len()
        invariant
            b <= codes@.len(),
            acc@ == "function(rt) {"@ + codes_js(codes@.take(b as int)),
            forall|t: int| 0 <= t < b ==> code_wf((#[trigger] codes@[t]).ops@),
        decreases codes@.len() - b,
    {
        match check_code(&codes[b].ops) {
            Some(p) => {
                return Err(IrError { block: b, op: p });
            },
            None => {},
        }
        push_block(&mut acc, &codes[b].ops);
        proof {
            let t1 = codes@.take(b as int + 1);
            assert(t1.drop_last() =~= codes@.take(b as int));
            assert(t1.last() == codes@[b as int]);
            assert(acc@ =~= "function(rt) {"@ + codes_js(t1));
        }
        b = b + 1;
    }
    push_lit(&mut acc, "\n}");
    proof {
        assert(codes@.take(codes@.len() as int) =~= codes@);
        assert(acc@ =~= export_js(codes@));
    }
    Ok(string_from_chars(&acc))
}

/// Back-references are stable: `OpRes(i)` renders as the same temporary
/// reference wherever and however often it occurs; the statement at position
/// `i` is the one statement of the block carrying the binding prefix of that
/// temporary (binding prefixes of distinct positions differ); and statements
/// of operations without a result carry no binding at all.
pub proof fn lemma_op_res_single_binding(ops: Seq<Op>, i: usize, p: usize)
    requires
        i < ops.len(),
        p < ops.len(),
        produces_result(ops[i as int]),
    ensures
        val_js(Value::OpRes(i)) == temp_ref(i as nat),
        stmt_js(i as nat, ops[i as int]) == bind_js(i as nat) + expr_js(ops[i as int]),
        p != i ==> bind_js(p as nat) != bind_js(i as nat),
        p != i ==> temp_ref(p as nat) != temp_ref(i as nat),
        !produces_result(ops[p as int]) ==> stmt_js(p as nat, ops[p as int]) == expr_js(
            ops[p as int],
        ),
{
    if p != i && temp_ref(p as nat) == temp_ref(i as nat) {
        let dp = dec_u(p as nat);
        let di = dec_u(i as nat);
        assert(temp_ref(p as nat).len() == 1 + dp.len());
        assert(temp_ref(i as nat).len() == 1 + di.len());
        assert forall|k: int| 0 <= k < dp.len() implies dp[k] == di[k] by {
            assert(temp_ref(p as nat)[1 + k] == dp[k]);
            assert(temp_ref(i as nat)[1 + k] == di[k]);
        }
        assert(dp =~= di);
        lemma_dec_u_injective(p as nat, i as nat);
        assert(false);
    }
    if p != i && bind_js(p as nat) == bind_js(i as nat) {
        reveal_strlit("var _");
        reveal_strlit(" = ");
        let dp = dec_u(p as nat);
        let di = dec_u(i as nat);
        assert(bind_js(p as nat).len() == 5 + dp.len() + 3);
        assert(bind_js(i as nat).len() == 5 + di.len() + 3);
        assert(dp.len() == di.len());
        assert forall|k: int| 0 <= k < dp.len() implies dp[k] == di[k] by {
            assert(bind_js(p as nat)[5 + k] == dp[k]);
            assert(bind_js(i as nat)[5 + k] == di[k]);
        }
        assert(dp =~= di);
        lemma_dec_u_injective(p as nat, i as nat);
        assert(false);
    }
}

} // verus!

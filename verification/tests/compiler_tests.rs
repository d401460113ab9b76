use swf_timeline::avm1::{Code, Op, Value};
use swf_timeline::js::{export, IrError};
use swf_timeline::timeline::{Frame, TimelineBuilder};

fn block(ops: Vec<Op>) -> Code {
    Code { ops }
}

#[test]
fn bind_then_use_temp() {
    // `GetVar("x")` binds the temporary for index 0; `SetVar("y", OpRes(0))`
    // references it.
    let code = block(vec![
        Op::GetVar(String::from("x")),
        Op::SetVar(String::from("y"), Value::OpRes(0)),
    ]);
    let out = export(&vec![code]).unwrap();
    assert_eq!(
        out,
        "function(rt) {\n  var _0 = rt.getVar(\"x\");\n  rt.setVar(\"y\", _0);\n}"
    );
}

#[test]
fn repeated_references_share_one_binding() {
    // Three references to the result of index 0 render as three occurrences
    // of the same temporary, with exactly one binding statement for it.
    let code = block(vec![
        Op::GetVar(String::from("f")),
        Op::Call(Value::OpRes(0), vec![Value::OpRes(0), Value::OpRes(0)]),
    ]);
    let out = export(&vec![code]).unwrap();
    assert_eq!(
        out,
        "function(rt) {\n  var _0 = rt.getVar(\"f\");\n  var _1 = _0(_0, _0);\n}"
    );
    assert_eq!(out.matches("var _0 = ").count(), 1);
    assert_eq!(out.matches("_0").count(), 4);
}

#[test]
fn plain_statements_and_goto() {
    let code = block(vec![Op::Play, Op::Stop, Op::GotoFrame(Frame(41))]);
    let out = export(&vec![code]).unwrap();
    assert_eq!(
        out,
        "function(rt) {\n  rt.play();\n  rt.stop();\n  rt.gotoFrame(41);\n}"
    );
}

#[test]
fn call_method_and_get_fn() {
    let code = block(vec![
        Op::GetFn(String::from("log")),
        Op::CallMethod(
            Value::OpRes(0),
            String::from("apply"),
            vec![Value::Null, Value::Undefined],
        ),
    ]);
    let out = export(&vec![code]).unwrap();
    assert_eq!(
        out,
        "function(rt) {\n  var _0 = rt.getFn(\"log\");\n  var _1 = _0.apply(null, undefined);\n}"
    );
}

#[test]
fn blocks_concatenate_in_order() {
    let a = block(vec![Op::Play]);
    let b = block(vec![Op::Stop]);
    let out = export(&vec![a, b]).unwrap();
    assert_eq!(out, "function(rt) {\n  rt.play();\n  rt.stop();\n}");
}

#[test]
fn empty_export_is_an_empty_function() {
    let out = export(&vec![]).unwrap();
    assert_eq!(out, "function(rt) {\n}");
}

#[test]
fn forward_reference_is_malformed() {
    let code = block(vec![Op::SetVar(String::from("y"), Value::OpRes(1))]);
    let r = export(&vec![code]);
    assert_eq!(r.unwrap_err(), IrError { block: 0, op: 0 });
}

#[test]
fn reference_to_resultless_op_is_malformed() {
    let ok = block(vec![Op::GetVar(String::from("x"))]);
    let bad = block(vec![
        Op::Play,
        Op::SetVar(String::from("y"), Value::OpRes(0)),
    ]);
    let r = export(&vec![ok, bad]);
    assert_eq!(r.unwrap_err(), IrError { block: 1, op: 1 });
}

#[test]
fn self_reference_is_malformed() {
    let code = block(vec![
        Op::GetVar(String::from("x")),
        Op::Call(Value::OpRes(1), vec![]),
    ]);
    let r = export(&vec![code]);
    assert_eq!(r.unwrap_err(), IrError { block: 0, op: 1 });
}

#[test]
fn i32_literals_round_trip() {
    let cases: Vec<i32> = vec![0, 1, -1, 7, -10, 41, 65535, i32::MAX, i32::MIN];
    for x in cases {
        let text = Value::I32(x).to_js();
        assert_eq!(text.parse::<i32>().unwrap(), x);
    }
    assert_eq!(Value::I32(-2147483648).to_js(), "-2147483648");
    assert_eq!(Value::I32(120).to_js(), "120");
}

#[test]
fn f32_literals_round_trip() {
    let cases: Vec<f32> = vec![0.0, -0.0, 1.5, 0.1, -3.25e-12, 3.4028235e38, 1.0e-45];
    for x in cases {
        let text = Value::F32Lit(format!("{}", x)).to_js();
        assert_eq!(text.parse::<f32>().unwrap().to_bits(), x.to_bits());
    }
}

#[test]
fn f64_literals_round_trip() {
    let cases: Vec<f64> = vec![0.0, -1.5, 0.1, 2.2250738585072014e-308, 1.7976931348623157e308];
    for x in cases {
        let text = Value::F64Lit(format!("{}", x)).to_js();
        assert_eq!(text.parse::<f64>().unwrap().to_bits(), x.to_bits());
    }
}

#[test]
fn string_escaping_round_trips() {
    // Quote, backslash and control characters are escaped; parsing the
    // literal back (here: a hand-rolled reader of the same grammar) restores
    // the text exactly.
    let original = "a\"b\\c\nd\re\tf\u{1}g\u{1f}h";
    let lit = Value::Str(String::from(original)).to_js();
    assert_eq!(lit, "\"a\\\"b\\\\c\\nd\\re\\tf\\u0001g\\u001fh\"");
    let body: Vec<char> = lit[1..lit.len() - 1].chars().collect();
    let mut restored = String::new();
    let mut k = 0;
    while k < body.len() {
        if body[k] != '\\' {
            restored.push(body[k]);
            k += 1;
        } else if body[k + 1] == 'u' {
            let code = u32::from_str_radix(
                &body[k + 2..k + 6].iter().collect::<String>(),
                16,
            )
            .unwrap();
            restored.push(char::from_u32(code).unwrap());
            k += 6;
        } else {
            restored.push(match body[k + 1] {
                'n' => '\n',
                'r' => '\r',
                't' => '\t',
                other => other,
            });
            k += 2;
        }
    }
    assert_eq!(restored, original);
}

#[test]
fn value_rendering_of_constants() {
    assert_eq!(Value::Undefined.to_js(), "undefined");
    assert_eq!(Value::Null.to_js(), "null");
    assert_eq!(Value::Bool(true).to_js(), "true");
    assert_eq!(Value::Bool(false).to_js(), "false");
    assert_eq!(Value::OpRes(12).to_js(), "_12");
    assert_eq!(Value::Str(String::from("plain")).to_js(), "\"plain\"");
}

#[test]
fn mixed_block_end_to_end() {
    let code = block(vec![
        Op::GetVar(String::from("g")),
        Op::GetFn(String::from("f")),
        Op::Call(
            Value::OpRes(1),
            vec![
                Value::OpRes(0),
                Value::I32(-12),
                Value::Bool(false),
                Value::Str(String::from("q\"x")),
            ],
        ),
        Op::SetVar(String::from("out"), Value::OpRes(2)),
        Op::CallMethod(Value::OpRes(2), String::from("m"), vec![]),
        Op::GotoFrame(Frame(9)),
        Op::Play,
    ]);
    let out = export(&vec![code]).unwrap();
    let expected = "function(rt) {\n  var _0 = rt.getVar(\"g\");\n  var _1 = rt.getFn(\"f\");\n  var _2 = _1(_0, -12, false, \"q\\\"x\");\n  rt.setVar(\"out\", _2);\n  var _4 = _2.m();\n  rt.gotoFrame(9);\n  rt.play();\n}";
    assert_eq!(out, expected);
}

#[test]
fn float_literal_text_is_spliced_verbatim() {
    let code = block(vec![
        Op::SetVar(String::from("x"), Value::F64Lit(String::from("1.5"))),
        Op::SetVar(String::from("y"), Value::F32Lit(String::from("-2.25e-3"))),
    ]);
    let out = export(&vec![code]).unwrap();
    assert_eq!(
        out,
        "function(rt) {\n  rt.setVar(\"x\", 1.5);\n  rt.setVar(\"y\", -2.25e-3);\n}"
    );
}

#[test]
fn actions_accumulate_per_frame() {
    let mut b = TimelineBuilder::new();
    b.do_action(block(vec![Op::Play]));
    b.do_action(block(vec![Op::Stop]));
    b.advance_frame();
    b.do_action(block(vec![Op::GotoFrame(Frame(0))]));
    b.advance_frame();
    let t = b.finish(Frame(2)).unwrap();
    let first = t.actions_at(Frame(0)).unwrap();
    assert_eq!(first.len(), 2);
    let out = export(first).unwrap();
    assert_eq!(out, "function(rt) {\n  rt.play();\n  rt.stop();\n}");
    assert_eq!(t.actions_at(Frame(1)).unwrap().len(), 1);
    assert!(t.actions_at(Frame(2)).is_none());
}

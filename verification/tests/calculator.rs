use toolbox::calculator::{
    eval_rpn, parse_expression, parse_rpn, rpn_reply, simple_reply, try_eval_rpn, Reply, RpnFault,
    RpnNode, RpnOp,
};
use toolbox::text::{is_whitespace, trim};

fn rpn(input: &str) -> Vec<RpnNode> {
    parse_rpn(input).unwrap()
}

#[test]
fn parse_rpn_tokens() {
    assert_eq!(
        rpn("3 4 + 2 * 1 - 6 /"),
        vec![
            RpnNode::Number(3),
            RpnNode::Number(4),
            RpnNode::Op(RpnOp::Add),
            RpnNode::Number(2),
            RpnNode::Op(RpnOp::Multiply),
            RpnNode::Number(1),
            RpnNode::Op(RpnOp::Substract),
            RpnNode::Number(6),
            RpnNode::Op(RpnOp::Divide),
        ]
    );
}

#[test]
fn parse_rpn_empty_and_blank() {
    assert_eq!(rpn(""), vec![]);
    assert_eq!(rpn(" \t\n "), vec![]);
}

#[test]
fn parse_rpn_number_grammar() {
    assert_eq!(rpn("+5 -0 -2147483648 2147483647"), vec![
        RpnNode::Number(5),
        RpnNode::Number(0),
        RpnNode::Number(i32::MIN),
        RpnNode::Number(i32::MAX),
    ]);
    assert_eq!(rpn("007"), vec![RpnNode::Number(7)]);
}

#[test]
fn parse_rpn_rejects() {
    for bad in ["3 x", "2147483648", "-2147483649", "--5", "+-", "1.5", "4a", "++", "１"] {
        let err = parse_rpn(bad).unwrap_err();
        assert_eq!(err, "this expr could not be parsed", "input {bad:?}");
    }
}

#[test]
fn parse_rpn_unicode_whitespace() {
    assert_eq!(
        rpn("1\u{3000}2\u{a0}+\u{2028}"),
        vec![RpnNode::Number(1), RpnNode::Number(2), RpnNode::Op(RpnOp::Add)]
    );
    // U+200B ZERO WIDTH SPACE is not White_Space: the word "1\u{200b}2" is no number.
    assert!(parse_rpn("1\u{200b}2").is_err());
}

#[test]
fn whitespace_set() {
    for c in ['\t', '\n', '\u{b}', '\u{c}', '\r', ' ', '\u{85}', '\u{a0}', '\u{1680}', '\u{2000}',
        '\u{200a}', '\u{2028}', '\u{2029}', '\u{202f}', '\u{205f}', '\u{3000}']
    {
        assert!(is_whitespace(c), "{c:?}");
        assert_eq!(is_whitespace(c), c.is_whitespace());
    }
    for c in ['a', '0', '\u{200b}', '\u{feff}', '\u{180e}', '\u{8}', '\u{e}', '+'] {
        assert!(!is_whitespace(c), "{c:?}");
        assert_eq!(is_whitespace(c), c.is_whitespace());
    }
}

#[test]
fn eval_rpn_values() {
    assert_eq!(eval_rpn(rpn("3 4 + 2 *")), 14);
    assert_eq!(eval_rpn(rpn("10 3 -")), 7);
    assert_eq!(eval_rpn(rpn("7 2 /")), 3);
    assert_eq!(eval_rpn(rpn("-7 2 /")), -3);
    assert_eq!(eval_rpn(rpn("7 -2 /")), -3);
    assert_eq!(eval_rpn(rpn("-7 -2 /")), 3);
    assert_eq!(eval_rpn(rpn("42")), 42);
    // The value is the top of the stack; values below it are left over.
    assert_eq!(eval_rpn(rpn("1 2")), 2);
    assert_eq!(eval_rpn(rpn("-2147483648 1 /")), i32::MIN);
}

#[test]
fn eval_rpn_faults() {
    assert_eq!(try_eval_rpn(&rpn("5 0 /")), Err(RpnFault::DivisionByZero));
    assert_eq!(try_eval_rpn(&rpn("+")), Err(RpnFault::MissingOperand));
    assert_eq!(try_eval_rpn(&rpn("1 +")), Err(RpnFault::MissingOperand));
    assert_eq!(try_eval_rpn(&rpn("")), Err(RpnFault::MissingOperand));
    assert_eq!(try_eval_rpn(&rpn("2147483647 1 +")), Err(RpnFault::Overflow(RpnOp::Add)));
    assert_eq!(try_eval_rpn(&rpn("-2147483648 1 -")), Err(RpnFault::Overflow(RpnOp::Substract)));
    assert_eq!(try_eval_rpn(&rpn("65536 65536 *")), Err(RpnFault::Overflow(RpnOp::Multiply)));
    assert_eq!(try_eval_rpn(&rpn("-2147483648 -1 /")), Err(RpnFault::Overflow(RpnOp::Divide)));
    assert_eq!(try_eval_rpn(&rpn("1 2 3 * +")), Ok(7));
}

#[test]
fn parse_expression_sums() {
    assert_eq!(parse_expression("1+2"), Ok((1, 2)));
    assert_eq!(parse_expression("  -3 +  4 "), Ok((-3, 4)));
    assert_eq!(parse_expression("1 + +2"), Ok((1, 2)));
    assert_eq!(parse_expression("9223372036854775807+-9223372036854775808"),
        Ok((i64::MAX, i64::MIN)));
}

#[test]
fn parse_expression_errors() {
    assert_eq!(parse_expression("12").unwrap_err(), "no plus in expression");
    assert_eq!(parse_expression("").unwrap_err(), "no plus in expression");
    assert_eq!(parse_expression("a+2").unwrap_err(), "left side of the expression is invalid");
    assert_eq!(parse_expression("+5").unwrap_err(), "left side of the expression is invalid");
    assert_eq!(
        parse_expression("9223372036854775808+1").unwrap_err(),
        "left side of the expression is invalid"
    );
    assert_eq!(parse_expression("1+b").unwrap_err(), "right side of the expression is invalid");
    assert_eq!(parse_expression("1+").unwrap_err(), "right side of the expression is invalid");
    assert_eq!(parse_expression("1+2+3").unwrap_err(), "right side of the expression is invalid");
    assert_eq!(parse_expression("x+y").unwrap_err(), "left side of the expression is invalid");
}

#[test]
fn trim_matches_std() {
    for s in ["", "   ", " a ", "\t a b \n", "ab", "\u{3000}x\u{a0}", "1+2\n"] {
        assert_eq!(trim(s), s.trim(), "{s:?}");
    }
}

#[test]
fn replies_of_the_prompt_loops() {
    assert_eq!(simple_reply(1, "\n"), Reply::Stop);
    assert_eq!(simple_reply(0, ""), Reply::Stop);
    assert_eq!(simple_reply(6, " 1+2\n"), Reply::Answer((1, 2)));
    assert_eq!(simple_reply(3, "7\n"), Reply::Error("no plus in expression".to_string()));
    // The buffer keeps every line read so far: a second line joins the first.
    assert_eq!(
        simple_reply(4, "1+2\n3+4\n"),
        Reply::Error("right side of the expression is invalid".to_string())
    );
    assert_eq!(rpn_reply(1, "\n"), Reply::Stop);
    assert_eq!(rpn_reply(6, "2 3 *\n"), Reply::Answer(Ok(6)));
    assert_eq!(rpn_reply(6, "2 0 /\n"), Reply::Answer(Err(RpnFault::DivisionByZero)));
    assert_eq!(rpn_reply(4, " \t \n"), Reply::Answer(Err(RpnFault::MissingOperand)));
    assert_eq!(rpn_reply(4, "2 x\n"), Reply::Error("this expr could not be parsed".to_string()));
}

#[test]
fn whitespace_agrees_with_std_everywhere() {
    for code in 0u32..=0x10ffff {
        if let Some(c) = char::from_u32(code) {
            assert_eq!(is_whitespace(c), c.is_whitespace(), "{code:#x}");
        }
    }
}

#[test]
fn integer_grammar_agrees_with_std() {
    let samples = [
        "0", "-0", "+0", "12", "+12", "-12", "", "+", "-", "--1", "+-1", "1-", " 1", "1 ", "0x10",
        "2147483647", "2147483648", "-2147483648", "-2147483649", "9223372036854775807",
        "9223372036854775808", "-9223372036854775808", "-9223372036854775809",
        "99999999999999999999999999999", "000000000000000000000000000001", "١٢", "1_000",
    ];
    for s in samples {
        if !s.is_empty() && !s.contains(' ') && !["+", "-"].contains(&s) {
            let rpn = parse_rpn(s);
            match s.parse::<i32>() {
                Ok(v) => assert_eq!(rpn.unwrap(), vec![RpnNode::Number(v)], "{s:?}"),
                Err(_) => assert!(rpn.is_err(), "{s:?}"),
            }
        }
        let expr = parse_expression(&format!("1+{s}"));
        match s.trim().parse::<i64>() {
            Ok(v) => assert_eq!(expr, Ok((1, v)), "{s:?}"),
            Err(_) => assert!(expr.is_err(), "{s:?}"),
        }
    }
}

//! A two-mode integer calculator: `a + b` expressions, and expressions in
//! reverse Polish notation over `i32`.
use vstd::prelude::*;
use crate::text::{
    chars_of, decimal_in, find_char, index_of, parse_decimal, split_words, trim, trim_range, trimmed,
    views, words,
};

verus! {

/// An operator of reverse Polish notation.
#[derive(Debug, Clone, Copy, PartialEq, Eq, Structural)]
pub enum RpnOp {
    Add,
    Substract,
    Multiply,
    Divide,
}

/// One token of reverse Polish notation.
#[derive(Debug, Clone, Copy, PartialEq, Eq, Structural)]
pub enum RpnNode {
    Number(i32),
    Op(RpnOp),
}

/// Why an evaluation in reverse Polish notation cannot go on.
#[derive(Debug, Clone, Copy, PartialEq, Eq, Structural)]
pub enum RpnFault {
    /// An operator, or the final read of the result, found too few values.
    MissingOperand,
    /// The operator's result does not fit in an `i32`.
    Overflow(RpnOp),
    /// A division by zero.
    DivisionByZero,
}

/// What one token means: an operator for `+ - * /`, else an `i32` literal.
pub open spec fn parse_node(tok: Seq<char>) -> Option<RpnNode> {
    if tok == seq!['+'] {
        Some(RpnNode::Op(RpnOp::Add))
    } else if tok == seq!['-'] {
        Some(RpnNode::Op(RpnOp::Substract))
    } else if tok == seq!['*'] {
        Some(RpnNode::Op(RpnOp::Multiply))
    } else if tok == seq!['/'] {
        Some(RpnNode::Op(RpnOp::Divide))
    } else {
        match decimal_in(tok, i32::MIN as int, i32::MAX as int) {
            Some(v) => Some(RpnNode::Number(v as i32)),
            None => None,
        }
    }
}

/// The meaning of every token, where each one has one.
pub open spec fn parse_nodes(toks: Seq<Seq<char>>) -> Option<Seq<RpnNode>>
    decreases toks.len(),
{
    if toks.len() == 0 {
        Some(Seq::empty())
    } else {
        match (parse_node(toks[0]), parse_nodes(toks.drop_first())) {
            (Some(n), Some(rest)) => Some(seq![n] + rest),
            _ => None,
        }
    }
}

/// The tokens of an expression in reverse Polish notation: its words,
/// each an operator or an `i32` literal.
pub open spec fn rpn_tokens(input: Seq<char>) -> Option<Seq<RpnNode>> {
    parse_nodes(words(input))
}

fn parse_token(tok: &Vec<char>) -> (r: Option<RpnNode>)
    ensures
        r == parse_node(tok@),
{
    if tok.len() == 1 {
        let c = tok[0];
        if c == '+' {
            assert(tok@ =~= seq!['+']);
            return Some(RpnNode::Op(RpnOp::Add));
        } else if c == '-' {
            assert(tok@ =~= seq!['-']);
            return Some(RpnNode::Op(RpnOp::Substract));
        } else if c == '*' {
            assert(tok@ =~= seq!['*']);
            return Some(RpnNode::Op(RpnOp::Multiply));
        } else if c == '/' {
            assert(tok@ =~= seq!['/']);
            return Some(RpnNode::Op(RpnOp::Divide));
        }
    }
    match parse_decimal(tok.as_slice(), i32::MIN as i64, i32::MAX as i64) {
        Some(v) => Some(RpnNode::Number(v as i32)),
        None => None,
    }
}

/// Reads an expression in reverse Polish notation, such as `3 4 + 2 *`:
/// its whitespace-separated words, each one of `+ - * /` or an `i32`
/// literal.
pub fn parse_rpn(input: &str) -> (r: Result<Vec<RpnNode>, String>)
    ensures
        match r {
            Ok(nodes) => rpn_tokens(input@) == Some(nodes@),
            Err(e) => rpn_tokens(input@) is None && e@ == "this expr could not be parsed"@,
        },
{
    let chars = chars_of(input);
    let toks = split_words(&chars);
    let ghost all = views(toks@);
    let mut stack: Vec<RpnNode> = Vec::new();
    let mut i: usize = 0;
    assert(all.skip(0) =~= all);
    while i < toks.len()
        invariant
            i <= toks@.len(),
            all == views(toks@),
            all == words(input@),
            parse_nodes(all) == match parse_nodes(all.skip(i as int)) {
                Some(rest) => Some(stack@ + rest),
                None => None,
            },
        decreases toks@.len() - i,
    {
        let parsed = parse_token(&toks[i]);
        proof {
            let t = all.skip(i as int);
            assert(t[0] == toks@[i as int]@);
            assert(t.drop_first() =~= all.skip(i + 1));
        }
        match parsed {
            Some(node) => {
                let ghost before = stack@;
                stack.push(node);
                proof {
                    match parse_nodes(all.skip(i + 1)) {
                        Some(rest) => {
                            assert(before + (seq![node] + rest) =~= stack@ + rest);
                        },
                        None => {},
                    }
                }
            },
            None => {
                return Err(String::from_str("this expr could not be parsed"));
            },
        }
        i = i + 1;
    }
    proof {
        assert(all.skip(i as int) =~= Seq::<Seq<char>>::empty());
        assert(stack@ + Seq::<RpnNode>::empty() =~= stack@);
    }
    Ok(stack)
}

/// Division that rounds toward zero, as `i32` division does.
pub open spec fn trunc_div(a: int, b: int) -> int {
    let q = (if a < 0 {
        -a
    } else {
        a
    }) / (if b < 0 {
        -b
    } else {
        b
    });
    if (a < 0) == (b < 0) {
        q
    } else {
        -q
    }
}

pub open spec fn fits_i32(v: int) -> bool {
    i32::MIN <= v <= i32::MAX
}

/// `n1 op n2`, or why it cannot be had in `i32`.
pub open spec fn apply_op(op: RpnOp, n1: i32, n2: i32) -> Result<i32, RpnFault> {
    let exact = match op {
        RpnOp::Add => n1 + n2,
        RpnOp::Substract => n1 - n2,
        RpnOp::Multiply => n1 * n2,
        RpnOp::Divide => trunc_div(n1 as int, n2 as int),
    };
    if op == RpnOp::Divide && n2 == 0 {
        Err(RpnFault::DivisionByZero)
    } else if fits_i32(exact) {
        Ok(exact as i32)
    } else {
        Err(RpnFault::Overflow(op))
    }
}

/// The value stack after one token: a number is pushed; an operator pops
/// its right operand, then its left one, and pushes the result.
pub open spec fn rpn_step(node: RpnNode, st: Seq<i32>) -> Result<Seq<i32>, RpnFault> {
    match node {
        RpnNode::Number(n) => Ok(st.push(n)),
        RpnNode::Op(op) => if st.len() < 2 {
            Err(RpnFault::MissingOperand)
        } else {
            match apply_op(op, st[st.len() - 2], st[st.len() - 1]) {
                Ok(v) => Ok(st.take(st.len() - 2).push(v)),
                Err(e) => Err(e),
            }
        },
    }
}

/// The value stack after all of `nodes`, starting from `st`.
pub open spec fn rpn_run(nodes: Seq<RpnNode>, st: Seq<i32>) -> Result<Seq<i32>, RpnFault>
    decreases nodes.len(),
{
    if nodes.len() == 0 {
        Ok(st)
    } else {
        match rpn_step(nodes[0], st) {
            Ok(next) => rpn_run(nodes.drop_first(), next),
            Err(e) => Err(e),
        }
    }
}

/// The value of an expression: the top of the stack once every token has
/// been applied to an empty stack.
pub open spec fn rpn_value(nodes: Seq<RpnNode>) -> Result<i32, RpnFault> {
    match rpn_run(nodes, Seq::empty()) {
        Ok(st) => if st.len() == 0 {
            Err(RpnFault::MissingOperand)
        } else {
            Ok(st.last())
        },
        Err(e) => Err(e),
    }
}

/// The expression `a b op`: the value of `a` and `b` combined by `op`,
/// `a` on the left. Sums, differences and products are the exact integer
/// results where they fit in an `i32`, and an overflow otherwise.
pub proof fn law_rpn_arithmetic(a: i32, b: i32)
    ensures
        rpn_value(seq![RpnNode::Number(a), RpnNode::Number(b), RpnNode::Op(RpnOp::Add)]) == (if i32::MIN
            <= a + b <= i32::MAX {
            Ok::<i32, RpnFault>((a + b) as i32)
        } else {
            Err(RpnFault::Overflow(RpnOp::Add))
        }),
        rpn_value(seq![RpnNode::Number(a), RpnNode::Number(b), RpnNode::Op(RpnOp::Substract)])
            == (if i32::MIN <= a - b <= i32::MAX {
            Ok::<i32, RpnFault>((a - b) as i32)
        } else {
            Err(RpnFault::Overflow(RpnOp::Substract))
        }),
        rpn_value(seq![RpnNode::Number(a), RpnNode::Number(b), RpnNode::Op(RpnOp::Multiply)])
            == (if i32::MIN <= a * b <= i32::MAX {
            Ok::<i32, RpnFault>((a * b) as i32)
        } else {
            Err(RpnFault::Overflow(RpnOp::Multiply))
        }),
{
    lemma_rpn_binary(a, b, RpnOp::Add);
    lemma_rpn_binary(a, b, RpnOp::Substract);
    lemma_rpn_binary(a, b, RpnOp::Multiply);
}

/// The expression `a b /`: division by zero fails; otherwise the quotient
/// `q` rounds toward zero: `a == q * b + r` with a remainder `r` smaller
/// than `b` in size and not of the opposite sign to `a`. The one quotient
/// that leaves `i32`, `i32::MIN / -1`, is an overflow.
pub proof fn law_rpn_division(a: i32, b: i32)
    ensures
        b == 0 ==> rpn_value(seq![RpnNode::Number(a), RpnNode::Number(b), RpnNode::Op(RpnOp::Divide)])
            == Err::<i32, RpnFault>(RpnFault::DivisionByZero),
        a == i32::MIN && b == -1 ==> rpn_value(
            seq![RpnNode::Number(a), RpnNode::Number(b), RpnNode::Op(RpnOp::Divide)],
        ) == Err::<i32, RpnFault>(RpnFault::Overflow(RpnOp::Divide)),
        b != 0 && !(a == i32::MIN && b == -1) ==> (rpn_value(
            seq![RpnNode::Number(a), RpnNode::Number(b), RpnNode::Op(RpnOp::Divide)],
        ) matches Ok(q) && {
            let r = a - q * b;
            &&& (if r < 0 {
                -r
            } else {
                r
            }) < (if b < 0 {
                -b
            } else {
                b as int
            })
            &&& (r == 0 || (r < 0) == (a < 0))
        }),
{
    lemma_rpn_binary(a, b, RpnOp::Divide);
    if b != 0 {
        let ua = if a < 0 {
            -a
        } else {
            a as int
        };
        let ub = if b < 0 {
            -b
        } else {
            b as int
        };
        let q0 = ua / ub;
        let r0 = ua % ub;
        vstd::arithmetic::div_mod::lemma_fundamental_div_mod(ua, ub);
        vstd::arithmetic::div_mod::lemma_mod_bound(ua, ub);
        assert(0 <= q0 <= ua) by (nonlinear_arith)
            requires
                ua == ub * q0 + r0,
                0 <= r0 < ub,
                ub >= 1,
                ua >= 0,
        ;
        let t = trunc_div(a as int, b as int);
        assert(t == if (a < 0) == (b < 0) {
            q0
        } else {
            -q0
        });
        if (a < 0) == (b < 0) {
            if a < 0 {
                assert(a - t * b == -r0) by (nonlinear_arith)
                    requires
                        ua == -a,
                        ub == -b,
                        ua == ub * q0 + r0,
                        t == q0,
            ;
            } else {
                assert(a - t * b == r0) by (nonlinear_arith)
                    requires
                        ua == a,
                        ub == b,
                        ua == ub * q0 + r0,
                        t == q0,
                ;
            }
        } else {
            if a < 0 {
                assert(a - t * b == -r0) by (nonlinear_arith)
                    requires
                        ua == -a,
                        ub == b,
                        ua == ub * q0 + r0,
                        t == -q0,
                ;
            } else {
                assert(a - t * b == r0) by (nonlinear_arith)
                    requires
                        ua == a,
                        ub == -b,
                        ua == ub * q0 + r0,
                        t == -q0,
                ;
            }
        }
        if !(a == i32::MIN && b == -1) {
            if a == i32::MIN && b < 0 {
                assert(q0 <= 0x4000_0000) by (nonlinear_arith)
                    requires
                        ua == ub * q0 + r0,
                        0 <= r0,
                        ub >= 2,
                        ua == 0x8000_0000,
                        q0 >= 0,
                ;
            }
            assert(i32::MIN <= t <= i32::MAX);
        }
    }
}

proof fn lemma_rpn_binary(a: i32, b: i32, op: RpnOp)
    ensures
        rpn_value(seq![RpnNode::Number(a), RpnNode::Number(b), RpnNode::Op(op)]) == apply_op(
            op,
            a,
            b,
        ),
{
    let nodes = seq![RpnNode::Number(a), RpnNode::Number(b), RpnNode::Op(op)];
    let s0 = Seq::<i32>::empty();
    let s1 = s0.push(a);
    let s2 = s1.push(b);
    assert(nodes.drop_first() =~= seq![RpnNode::Number(b), RpnNode::Op(op)]);
    assert(nodes.drop_first().drop_first() =~= seq![RpnNode::Op(op)]);
    assert(nodes.drop_first().drop_first().drop_first() =~= Seq::<RpnNode>::empty());
    assert(s2[s2.len() - 2] == a && s2[s2.len() - 1] == b);
    assert(s2.take(0) =~= Seq::<i32>::empty());
    reveal_with_fuel(rpn_run, 4);
    match apply_op(op, a, b) {
        Ok(v) => {
            assert(Seq::<i32>::empty().push(v).last() == v);
        },
        Err(_) => {},
    }
}

fn apply(op: RpnOp, n1: i32, n2: i32) -> (r: Result<i32, RpnFault>)
    ensures
        r == apply_op(op, n1, n2),
{
    let a = n1 as i64;
    let b = n2 as i64;
    let exact: i64 = match op {
        RpnOp::Add => a + b,
        RpnOp::Substract => a - b,
        RpnOp::Multiply => {
            assert(-0x8000_0000 * 0x8000_0000 <= a * b <= 0x8000_0000 * 0x8000_0000)
                by (nonlinear_arith)
                requires
                    -0x8000_0000 <= a <= 0x7fff_ffff,
                    -0x8000_0000 <= b <= 0x7fff_ffff,
            ;
            a * b
        },
        RpnOp::Divide => {
            if b == 0 {
                return Err(RpnFault::DivisionByZero);
            }
            let ua: u64 = if a < 0 {
                (-a) as u64
            } else {
                a as u64
            };
            let ub: u64 = if b < 0 {
                (-b) as u64
            } else {
                b as u64
            };
            let q = ua / ub;
            assert(q <= ua) by (nonlinear_arith)
                requires
                    ub >= 1,
                    q == ua / ub,
            ;
            if (a < 0) == (b < 0) {
                q as i64
            } else {
                -(q as i64)
            }
        },
    };
    if i32::MIN as i64 <= exact && exact <= i32::MAX as i64 {
        Ok(exact as i32)
    } else {
        Err(RpnFault::Overflow(op))
    }
}

/// Evaluates an expression in reverse Polish notation, or says why it
/// cannot be evaluated.
pub fn try_eval_rpn(stack: &Vec<RpnNode>) -> (r: Result<i32, RpnFault>)
    ensures
        r == rpn_value(stack@),
{
    let mut nstack: Vec<i32> = Vec::new();
    let mut i: usize = 0;
    assert(stack@.skip(0) =~= stack@);
    while i < stack.len()
        invariant
            i <= stack@.len(),
            rpn_run(stack@, Seq::empty()) == rpn_run(stack@.skip(i as int), nstack@),
        decreases stack@.len() - i,
    {
        let node = stack[i];
        proof {
            let t = stack@.skip(i as int);
            assert(t[0] == node);
            assert(t.drop_first() =~= stack@.skip(i + 1));
        }
        match node {
            RpnNode::Number(n) => {
                nstack.push(n);
            },
            RpnNode::Op(op) => {
                let ghost before = nstack@;
                let n2 = match nstack.pop() {
                    Some(v) => v,
                    None => {
                        return Err(RpnFault::MissingOperand);
                    },
                };
                let n1 = match nstack.pop() {
                    Some(v) => v,
                    None => {
                        return Err(RpnFault::MissingOperand);
                    },
                };
                match apply(op, n1, n2) {
                    Ok(res) => {
                        nstack.push(res);
                        assert(nstack@ =~= before.take(before.len() - 2).push(res));
                    },
                    Err(e) => {
                        return Err(e);
                    },
                }
            },
        }
        i = i + 1;
    }
    assert(stack@.skip(i as int) =~= Seq::<RpnNode>::empty());
    match nstack.pop() {
        Some(v) => Ok(v),
        None => Err(RpnFault::MissingOperand),
    }
}

/// Evaluates an expression in reverse Polish notation that has a value.
pub fn eval_rpn(stack: Vec<RpnNode>) -> (r: i32)
    requires
        rpn_value(stack@) is Ok,
    ensures
        rpn_value(stack@) == Ok::<i32, RpnFault>(r),
{
    match try_eval_rpn(&stack) {
        Ok(v) => v,
        Err(_) => {
            proof {
                assert(false);
            }
            0
        },
    }
}

/// What `parse_expression` gives for the text `s`.
pub open spec fn expression(s: Seq<char>) -> Result<(i64, i64), Seq<char>> {
    let p = index_of(s, '+');
    if p >= s.len() {
        Err("no plus in expression"@)
    } else {
        match decimal_in(trimmed(s.take(p as int)), i64::MIN as int, i64::MAX as int) {
            None => Err("left side of the expression is invalid"@),
            Some(l) => match decimal_in(
                trimmed(s.skip(p as int + 1)),
                i64::MIN as int,
                i64::MAX as int,
            ) {
                None => Err("right side of the expression is invalid"@),
                Some(r) => Ok((l as i64, r as i64)),
            },
        }
    }
}

/// Reads `a + b`: the text before the first `+` and the text after it, each
/// trimmed and read as an `i64`.
pub fn parse_expression(input: &str) -> (r: Result<(i64, i64), String>)
    ensures
        match r {
            Ok(parts) => expression(input@) == Ok::<(i64, i64), Seq<char>>(parts),
            Err(e) => expression(input@) == Err::<(i64, i64), Seq<char>>(e@),
        },
{
    let chars = chars_of(input);
    let s = chars.as_slice();
    let n = s.len();
    let p = find_char(s, '+');
    if p >= n {
        return Err(String::from_str("no plus in expression"));
    }
    let (la, lb) = trim_range(s, 0, p);
    let (left_part, _) = s.split_at(lb);
    let (_, left_tok) = left_part.split_at(la);
    assert(left_tok@ =~= s@.subrange(la as int, lb as int));
    assert(s@.subrange(0, p as int) =~= input@.take(p as int));
    let left = match parse_decimal(left_tok, i64::MIN, i64::MAX) {
        Some(v) => v,
        None => {
            return Err(String::from_str("left side of the expression is invalid"));
        },
    };
    let (ra, rb) = trim_range(s, p + 1, n);
    let (right_part, _) = s.split_at(rb);
    let (_, right_tok) = right_part.split_at(ra);
    assert(right_tok@ =~= s@.subrange(ra as int, rb as int));
    assert(s@.subrange(p + 1, n as int) =~= input@.skip(p + 1));
    let right = match parse_decimal(right_tok, i64::MIN, i64::MAX) {
        Some(v) => v,
        None => {
            return Err(String::from_str("right side of the expression is invalid"));
        },
    };
    Ok((left, right))
}

/// What the interactive calculator does with what it has read: stop, print
/// an error, or print an answer.
#[derive(Debug, PartialEq, Eq)]
pub enum Reply<T> {
    Stop,
    Error(String),
    Answer(T),
}

/// The `a + b` calculator's reply to `buffer`, `read_len` bytes of which
/// came with the last read: a read of at most one byte (an empty line, or
/// the end of the input) stops it; otherwise the trimmed buffer is read as
/// `a + b`.
pub fn simple_reply(read_len: usize, buffer: &str) -> (r: Reply<(i64, i64)>)
    ensures
        read_len <= 1 ==> r is Stop,
        read_len > 1 ==> match expression(trimmed(buffer@)) {
            Ok(parts) => r == Reply::<(i64, i64)>::Answer(parts),
            Err(msg) => r matches Reply::Error(e) && e@ == msg,
        },
{
    if read_len <= 1 {
        return Reply::Stop;
    }
    match parse_expression(trim(buffer)) {
        Ok(parts) => Reply::Answer(parts),
        Err(msg) => Reply::Error(msg),
    }
}

/// The reverse Polish calculator's reply to `buffer`, `read_len` bytes of
/// which came with the last read: a read of at most one byte stops it;
/// otherwise the trimmed buffer is read and evaluated.
pub fn rpn_reply(read_len: usize, buffer: &str) -> (r: Reply<Result<i32, RpnFault>>)
    ensures
        read_len <= 1 ==> r is Stop,
        read_len > 1 ==> match rpn_tokens(trimmed(buffer@)) {
            Some(nodes) => r == Reply::<Result<i32, RpnFault>>::Answer(rpn_value(nodes)),
            None => r matches Reply::Error(e) && e@ == "this expr could not be parsed"@,
        },
{
    if read_len <= 1 {
        return Reply::Stop;
    }
    match parse_rpn(trim(buffer)) {
        Ok(nodes) => Reply::Answer(try_eval_rpn(&nodes)),
        Err(msg) => Reply::Error(msg),
    }
}

} // verus!

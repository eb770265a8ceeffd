use vstd::prelude::*;
use crate::tokenizer::Token;

verus! {

/// A binary arithmetic operator.
#[derive(PartialEq, Eq, Structural, Debug, Copy, Clone)]
pub enum Op {
    Add,
    Sub,
    Mul,
    Div,
}

/// An expression tree: each operator node owns its two operands.
#[derive(PartialEq, Eq, Debug)]
pub enum Expr {
    Literal(u64),
    BinaryOp(Op, Box<Expr>, Box<Expr>),
}

/// Why a token sequence is not an expression. Indices are 0-based
/// positions in the token sequence.
#[derive(PartialEq, Eq, Structural, Debug, Copy, Clone)]
pub enum ParseError {
    /// An operand (a number or `(`) was required where another token stands.
    ExpectedOperand { index: usize },
    /// An operand was required, and the tokens had ended.
    MissingOperand,
    /// A `)` was required where another token stands.
    ExpectedRightPar { index: usize },
    /// A `(` was still open when the tokens ended.
    UnclosedPar,
    /// A complete expression was followed by more tokens.
    TrailingToken { index: usize },
}

pub open spec fn additive_op(t: Token) -> Option<Op> {
    match t {
        Token::Plus => Some(Op::Add),
        Token::Minus => Some(Op::Sub),
        _ => None,
    }
}

pub open spec fn multiplicative_op(t: Token) -> Option<Op> {
    match t {
        Token::Mult => Some(Op::Mul),
        Token::Div => Some(Op::Div),
        _ => None,
    }
}

/// `k` is a position after `i` and within `t`: a sub-parse from `i` that
/// ended at `k` made progress.
pub open spec fn advances(t: Seq<Token>, i: int, k: int) -> bool {
    i < k <= t.len()
}

/// `factor := NUMBER | '(' expression ')'`, read from position `i`; on
/// success, the tree and the position after it.
pub open spec fn parse_factor(t: Seq<Token>, i: int) -> Result<(Expr, int), ParseError>
    decreases t.len() - i, 0int,
{
    if 0 <= i < t.len() {
        match t[i] {
            Token::Number(v) => Ok((Expr::Literal(v), i + 1)),
            Token::LeftPar => match parse_expression(t, i + 1) {
                Ok((e, j)) => if j >= t.len() {
                    Err(ParseError::UnclosedPar)
                } else if t[j] == Token::RightPar {
                    Ok((e, j + 1))
                } else {
                    Err(ParseError::ExpectedRightPar { index: j as usize })
                },
                Err(err) => Err(err),
            },
            _ => Err(ParseError::ExpectedOperand { index: i as usize }),
        }
    } else {
        Err(ParseError::MissingOperand)
    }
}

/// Continues a term whose operands so far fold to `lhs`, at position `i`.
pub open spec fn parse_term_rest(t: Seq<Token>, lhs: Expr, i: int) -> Result<(Expr, int), ParseError>
    decreases t.len() - i, 0int,
{
    if 0 <= i < t.len() && multiplicative_op(t[i]) is Some {
        let op = multiplicative_op(t[i])->0;
        match parse_factor(t, i + 1) {
            Ok((rhs, k)) => if advances(t, i, k) {
                parse_term_rest(t, Expr::BinaryOp(op, Box::new(lhs), Box::new(rhs)), k)
            } else {
                Ok((lhs, i))
            },
            Err(err) => Err(err),
        }
    } else {
        Ok((lhs, i))
    }
}

/// `term := factor ( ('*' | '/') factor )*`, folded to the left.
pub open spec fn parse_term(t: Seq<Token>, i: int) -> Result<(Expr, int), ParseError>
    decreases t.len() - i, 1int,
{
    match parse_factor(t, i) {
        Ok((e, k)) => if advances(t, i, k) {
            parse_term_rest(t, e, k)
        } else {
            Ok((e, k))
        },
        Err(err) => Err(err),
    }
}

/// Continues an expression whose operands so far fold to `lhs`, at `i`.
pub open spec fn parse_expression_rest(t: Seq<Token>, lhs: Expr, i: int) -> Result<
    (Expr, int),
    ParseError,
>
    decreases t.len() - i, 0int,
{
    if 0 <= i < t.len() && additive_op(t[i]) is Some {
        let op = additive_op(t[i])->0;
        match parse_term(t, i + 1) {
            Ok((rhs, k)) => if advances(t, i, k) {
                parse_expression_rest(t, Expr::BinaryOp(op, Box::new(lhs), Box::new(rhs)), k)
            } else {
                Ok((lhs, i))
            },
            Err(err) => Err(err),
        }
    } else {
        Ok((lhs, i))
    }
}

/// `expression := term ( ('+' | '-') term )*`, folded to the left.
pub open spec fn parse_expression(t: Seq<Token>, i: int) -> Result<(Expr, int), ParseError>
    decreases t.len() - i, 2int,
{
    match parse_term(t, i) {
        Ok((e, k)) => if advances(t, i, k) {
            parse_expression_rest(t, e, k)
        } else {
            Ok((e, k))
        },
        Err(err) => Err(err),
    }
}

/// What `parse` returns for the tokens `t`: an expression that uses up
/// every token.
pub open spec fn parse_tokens(t: Seq<Token>) -> Result<Expr, ParseError> {
    match parse_expression(t, 0) {
        Ok((e, k)) => if k < t.len() {
            Err(ParseError::TrailingToken { index: k as usize })
        } else {
            Ok(e)
        },
        Err(err) => Err(err),
    }
}

/// Binding strength of an operator: 0 for `+ -`, 1 for `* /`.
pub open spec fn op_level(op: Op) -> nat {
    match op {
        Op::Add | Op::Sub => 0,
        Op::Mul | Op::Div => 1,
    }
}

pub open spec fn op_token(op: Op) -> Token {
    match op {
        Op::Add => Token::Plus,
        Op::Sub => Token::Minus,
        Op::Mul => Token::Mult,
        Op::Div => Token::Div,
    }
}

/// The tokens of `e` in order, where `e` stands in a place of the grammar at
/// `level` (0: expression, 1: term, 2: factor). An operator node is put in
/// parentheses exactly where it binds more loosely than its place allows;
/// a right operand is one level tighter than its operator, which keeps the
/// left folding.
pub open spec fn render_at(e: Expr, level: nat) -> Seq<Token>
    decreases e,
{
    match e {
        Expr::Literal(v) => seq![Token::Number(v)],
        Expr::BinaryOp(op, l, r) => {
            let body = render_at(*l, op_level(op)) + seq![op_token(op)] + render_at(
                *r,
                op_level(op) + 1,
            );
            if op_level(op) >= level {
                body
            } else {
                seq![Token::LeftPar] + body + seq![Token::RightPar]
            }
        },
    }
}

/// The tokens of an expression tree with as few parentheses as its shape needs.
pub open spec fn render(e: Expr) -> Seq<Token> {
    render_at(e, 0)
}

/// Where the rendering of `e` at `level` stands in `t` from `i` on, the
/// rule of that level reads `e` off it: a factor returns it, a term or an
/// expression continues after it with `e` as the left operand.
proof fn lemma_parse_rendered(e: Expr, level: nat, t: Seq<Token>, i: int)
    requires
        level <= 2,
        0 <= i,
        i + render_at(e, level).len() <= t.len(),
        t.subrange(i, i + render_at(e, level).len()) == render_at(e, level),
        level == 0 ==> i + render_at(e, level).len() == t.len() || multiplicative_op(
            t[i + render_at(e, level).len()],
        ) is None,
    ensures
        level == 0 ==> parse_expression(t, i) == parse_expression_rest(
            t,
            e,
            i + render_at(e, level).len(),
        ),
        level == 1 ==> parse_term(t, i) == parse_term_rest(t, e, i + render_at(e, level).len()),
        level == 2 ==> parse_factor(t, i) == Ok::<(Expr, int), ParseError>(
            (e, i + render_at(e, level).len()),
        ),
    decreases e, level,
{
    let w = render_at(e, level);
    let m = i + w.len();
    assert(t[i] == w[0]);
    match e {
        Expr::Literal(v) => {
            assert(parse_factor(t, i) == Ok::<(Expr, int), ParseError>((e, i + 1)));
            if level == 0 {
                assert(parse_term(t, i) == parse_term_rest(t, e, m));
                assert(parse_term_rest(t, e, m) == Ok::<(Expr, int), ParseError>((e, m)));
            }
        },
        Expr::BinaryOp(op, l, r) => {
            let ol = op_level(op);
            let a = render_at(*l, ol);
            let b = render_at(*r, ol + 1);
            let body = a + seq![op_token(op)] + b;
            if ol >= level {
                // `e` stands bare: its left operand, the operator, its right operand.
                assert(w == body);
                let k = i + a.len();
                assert(t.subrange(i, k) =~= a);
                assert(t[k] == body[a.len() as int]);
                assert forall|j: int| 0 <= j < b.len() implies #[trigger] t.subrange(k + 1, m)[j] == b[j] by {
                    assert(t[k + 1 + j] == w[k + 1 + j - i]);
                    assert(body[a.len() + 1 + j] == b[j]);
                }
                assert(t.subrange(k + 1, m) =~= b);
                if ol == 0 {
                    lemma_parse_rendered(*l, 0, t, i);
                    lemma_parse_rendered(*r, 1, t, k + 1);
                    assert(parse_term_rest(t, *r, m) == Ok::<(Expr, int), ParseError>((*r, m)));
                    assert(parse_expression_rest(t, *l, k) == parse_expression_rest(t, e, m));
                } else {
                    lemma_parse_rendered(*l, 1, t, i);
                    lemma_parse_rendered(*r, 2, t, k + 1);
                    assert(parse_term_rest(t, *l, k) == parse_term_rest(t, e, m));
                    if level == 0 {
                        assert(parse_term_rest(t, e, m) == Ok::<(Expr, int), ParseError>((e, m)));
                    }
                }
            } else {
                // `e` stands in parentheses, and inside them at level 0.
                assert(render_at(e, 0) == body);
                assert(w == seq![Token::LeftPar] + body + seq![Token::RightPar]);
                assert forall|j: int| 0 <= j < body.len() implies #[trigger] t.subrange(i + 1, m - 1)[j] == body[j] by {
                    assert(t[i + 1 + j] == w[1 + j]);
                }
                assert(t.subrange(i + 1, m - 1) =~= body);
                assert(t[m - 1] == w[w.len() - 1]);
                lemma_parse_rendered(e, 0, t, i + 1);
                assert(parse_expression_rest(t, e, m - 1) == Ok::<(Expr, int), ParseError>(
                    (e, m - 1),
                ));
                assert(parse_factor(t, i) == Ok::<(Expr, int), ParseError>((e, m)));
            }
        },
    }
}

/// Every expression tree is read back from its rendering: parsing the
/// tokens of `e`, parenthesized only where precedence and left folding
/// require it, gives `e` itself.
pub proof fn lemma_parse_render(e: Expr)
    ensures
        parse_tokens(render(e)) == Ok::<Expr, ParseError>(e),
{
    let t = render(e);
    assert(t.subrange(0, t.len() as int) =~= t);
    lemma_parse_rendered(e, 0, t, 0);
}

/// A parse result with its position as an integer.
pub open spec fn parsed_view(r: Result<(Expr, usize), ParseError>) -> Result<(Expr, int), ParseError> {
    match r {
        Ok((e, k)) => Ok((e, k as int)),
        Err(err) => Err(err),
    }
}

fn factor(t: &Vec<Token>, i: usize) -> (r: Result<(Expr, usize), ParseError>)
    requires
        i <= t@.len(),
    ensures
        parsed_view(r) == parse_factor(t@, i as int),
        r matches Ok((_, k)) ==> advances(t@, i as int, k as int),
    decreases t@.len() - i, 0int,
{
    if i >= t.len() {
        return Err(ParseError::MissingOperand);
    }
    match t[i] {
        Token::Number(v) => Ok((Expr::Literal(v), i + 1)),
        Token::LeftPar => match expression(t, i + 1) {
            Ok((e, j)) => {
                if j >= t.len() {
                    Err(ParseError::UnclosedPar)
                } else if t[j] == Token::RightPar {
                    Ok((e, j + 1))
                } else {
                    Err(ParseError::ExpectedRightPar { index: j })
                }
            },
            Err(err) => Err(err),
        },
        _ => Err(ParseError::ExpectedOperand { index: i }),
    }
}

fn term(t: &Vec<Token>, i: usize) -> (r: Result<(Expr, usize), ParseError>)
    requires
        i <= t@.len(),
    ensures
        parsed_view(r) == parse_term(t@, i as int),
        r matches Ok((_, k)) ==> advances(t@, i as int, k as int),
    decreases t@.len() - i, 1int,
{
    let (mut lhs, mut k) = match factor(t, i) {
        Ok(p) => p,
        Err(err) => return Err(err),
    };
    loop
        invariant
            advances(t@, i as int, k as int),
            parse_term(t@, i as int) == parse_term_rest(t@, lhs, k as int),
        ensures
            advances(t@, i as int, k as int),
            parse_term(t@, i as int) == Ok::<(Expr, int), ParseError>((lhs, k as int)),
        decreases t@.len() - k,
    {
        if k >= t.len() {
            break;
        }
        let op = match t[k] {
            Token::Mult => Op::Mul,
            Token::Div => Op::Div,
            _ => break,
        };
        match factor(t, k + 1) {
            Ok((rhs, next)) => {
                lhs = Expr::BinaryOp(op, Box::new(lhs), Box::new(rhs));
                k = next;
            },
            Err(err) => return Err(err),
        }
    }
    Ok((lhs, k))
}

fn expression(t: &Vec<Token>, i: usize) -> (r: Result<(Expr, usize), ParseError>)
    requires
        i <= t@.len(),
    ensures
        parsed_view(r) == parse_expression(t@, i as int),
        r matches Ok((_, k)) ==> advances(t@, i as int, k as int),
    decreases t@.len() - i, 2int,
{
    let (mut lhs, mut k) = match term(t, i) {
        Ok(p) => p,
        Err(err) => return Err(err),
    };
    loop
        invariant
            advances(t@, i as int, k as int),
            parse_expression(t@, i as int) == parse_expression_rest(t@, lhs, k as int),
        ensures
            advances(t@, i as int, k as int),
            parse_expression(t@, i as int) == Ok::<(Expr, int), ParseError>((lhs, k as int)),
        decreases t@.len() - k,
    {
        if k >= t.len() {
            break;
        }
        let op = match t[k] {
            Token::Plus => Op::Add,
            Token::Minus => Op::Sub,
            _ => break,
        };
        match term(t, k + 1) {
            Ok((rhs, next)) => {
                lhs = Expr::BinaryOp(op, Box::new(lhs), Box::new(rhs));
                k = next;
            },
            Err(err) => return Err(err),
        }
    }
    Ok((lhs, k))
}

/// Builds the expression tree of a token sequence, with `*` and `/`
/// binding tighter than `+` and `-`, all four folding to the left.
pub fn parse(tokens: Vec<Token>) -> (r: Result<Expr, ParseError>)
    ensures
        r == parse_tokens(tokens@),
{
    match expression(&tokens, 0) {
        Ok((e, k)) => {
            if k < tokens.len() {
                Err(ParseError::TrailingToken { index: k })
            } else {
                Ok(e)
            }
        },
        Err(err) => Err(err),
    }
}

} // verus!

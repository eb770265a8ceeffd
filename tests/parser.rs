use expr_calc::parser::{parse, Expr, Op, ParseError};
use expr_calc::tokenizer::{tokenize, Token};

fn lit(v: u64) -> Box<Expr> {
    Box::new(Expr::Literal(v))
}

fn bin(op: Op, l: Box<Expr>, r: Box<Expr>) -> Box<Expr> {
    Box::new(Expr::BinaryOp(op, l, r))
}

fn parse_text(s: &str) -> Result<Expr, ParseError> {
    parse(tokenize(String::from(s)).unwrap())
}

#[test]
fn parses_precedence_and_parentheses() {
    let expected = bin(
        Op::Add,
        lit(1),
        bin(Op::Mul, lit(123), bin(Op::Div, lit(12), lit(234))),
    );
    assert_eq!(parse_text("1+123*(12/234)"), Ok(*expected));
}

#[test]
fn same_level_operators_fold_left() {
    assert_eq!(
        parse_text("1-2-3"),
        Ok(*bin(Op::Sub, bin(Op::Sub, lit(1), lit(2)), lit(3)))
    );
    assert_eq!(
        parse_text("8/4*2"),
        Ok(*bin(Op::Mul, bin(Op::Div, lit(8), lit(4)), lit(2)))
    );
}

#[test]
fn parentheses_override_folding() {
    assert_eq!(
        parse_text("1-(2-3)"),
        Ok(*bin(Op::Sub, lit(1), bin(Op::Sub, lit(2), lit(3))))
    );
    assert_eq!(parse_text("((7))"), Ok(Expr::Literal(7)));
}

#[test]
fn empty_input_misses_an_operand() {
    assert_eq!(parse(vec![]), Err(ParseError::MissingOperand));
    assert_eq!(parse_text("("), Err(ParseError::MissingOperand));
    assert_eq!(parse_text("1+"), Err(ParseError::MissingOperand));
}

#[test]
fn operator_or_paren_without_operand() {
    assert_eq!(parse_text("+"), Err(ParseError::ExpectedOperand { index: 0 }));
    assert_eq!(parse_text(")"), Err(ParseError::ExpectedOperand { index: 0 }));
    assert_eq!(parse_text("()"), Err(ParseError::ExpectedOperand { index: 1 }));
    assert_eq!(parse_text("2*-3"), Err(ParseError::ExpectedOperand { index: 2 }));
}

#[test]
fn unbalanced_parentheses() {
    assert_eq!(parse_text("(1+2"), Err(ParseError::UnclosedPar));
    assert_eq!(parse_text("(1 2)"), Err(ParseError::ExpectedRightPar { index: 2 }));
}

#[test]
fn trailing_tokens() {
    assert_eq!(parse_text("1+2)"), Err(ParseError::TrailingToken { index: 3 }));
    assert_eq!(parse_text("1 2"), Err(ParseError::TrailingToken { index: 1 }));
}

#[test]
fn parses_token_vector_directly() {
    let tokens = vec![
        Token::LeftPar,
        Token::Number(1),
        Token::Plus,
        Token::Number(2),
        Token::RightPar,
        Token::Mult,
        Token::Number(3),
    ];
    assert_eq!(
        parse(tokens),
        Ok(*bin(Op::Mul, bin(Op::Add, lit(1), lit(2)), lit(3)))
    );
}

fn level(op: &Op) -> u8 {
    match op {
        Op::Add | Op::Sub => 0,
        Op::Mul | Op::Div => 1,
    }
}

fn render_at(e: &Expr, place: u8, out: &mut Vec<Token>) {
    match e {
        Expr::Literal(v) => out.push(Token::Number(*v)),
        Expr::BinaryOp(op, l, r) => {
            let lv = level(op);
            if lv < place {
                out.push(Token::LeftPar);
            }
            render_at(l, lv, out);
            out.push(match op {
                Op::Add => Token::Plus,
                Op::Sub => Token::Minus,
                Op::Mul => Token::Mult,
                Op::Div => Token::Div,
            });
            render_at(r, lv + 1, out);
            if lv < place {
                out.push(Token::RightPar);
            }
        }
    }
}

#[test]
fn parsing_a_rendered_tree_gives_it_back() {
    let trees = vec![
        bin(Op::Sub, lit(10), bin(Op::Sub, lit(4), lit(3))),
        bin(Op::Mul, bin(Op::Add, lit(1), lit(2)), bin(Op::Div, lit(9), lit(3))),
        bin(Op::Div, lit(100), bin(Op::Mul, lit(5), lit(2))),
        bin(Op::Add, bin(Op::Add, lit(1), lit(2)), bin(Op::Mul, lit(3), lit(4))),
        lit(u64::MAX),
    ];
    for tree in trees {
        let mut tokens = Vec::new();
        render_at(&tree, 0, &mut tokens);
        assert_eq!(parse(tokens), Ok(*tree));
    }
}

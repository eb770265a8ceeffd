use vstd::prelude::*;
use crate::evaluator::{eval, eval_expr, EvalError};
use crate::parser::{parse, parse_tokens, ParseError};
use crate::tokenizer::{is_white_space, lex, tokenize, white_space, TokenizeError};

verus! {

/// The stage at which a line failed, with that stage's error.
#[derive(PartialEq, Eq, Structural, Debug, Copy, Clone)]
pub enum CalcError {
    Lex(TokenizeError),
    Parse(ParseError),
    Eval(EvalError),
}

/// The outcome for a line of text: lexing, parsing and evaluation in turn,
/// the first stage that fails deciding the error.
pub open spec fn run_line(s: Seq<char>) -> Result<u64, CalcError> {
    match lex(s) {
        Err(err) => Err(CalcError::Lex(err)),
        Ok(ts) => match parse_tokens(ts) {
            Err(err) => Err(CalcError::Parse(err)),
            Ok(e) => match eval(e) {
                Err(err) => Err(CalcError::Eval(err)),
                Ok(v) => Ok(v),
            },
        },
    }
}

/// Computes the value of the arithmetic expression in `line`.
pub fn evaluate_line(line: String) -> (r: Result<u64, CalcError>)
    ensures
        r == run_line(line@),
{
    let tokens = match tokenize(line) {
        Ok(ts) => ts,
        Err(err) => return Err(CalcError::Lex(err)),
    };
    let expr = match parse(tokens) {
        Ok(e) => e,
        Err(err) => return Err(CalcError::Parse(err)),
    };
    match eval_expr(&expr) {
        Ok(v) => Ok(v),
        Err(err) => Err(CalcError::Eval(err)),
    }
}

/// `s` without its leading white space.
pub open spec fn trim_start(s: Seq<char>) -> Seq<char>
    decreases s.len(),
{
    if s.len() > 0 && white_space(s[0]) {
        trim_start(s.drop_first())
    } else {
        s
    }
}

/// `s` without its trailing white space.
pub open spec fn trim_end(s: Seq<char>) -> Seq<char>
    decreases s.len(),
{
    if s.len() > 0 && white_space(s.last()) {
        trim_end(s.drop_last())
    } else {
        s
    }
}

/// Whether a line asks to leave: it reads `exit` once white space at both
/// ends is removed.
pub fn is_exit_command(line: &str) -> (r: bool)
    ensures
        r == (trim_end(trim_start(line@)) == seq!['e', 'x', 'i', 't']),
{
    let ghost s = line@;
    let n = line.unicode_len();
    let mut lo: usize = 0;
    proof {
        assert(s.subrange(0, n as int) =~= s);
    }
    while lo < n && is_white_space(line.get_char(lo))
        invariant
            lo <= n == s.len(),
            s == line@,
            trim_start(s) == trim_start(s.subrange(lo as int, n as int)),
        decreases n - lo,
    {
        proof {
            assert(s.subrange(lo as int, n as int).drop_first() =~= s.subrange(lo + 1, n as int));
        }
        lo = lo + 1;
    }
    let mut hi: usize = n;
    proof {
        assert(trim_start(s) == s.subrange(lo as int, n as int));
    }
    while hi > lo && is_white_space(line.get_char(hi - 1))
        invariant
            lo <= hi <= n == s.len(),
            s == line@,
            trim_end(trim_start(s)) == trim_end(s.subrange(lo as int, hi as int)),
        decreases hi - lo,
    {
        proof {
            assert(s.subrange(lo as int, hi as int).drop_last() =~= s.subrange(lo as int, hi - 1));
        }
        hi = hi - 1;
    }
    let ghost t = s.subrange(lo as int, hi as int);
    proof {
        assert(trim_end(trim_start(s)) == t);
    }
    if hi - lo != 4 {
        return false;
    }
    let r = line.get_char(lo) == 'e' && line.get_char(lo + 1) == 'x' && line.get_char(lo + 2) == 'i'
        && line.get_char(lo + 3) == 't';
    proof {
        if r {
            assert(t =~= seq!['e', 'x', 'i', 't']);
        } else {
            assert(t[0] != 'e' || t[1] != 'x' || t[2] != 'i' || t[3] != 't');
        }
    }
    r
}

} // verus!

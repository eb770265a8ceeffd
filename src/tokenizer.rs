use vstd::prelude::*;

verus! {

/// A lexical unit of an arithmetic expression.
#[derive(PartialEq, Eq, Structural, Debug, Copy, Clone)]
pub enum Token {
    Number(u64),
    Plus,
    Minus,
    Mult,
    Div,
    LeftPar,
    RightPar,
}

/// The text could not be split into tokens: `index` is the 1-based position
/// (in characters) of the offending character, or of the first digit of a
/// number that does not fit in 64 bits.
#[derive(PartialEq, Eq, Structural, Debug, Copy, Clone)]
pub struct TokenizeError {
    pub index: usize,
}

/// Characters with the Unicode `White_Space` property.
pub open spec fn white_space(c: char) -> bool {
    let u = c as u32;
    (0x09 <= u && u <= 0x0d) || u == 0x20 || u == 0x85 || u == 0xa0 || u == 0x1680
        || (0x2000 <= u && u <= 0x200a) || u == 0x2028 || u == 0x2029 || u == 0x202f
        || u == 0x205f || u == 0x3000
}

pub open spec fn is_digit(c: char) -> bool {
    '0' <= c && c <= '9'
}

pub open spec fn digit_value(c: char) -> nat {
    (c as u32 - '0' as u32) as nat
}

/// The number that a sequence of decimal digits denotes.
pub open spec fn decimal_value(ds: Seq<char>) -> nat
    decreases ds.len(),
{
    if ds.len() == 0 {
        0
    } else {
        decimal_value(ds.drop_last()) * 10 + digit_value(ds.last())
    }
}

/// The token that a single operator or parenthesis character stands for.
pub open spec fn symbol_of(c: char) -> Option<Token> {
    if c == '+' {
        Some(Token::Plus)
    } else if c == '-' {
        Some(Token::Minus)
    } else if c == '*' {
        Some(Token::Mult)
    } else if c == '/' {
        Some(Token::Div)
    } else if c == '(' {
        Some(Token::LeftPar)
    } else if c == ')' {
        Some(Token::RightPar)
    } else {
        None
    }
}

/// The end (exclusive) of the run of digits that starts at `i`.
pub open spec fn run_end(s: Seq<char>, i: int) -> int
    decreases s.len() - i,
{
    if 0 <= i < s.len() && is_digit(s[i]) {
        run_end(s, i + 1)
    } else {
        i
    }
}

/// `r` with the token `t` put in front when it is a success.
pub open spec fn cons_token(t: Token, r: Result<Seq<Token>, TokenizeError>) -> Result<
    Seq<Token>,
    TokenizeError,
> {
    match r {
        Ok(ts) => Ok(seq![t] + ts),
        Err(e) => Err(e),
    }
}

/// The tokens of `s` from position `i` (0-based) on.
pub open spec fn lex_from(s: Seq<char>, i: int) -> Result<Seq<Token>, TokenizeError>
    decreases s.len() - i,
{
    if i < 0 || i >= s.len() {
        Ok(seq![])
    } else if white_space(s[i]) {
        lex_from(s, i + 1)
    } else if is_digit(s[i]) {
        let j = run_end(s, i);
        let v = decimal_value(s.subrange(i, j));
        proof {
            lemma_run_end_bounds(s, i);
        }
        if v > u64::MAX {
            Err(TokenizeError { index: (i + 1) as usize })
        } else {
            cons_token(Token::Number(v as u64), lex_from(s, j))
        }
    } else {
        match symbol_of(s[i]) {
            Some(t) => cons_token(t, lex_from(s, i + 1)),
            None => Err(TokenizeError { index: (i + 1) as usize }),
        }
    }
}

/// What `tokenize` yields for the text `s`.
pub open spec fn lex(s: Seq<char>) -> Result<Seq<Token>, TokenizeError> {
    lex_from(s, 0)
}

/// A run of digits starting inside the text ends after its first character
/// and within the text, and holds only digits.
pub proof fn lemma_run_end_bounds(s: Seq<char>, i: int)
    ensures
        i <= run_end(s, i),
        0 <= i < s.len() && is_digit(s[i]) ==> i < run_end(s, i) <= s.len(),
        forall|k: int| i <= k < run_end(s, i) ==> is_digit(#[trigger] s[k]),
    decreases s.len() - i,
{
    if 0 <= i < s.len() && is_digit(s[i]) {
        lemma_run_end_bounds(s, i + 1);
    }
}

/// `r` with the tokens `ts` put in front when it is a success.
pub open spec fn prefix_tokens(ts: Seq<Token>, r: Result<Seq<Token>, TokenizeError>) -> Result<
    Seq<Token>,
    TokenizeError,
> {
    match r {
        Ok(rest) => Ok(ts + rest),
        Err(e) => Err(e),
    }
}

pub proof fn lemma_prefix_cons(ts: Seq<Token>, t: Token, r: Result<Seq<Token>, TokenizeError>)
    ensures
        prefix_tokens(ts, cons_token(t, r)) == prefix_tokens(ts.push(t), r),
{
    if let Ok(rest) = r {
        assert(ts + (seq![t] + rest) =~= ts.push(t) + rest);
    }
}

/// A decimal number is at least as large as the number any prefix of its
/// digits denotes.
pub proof fn lemma_decimal_prefix_le(ds: Seq<char>, k: int)
    requires
        0 <= k <= ds.len(),
    ensures
        decimal_value(ds.subrange(0, k)) <= decimal_value(ds),
    decreases ds.len(),
{
    if k == ds.len() {
        assert(ds.subrange(0, k) =~= ds);
    } else {
        lemma_decimal_prefix_le(ds.drop_last(), k);
        assert(ds.drop_last().subrange(0, k) =~= ds.subrange(0, k));
    }
}

/// Whether `c` is white space in the Unicode sense.
pub fn is_white_space(c: char) -> (r: bool)
    ensures
        r == white_space(c),
{
    let u = c as u32;
    (0x09 <= u && u <= 0x0d) || u == 0x20 || u == 0x85 || u == 0xa0 || u == 0x1680
        || (0x2000 <= u && u <= 0x200a) || u == 0x2028 || u == 0x2029 || u == 0x202f
        || u == 0x205f || u == 0x3000
}

fn symbol_token(c: char) -> (r: Option<Token>)
    ensures
        r == symbol_of(c),
{
    if c == '+' {
        Some(Token::Plus)
    } else if c == '-' {
        Some(Token::Minus)
    } else if c == '*' {
        Some(Token::Mult)
    } else if c == '/' {
        Some(Token::Div)
    } else if c == '(' {
        Some(Token::LeftPar)
    } else if c == ')' {
        Some(Token::RightPar)
    } else {
        None
    }
}

/// A forward cursor over the characters of a text, with one character of
/// lookahead. `index` counts the calls of `next`, including those made
/// past the end of the text.
struct CharStream<'a> {
    text: &'a str,
    len: usize,
    index: usize,
}

impl<'a> CharStream<'a> {
    spec fn wf(&self) -> bool {
        self.len == self.text@.len()
    }

    fn new(text: &'a str) -> (r: CharStream<'a>)
        ensures
            r.wf(),
            r.text@ == text@,
            r.index == 0,
    {
        CharStream { text, len: text.unicode_len(), index: 0 }
    }

    /// Consumes one character; past the end of the text it returns `None`.
    /// Every call counts, so `index` is the 1-based position of the
    /// character just returned.
    fn next(&mut self) -> (c: Option<char>)
        requires
            old(self).wf(),
            old(self).index < usize::MAX,
        ensures
            final(self).wf(),
            final(self).text@ == old(self).text@,
            final(self).index == old(self).index + 1,
            old(self).index < old(self).len ==> c == Some(old(self).text@[old(self).index as int]),
            old(self).index >= old(self).len ==> c is None,
    {
        let c = if self.index < self.len {
            Some(self.text.get_char(self.index))
        } else {
            None
        };
        self.index = self.index + 1;
        c
    }

    fn peek(&self) -> (c: Option<char>)
        requires
            self.wf(),
        ensures
            self.index < self.len ==> c == Some(self.text@[self.index as int]),
            self.index >= self.len ==> c is None,
    {
        if self.index < self.len {
            Some(self.text.get_char(self.index))
        } else {
            None
        }
    }
}

/// The tokens of a result of `tokenize` as a sequence.
pub open spec fn tokens_result(r: Result<Vec<Token>, TokenizeError>) -> Result<
    Seq<Token>,
    TokenizeError,
> {
    match r {
        Ok(ts) => Ok(ts@),
        Err(e) => Err(e),
    }
}

/// The run of digits from `i` ends at `j` when every character in between
/// is a digit and the one at `j` (if any) is not.
pub proof fn lemma_run_end_at(s: Seq<char>, i: int, j: int)
    requires
        0 <= i <= j <= s.len(),
        forall|k: int| i <= k < j ==> is_digit(#[trigger] s[k]),
        j == s.len() || !is_digit(s[j]),
    ensures
        run_end(s, i) == j,
    decreases j - i,
{
    if i < j {
        lemma_run_end_at(s, i + 1, j);
    }
}

/// A text made only of digits is a single number token when its value fits
/// in 64 bits, and fails at its first character otherwise.
pub proof fn lemma_lex_digits(s: Seq<char>)
    requires
        s.len() > 0,
        forall|k: int| 0 <= k < s.len() ==> is_digit(#[trigger] s[k]),
    ensures
        decimal_value(s) <= u64::MAX ==> lex(s) == Ok::<Seq<Token>, TokenizeError>(
            seq![Token::Number(decimal_value(s) as u64)],
        ),
        decimal_value(s) > u64::MAX ==> lex(s) == Err::<Seq<Token>, TokenizeError>(
            TokenizeError { index: 1 },
        ),
{
    lemma_run_end_at(s, 0, s.len() as int);
    assert(s.subrange(0, s.len() as int) =~= s);
    assert(is_digit(s[0]));
    assert(!white_space(s[0]));
    assert(lex_from(s, s.len() as int) == Ok::<Seq<Token>, TokenizeError>(seq![]));
    assert(seq![Token::Number(decimal_value(s) as u64)] + seq![] =~= seq![
        Token::Number(decimal_value(s) as u64),
    ]);
}

/// The character of a decimal digit `d < 10`.
pub open spec fn digit_char(d: nat) -> char {
    seq!['0', '1', '2', '3', '4', '5', '6', '7', '8', '9'][d as int]
}

/// The decimal digits of `n`, most significant first, without leading zeros.
pub open spec fn decimal_digits(n: nat) -> Seq<char>
    decreases n,
{
    if n < 10 {
        seq![digit_char(n)]
    } else {
        decimal_digits(n / 10).push(digit_char(n % 10))
    }
}

/// The decimal digits of `n` are a non-empty run of digits that denotes `n`.
pub proof fn lemma_decimal_digits(n: nat)
    ensures
        decimal_digits(n).len() > 0,
        forall|k: int| 0 <= k < decimal_digits(n).len() ==> is_digit(#[trigger] decimal_digits(n)[k]),
        decimal_value(decimal_digits(n)) == n,
    decreases n,
{
    let ds = decimal_digits(n);
    if n < 10 {
        assert(ds.drop_last() =~= seq![]);
        assert(decimal_value(ds.drop_last()) == 0);
    } else {
        lemma_decimal_digits(n / 10);
        assert(ds.drop_last() =~= decimal_digits(n / 10));
        assert(n == (n / 10) * 10 + n % 10) by (nonlinear_arith);
    }
}

/// The text of one token: the decimal digits of a number, or the operator
/// or parenthesis character.
pub open spec fn token_text(t: Token) -> Seq<char> {
    match t {
        Token::Number(v) => decimal_digits(v as nat),
        Token::Plus => seq!['+'],
        Token::Minus => seq!['-'],
        Token::Mult => seq!['*'],
        Token::Div => seq!['/'],
        Token::LeftPar => seq!['('],
        Token::RightPar => seq![')'],
    }
}

/// A text rendering of a token sequence: each token followed by a space.
pub open spec fn tokens_text(ts: Seq<Token>) -> Seq<char>
    decreases ts.len(),
{
    if ts.len() == 0 {
        seq![]
    } else {
        token_text(ts[0]) + seq![' '] + tokens_text(ts.drop_first())
    }
}

proof fn lemma_lex_after(p: Seq<char>, ts: Seq<Token>)
    ensures
        lex_from(p + tokens_text(ts), p.len() as int) == Ok::<Seq<Token>, TokenizeError>(ts),
    decreases ts.len(),
{
    let full = p + tokens_text(ts);
    if ts.len() == 0 {
        assert(ts =~= seq![]);
        assert(full =~= p);
    } else {
        let t = ts[0];
        let w = token_text(t);
        let rest = ts.drop_first();
        let q = p + w + seq![' '];
        assert(full =~= q + tokens_text(rest));
        lemma_lex_after(q, rest);
        let sp = q.len() - 1;
        assert(full[sp] == ' ');
        assert(lex_from(full, sp) == lex_from(full, q.len() as int));
        assert(ts =~= seq![t] + rest);
        let i = p.len() as int;
        match t {
            Token::Number(v) => {
                lemma_decimal_digits(v as nat);
                assert forall|k: int| i <= k < sp implies is_digit(#[trigger] full[k]) by {
                    assert(full[k] == w[k - i]);
                }
                lemma_run_end_at(full, i, sp);
                assert(full.subrange(i, sp) =~= w);
                assert(full[i] == w[0]);
                assert(!white_space(full[i]));
            },
            _ => {
                assert(full[i] == w[0]);
            },
        }
    }
}

/// Lexing the text rendering of any token sequence gives that sequence back.
pub proof fn lemma_lex_tokens_text(ts: Seq<Token>)
    ensures
        lex(tokens_text(ts)) == Ok::<Seq<Token>, TokenizeError>(ts),
{
    lemma_lex_after(seq![], ts);
    assert(seq![] + tokens_text(ts) =~= tokens_text(ts));
}

/// Splits `line` into tokens, left to right, skipping white space.
pub fn tokenize(line: String) -> (r: Result<Vec<Token>, TokenizeError>)
    ensures
        lex(line@) == tokens_result(r),
{
    let ghost s = line@;
    let mut stream = CharStream::new(line.as_str());
    let mut tokens: Vec<Token> = Vec::new();
    loop
        invariant
            stream.wf(),
            stream.index <= stream.len,
            stream.text@ == s,
            s == line@,
            lex(s) == prefix_tokens(tokens@, lex_from(s, stream.index as int)),
        ensures
            stream.wf(),
            stream.index >= stream.len,
            lex(s) == prefix_tokens(tokens@, lex_from(s, stream.index as int)),
        decreases stream.len - stream.index,
    {
        if stream.index >= stream.len {
            break;
        }
        let start = stream.index;
        let c = stream.next().unwrap();
        if is_white_space(c) {
            assert(lex_from(s, start as int) == lex_from(s, start + 1));
            continue;
        }
        if '0' <= c && c <= '9' {
            let mut value: u64 = (c as u32 - '0' as u32) as u64;
            proof {
                lemma_run_end_bounds(s, start as int);
                assert(s.subrange(start as int, start + 1).drop_last() =~= s.subrange(
                    start as int,
                    start as int,
                ));
                assert(decimal_value(s.subrange(start as int, start as int)) == 0);
            }
            loop
                invariant
                    stream.wf(),
                    stream.text@ == s,
                    s == line@,
                    lex(s) == prefix_tokens(tokens@, lex_from(s, start as int)),
                    start < stream.index <= run_end(s, start as int),
                    stream.index <= stream.len,
                    run_end(s, stream.index as int) == run_end(s, start as int),
                    value == decimal_value(s.subrange(start as int, stream.index as int)),
                ensures
                    stream.wf(),
                    stream.text@ == s,
                    s == line@,
                    lex(s) == prefix_tokens(tokens@, lex_from(s, start as int)),
                    start < stream.index == run_end(s, start as int),
                    stream.index <= stream.len,
                    value == decimal_value(s.subrange(start as int, stream.index as int)),
                decreases stream.len - stream.index,
            {
                let d = match stream.peek() {
                    Some(d) => d,
                    None => break,
                };
                if !('0' <= d && d <= '9') {
                    break;
                }
                let ghost j = stream.index as int;
                stream.next();
                proof {
                    lemma_run_end_bounds(s, j);
                    assert(s.subrange(start as int, j + 1).drop_last() =~= s.subrange(
                        start as int,
                        j,
                    ));
                }
                let next = match value.checked_mul(10) {
                    Some(m) => m.checked_add((d as u32 - '0' as u32) as u64),
                    None => None,
                };
                match next {
                    Some(n) => {
                        value = n;
                    },
                    None => {
                        proof {
                            let e = run_end(s, start as int);
                            lemma_run_end_bounds(s, start as int);
                            let run = s.subrange(start as int, e);
                            lemma_decimal_prefix_le(run, j + 1 - start);
                            assert(run.subrange(0, j + 1 - start) =~= s.subrange(
                                start as int,
                                j + 1,
                            ));
                        }
                        assert(lex_from(s, start as int) == Err::<Seq<Token>, TokenizeError>(
                            TokenizeError { index: (start + 1) as usize },
                        ));
                        return Err(TokenizeError { index: start + 1 });
                    },
                }
            }
            proof {
                assert(lex_from(s, start as int) == cons_token(
                    Token::Number(value),
                    lex_from(s, stream.index as int),
                ));
                lemma_prefix_cons(tokens@, Token::Number(value), lex_from(s, stream.index as int));
            }
            tokens.push(Token::Number(value));
        } else {
            match symbol_token(c) {
                Some(t) => {
                    proof {
                        assert(lex_from(s, start as int) == cons_token(t, lex_from(s, start + 1)));
                        lemma_prefix_cons(tokens@, t, lex_from(s, start + 1));
                    }
                    tokens.push(t);
                },
                None => {
                    assert(lex_from(s, start as int) == Err::<Seq<Token>, TokenizeError>(
                        TokenizeError { index: (start + 1) as usize },
                    ));
                    return Err(TokenizeError { index: start + 1 });
                },
            }
        }
    }
    proof {
        assert(tokens@ + seq![] =~= tokens@);
    }
    Ok(tokens)
}

} // verus!

//! Splits the text of an expression into numbers, operators and parentheses.
use vstd::prelude::*;

verus! {

/// A lexical unit of an expression. A number keeps the text of its literal
/// (digits and dots, with a leading minus sign where one was read as part of
/// the number); what value it denotes is left to whoever evaluates it.
#[derive(Clone, Debug)]
pub enum Token {
    Number(String),
    Plus,
    Minus,
    Multiply,
    Divide,
    LParen,
    RParen,
}

/// The mathematical model of a token: a number is the sequence of characters
/// of its literal.
pub enum TokenModel {
    Number(Seq<char>),
    Plus,
    Minus,
    Multiply,
    Divide,
    LParen,
    RParen,
}

impl View for Token {
    type V = TokenModel;

    open spec fn view(&self) -> TokenModel {
        match self {
            Token::Number(s) => TokenModel::Number(s@),
            Token::Plus => TokenModel::Plus,
            Token::Minus => TokenModel::Minus,
            Token::Multiply => TokenModel::Multiply,
            Token::Divide => TokenModel::Divide,
            Token::LParen => TokenModel::LParen,
            Token::RParen => TokenModel::RParen,
        }
    }
}

impl Token {
    /// Returns a token equal to this one.
    pub fn duplicate(&self) -> (r: Token)
        ensures
            r@ == self@,
    {
        match self {
            Token::Number(s) => Token::Number(s.clone()),
            Token::Plus => Token::Plus,
            Token::Minus => Token::Minus,
            Token::Multiply => Token::Multiply,
            Token::Divide => Token::Divide,
            Token::LParen => Token::LParen,
            Token::RParen => Token::RParen,
        }
    }
}

impl PartialEq for Token {
    fn eq(&self, other: &Token) -> (r: bool) {
        match (self, other) {
            (Token::Number(a), Token::Number(b)) => a.eq(b),
            (Token::Plus, Token::Plus) => true,
            (Token::Minus, Token::Minus) => true,
            (Token::Multiply, Token::Multiply) => true,
            (Token::Divide, Token::Divide) => true,
            (Token::LParen, Token::LParen) => true,
            (Token::RParen, Token::RParen) => true,
            _ => false,
        }
    }
}

impl vstd::std_specs::cmp::PartialEqSpecImpl for Token {
    open spec fn obeys_eq_spec() -> bool {
        true
    }

    open spec fn eq_spec(&self, other: &Token) -> bool {
        self@ == other@
    }
}

/// Why a text could not be split into tokens.
#[derive(Debug)]
pub enum ParseError {
    /// A character that starts no token.
    InvalidCharacter(char),
    /// A run of digits and dots that is not a decimal literal.
    InvalidNumber(String),
}

/// The mathematical model of a `ParseError`.
pub enum ParseErrorModel {
    InvalidCharacter(char),
    InvalidNumber(Seq<char>),
}

impl View for ParseError {
    type V = ParseErrorModel;

    open spec fn view(&self) -> ParseErrorModel {
        match self {
            ParseError::InvalidCharacter(c) => ParseErrorModel::InvalidCharacter(*c),
            ParseError::InvalidNumber(s) => ParseErrorModel::InvalidNumber(s@),
        }
    }
}

/// The models of a sequence of tokens.
pub open spec fn tokens_model(ts: Seq<Token>) -> Seq<TokenModel> {
    ts.map_values(|t: Token| t@)
}

pub open spec fn is_digit(c: char) -> bool {
    '0' as u32 <= c as u32 && c as u32 <= '9' as u32
}

/// A character that may stand in a numeric literal after its sign.
pub open spec fn is_number_char(c: char) -> bool {
    is_digit(c) || c == '.'
}

/// The characters with Unicode's White_Space property.
pub open spec fn is_space(c: char) -> bool {
    let u = c as u32;
    ||| 0x9 <= u && u <= 0xd
    ||| u == 0x20
    ||| u == 0x85
    ||| u == 0xa0
    ||| u == 0x1680
    ||| 0x2000 <= u && u <= 0x200a
    ||| u == 0x2028
    ||| u == 0x2029
    ||| u == 0x202f
    ||| u == 0x205f
    ||| u == 0x3000
}

/// The token that a single character stands for, if it is an operator or a
/// parenthesis.
pub open spec fn symbol_token(c: char) -> Option<TokenModel> {
    if c == '+' {
        Some(TokenModel::Plus)
    } else if c == '-' {
        Some(TokenModel::Minus)
    } else if c == '*' {
        Some(TokenModel::Multiply)
    } else if c == '/' {
        Some(TokenModel::Divide)
    } else if c == '(' {
        Some(TokenModel::LParen)
    } else if c == ')' {
        Some(TokenModel::RParen)
    } else {
        None
    }
}

/// The number of digits and dots in a row from position `j` of `s`.
pub open spec fn run_len(s: Seq<char>, j: int) -> nat
    decreases s.len() - j,
{
    if 0 <= j < s.len() && is_number_char(s[j]) {
        1 + run_len(s, j + 1)
    } else {
        0
    }
}

pub proof fn lemma_run_len_bound(s: Seq<char>, j: int)
    requires
        0 <= j <= s.len(),
    ensures
        j + run_len(s, j) <= s.len(),
    decreases s.len() - j,
{
    if j < s.len() && is_number_char(s[j]) {
        lemma_run_len_bound(s, j + 1);
    }
}

/// A literal without its leading minus sign, if it has one.
pub open spec fn literal_body(lit: Seq<char>) -> Seq<char> {
    if lit.len() > 0 && lit[0] == '-' {
        lit.drop_first()
    } else {
        lit
    }
}

/// Whether a run of digits and dots, with an optional leading minus sign,
/// reads as a decimal floating-point literal: it holds at least one digit
/// and at most one dot.
pub open spec fn is_float_literal(lit: Seq<char>) -> bool {
    let body = literal_body(lit);
    &&& (exists|k: int| 0 <= k < body.len() && is_digit(#[trigger] body[k]))
    &&& (forall|j: int, k: int|
        0 <= j < body.len() && 0 <= k < body.len() && #[trigger] body[j] == '.'
            && #[trigger] body[k] == '.' ==> j == k)
}

/// Puts `t` in front of the tokens of a successful scan; an error passes
/// through.
pub open spec fn prepend(
    p: Seq<TokenModel>,
    r: Result<Seq<TokenModel>, ParseErrorModel>,
) -> Result<Seq<TokenModel>, ParseErrorModel> {
    match r {
        Ok(ts) => Ok(p + ts),
        Err(e) => Err(e),
    }
}

/// The tokens of `s` from position `i` on, where `allow_number` says whether
/// a `-` there starts a negative number (an operand is expected) rather than
/// being the subtraction operator.
pub open spec fn scan(s: Seq<char>, i: int, allow_number: bool) -> Result<
    Seq<TokenModel>,
    ParseErrorModel,
>
    decreases s.len() - i,
{
    if i < 0 || i >= s.len() {
        Ok(seq![])
    } else {
        let c = s[i];
        if is_space(c) {
            scan(s, i + 1, allow_number)
        } else if is_number_char(c) || (c == '-' && allow_number) {
            let end = i + 1 + run_len(s, i + 1);
            proof {
                lemma_run_len_bound(s, i + 1);
            }
            let lit = s.subrange(i, end);
            if !is_float_literal(lit) {
                Err(ParseErrorModel::InvalidNumber(lit))
            } else {
                prepend(seq![TokenModel::Number(lit)], scan(s, end, false))
            }
        } else {
            match symbol_token(c) {
                Some(t) => prepend(seq![t], scan(s, i + 1, t != TokenModel::RParen)),
                None => Err(ParseErrorModel::InvalidCharacter(c)),
            }
        }
    }
}

/// The tokens of a whole text.
pub open spec fn tokens_of(s: Seq<char>) -> Result<Seq<TokenModel>, ParseErrorModel> {
    scan(s, 0, true)
}

/// The text of a token: a number's literal, or the character of an operator
/// or parenthesis.
pub open spec fn token_text(t: TokenModel) -> Seq<char> {
    match t {
        TokenModel::Number(lit) => lit,
        TokenModel::Plus => seq!['+'],
        TokenModel::Minus => seq!['-'],
        TokenModel::Multiply => seq!['*'],
        TokenModel::Divide => seq!['/'],
        TokenModel::LParen => seq!['('],
        TokenModel::RParen => seq![')'],
    }
}

/// Tokens written out as text, each followed by one space.
pub open spec fn render(ts: Seq<TokenModel>) -> Seq<char>
    decreases ts.len(),
{
    if ts.len() == 0 {
        seq![]
    } else {
        token_text(ts[0]) + seq![' '] + render(ts.drop_first())
    }
}

proof fn lemma_run_len_shift(p: Seq<char>, q: Seq<char>, j: int)
    requires
        0 <= j,
    ensures
        run_len(p + q, p.len() + j) == run_len(q, j),
    decreases q.len() - j,
{
    if j < q.len() {
        assert((p + q)[p.len() + j] == q[j]);
        lemma_run_len_shift(p, q, j + 1);
    }
}

proof fn lemma_run_len_chars(s: Seq<char>, j: int)
    requires
        0 <= j <= s.len(),
    ensures
        forall|k: int| j <= k < j + run_len(s, j) ==> is_number_char(#[trigger] s[k]),
        j + run_len(s, j) == s.len() || !is_number_char(s[j + run_len(s, j)]),
    decreases s.len() - j,
{
    lemma_run_len_bound(s, j);
    if j < s.len() && is_number_char(s[j]) {
        lemma_run_len_chars(s, j + 1);
    }
}

proof fn lemma_run_len_exact(s: Seq<char>, j: int, m: int)
    requires
        0 <= j <= m < s.len(),
        forall|k: int| j <= k < m ==> is_number_char(#[trigger] s[k]),
        !is_number_char(s[m]),
    ensures
        run_len(s, j) == m - j,
    decreases m - j,
{
    if j < m {
        lemma_run_len_exact(s, j + 1, m);
    }
}

proof fn lemma_scan_shift(p: Seq<char>, q: Seq<char>, j: int, allow_number: bool)
    requires
        0 <= j,
    ensures
        scan(p + q, p.len() + j, allow_number) == scan(q, j, allow_number),
    decreases q.len() - j,
{
    let u = p + q;
    if j < q.len() {
        let c = q[j];
        assert(u[p.len() + j] == c);
        if is_space(c) {
            lemma_scan_shift(p, q, j + 1, allow_number);
        } else if is_number_char(c) || (c == '-' && allow_number) {
            lemma_run_len_shift(p, q, j + 1);
            lemma_run_len_bound(q, j + 1);
            let end = j + 1 + run_len(q, j + 1);
            assert(u.subrange(p.len() + j, p.len() + end) =~= q.subrange(j, end));
            lemma_scan_shift(p, q, end, false);
        } else if let Some(t) = symbol_token(c) {
            lemma_scan_shift(p, q, j + 1, t != TokenModel::RParen);
        }
    }
}

proof fn lemma_render_number(s: Seq<char>, i: int, allow_number: bool)
    requires
        0 <= i < s.len(),
        !is_space(s[i]),
        is_number_char(s[i]) || (s[i] == '-' && allow_number),
        scan(s, i, allow_number) is Ok,
        scan(s, i + 1 + run_len(s, i + 1), false) is Ok,
        scan(render(scan(s, i + 1 + run_len(s, i + 1), false)->Ok_0), 0, false) == scan(
            s,
            i + 1 + run_len(s, i + 1),
            false,
        ),
    ensures
        scan(render(scan(s, i, allow_number)->Ok_0), 0, allow_number) == scan(
            s,
            i,
            allow_number,
        ),
{
    let c = s[i];
    lemma_run_len_bound(s, i + 1);
    lemma_run_len_chars(s, i + 1);
    let end = i + 1 + run_len(s, i + 1);
    let lit = s.subrange(i, end);
    let rest = scan(s, end, false)->Ok_0;
    let ts = seq![TokenModel::Number(lit)] + rest;
    let tail = render(rest);
    assert(ts.drop_first() =~= rest);
    let head = lit + seq![' '];
    let u = render(ts);
    assert(u == head + tail);
    assert(u[0] == c);
    assert(u[lit.len() as int] == ' ');
    assert forall|k: int| 1 <= k < lit.len() implies is_number_char(#[trigger] u[k]) by {
        assert(u[k] == s[i + k]);
    }
    lemma_run_len_exact(u, 1, lit.len() as int);
    assert(u.subrange(0, lit.len() as int) =~= lit);
    lemma_scan_shift(head, tail, 0, false);
    assert(scan(u, lit.len() as int, false) == scan(u, lit.len() + 1int, false));
}

proof fn lemma_render_symbol(s: Seq<char>, i: int, allow_number: bool, t: TokenModel)
    requires
        0 <= i < s.len(),
        !is_space(s[i]),
        !(is_number_char(s[i]) || (s[i] == '-' && allow_number)),
        symbol_token(s[i]) == Some(t),
        scan(s, i + 1, t != TokenModel::RParen) is Ok,
        scan(render(scan(s, i + 1, t != TokenModel::RParen)->Ok_0), 0, t != TokenModel::RParen)
            == scan(s, i + 1, t != TokenModel::RParen),
    ensures
        scan(render(scan(s, i, allow_number)->Ok_0), 0, allow_number) == scan(
            s,
            i,
            allow_number,
        ),
{
    let c = s[i];
    let rest = scan(s, i + 1, t != TokenModel::RParen)->Ok_0;
    let ts = seq![t] + rest;
    let tail = render(rest);
    assert(ts.drop_first() =~= rest);
    assert(token_text(t) =~= seq![c]);
    let head = seq![c, ' '];
    let u = render(ts);
    assert(u =~= head + tail);
    lemma_scan_shift(head, tail, 0, t != TokenModel::RParen);
    assert(u[0] == c && u[1] == ' ');
    assert(scan(u, 1, t != TokenModel::RParen) == scan(u, 2, t != TokenModel::RParen));
    assert(scan(u, 0, allow_number) == prepend(seq![t], scan(u, 1, t != TokenModel::RParen)));
}

proof fn lemma_scan_render(s: Seq<char>, i: int, allow_number: bool)
    requires
        0 <= i,
        scan(s, i, allow_number) is Ok,
    ensures
        scan(render(scan(s, i, allow_number)->Ok_0), 0, allow_number) == scan(
            s,
            i,
            allow_number,
        ),
    decreases s.len() - i,
{
    if i < s.len() {
        let c = s[i];
        if is_space(c) {
            lemma_scan_render(s, i + 1, allow_number);
        } else if is_number_char(c) || (c == '-' && allow_number) {
            lemma_run_len_bound(s, i + 1);
            lemma_scan_render(s, i + 1 + run_len(s, i + 1), false);
            lemma_render_number(s, i, allow_number);
        } else if let Some(t) = symbol_token(c) {
            lemma_scan_render(s, i + 1, t != TokenModel::RParen);
            lemma_render_symbol(s, i, allow_number, t);
        }
    }
}

/// Writing the tokens of a text out again, each followed by a space, and
/// splitting that text gives the same tokens once more.
pub proof fn lemma_tokens_of_render(s: Seq<char>)
    requires
        tokens_of(s) is Ok,
    ensures
        tokens_of(render(tokens_of(s)->Ok_0)) == tokens_of(s),
{
    lemma_scan_render(s, 0, true);
}

fn is_space_char(c: char) -> (r: bool)
    ensures
        r == is_space(c),
{
    let u = c as u32;
    (0x9 <= u && u <= 0xd) || u == 0x20 || u == 0x85 || u == 0xa0 || u == 0x1680 || (0x2000 <= u
        && u <= 0x200a) || u == 0x2028 || u == 0x2029 || u == 0x202f || u == 0x205f || u == 0x3000
}

fn is_digit_char(c: char) -> (r: bool)
    ensures
        r == is_digit(c),
{
    '0' as u32 <= c as u32 && c as u32 <= '9' as u32
}

fn is_number_char_exec(c: char) -> (r: bool)
    ensures
        r == is_number_char(c),
{
    is_digit_char(c) || c == '.'
}

proof fn lemma_prepend_assoc(
    a: Seq<TokenModel>,
    b: Seq<TokenModel>,
    r: Result<Seq<TokenModel>, ParseErrorModel>,
)
    ensures
        prepend(a + b, r) == prepend(a, prepend(b, r)),
{
    if let Ok(ts) = r {
        assert(a + b + ts =~= a + (b + ts));
    }
}

/// Whether `lit` reads as a decimal literal.
fn literal_is_valid(lit: &str) -> (r: bool)
    ensures
        r == is_float_literal(lit@),
{
    let n = lit.unicode_len();
    let start: usize = if n > 0 && lit.get_char(0) == '-' {
        1
    } else {
        0
    };
    let ghost body = literal_body(lit@);
    let mut k: usize = start;
    let mut seen_digit = false;
    let mut seen_dot = false;
    let ghost mut dot_at: int = 0;
    while k < n
        invariant
            n == lit@.len(),
            start <= k <= n,
            start <= 1,
            body == literal_body(lit@),
            body.len() == n - start,
            forall|m: int| 0 <= m < body.len() ==> body[m] == lit@[m + start],
            seen_digit <==> exists|m: int| 0 <= m < k - start && is_digit(#[trigger] body[m]),
            !seen_dot ==> forall|m: int| 0 <= m < k - start ==> body[m] != '.',
            seen_dot ==> 0 <= dot_at < k - start && body[dot_at] == '.',
            seen_dot ==> forall|m: int| 0 <= m < k - start && body[m] == '.' ==> m == dot_at,
        decreases n - k,
    {
        let c = lit.get_char(k);
        assert(body[k - start] == c);
        if c == '.' {
            if seen_dot {
                let ghost second = k - start;
                assert(body[dot_at] == '.' && body[second] == '.' && dot_at != second);
                assert(!(forall|a: int, b: int|
                    0 <= a < body.len() && 0 <= b < body.len() && #[trigger] body[a] == '.'
                        && #[trigger] body[b] == '.' ==> a == b));
                return false;
            }
            seen_dot = true;
            proof {
                dot_at = k - start;
            }
        } else if is_digit_char(c) {
            seen_digit = true;
        }
        k = k + 1;
    }
    assert(forall|a: int, b: int|
        0 <= a < body.len() && 0 <= b < body.len() && #[trigger] body[a] == '.' && #[trigger] body[b]
            == '.' ==> a == b);
    seen_digit
}

/// Splits `input` into tokens, scanning from left to right.
///
/// Whitespace separates tokens and is otherwise skipped. A digit or a dot
/// starts a number, and so does a `-` where an operand is expected (at the
/// start, and after an operator or an opening parenthesis); the number then
/// runs over every digit and dot that follows. Any other character must be
/// one of `+ - * / ( )`.
pub fn tokenize(input: &str) -> (r: Result<Vec<Token>, ParseError>)
    ensures
        match r {
            Ok(ts) => tokens_of(input@) == Ok::<Seq<TokenModel>, ParseErrorModel>(
                tokens_model(ts@),
            ),
            Err(e) => tokens_of(input@) == Err::<Seq<TokenModel>, ParseErrorModel>(e@),
        },
{
    let n = input.unicode_len();
    let mut tokens: Vec<Token> = Vec::new();
    let mut allow_number = true;
    let mut i: usize = 0;
    assert(tokens_model(tokens@) =~= seq![]);
    assert(prepend(seq![], scan(input@, 0, true)) == scan(input@, 0, true)) by {
        if let Ok(ts) = scan(input@, 0, true) {
            assert(Seq::<TokenModel>::empty() + ts =~= ts);
        }
    }
    while i < n
        invariant
            n == input@.len(),
            i <= n,
            tokens_of(input@) == prepend(tokens_model(tokens@), scan(input@, i as int, allow_number)),
        decreases n - i,
    {
        let ghost before = tokens_model(tokens@);
        let c = input.get_char(i);
        if is_space_char(c) {
            i = i + 1;
        } else if is_number_char_exec(c) || (c == '-' && allow_number) {
            let mut j: usize = i + 1;
            while j < n && is_number_char_exec(input.get_char(j))
                invariant
                    n == input@.len(),
                    i < j <= n,
                    run_len(input@, i + 1) == (j - (i + 1)) + run_len(input@, j as int),
                decreases n - j,
            {
                j = j + 1;
            }
            let lit = input.substring_char(i, j);
            if !literal_is_valid(lit) {
                return Err(ParseError::InvalidNumber(String::from_str(lit)));
            }
            let t = Token::Number(String::from_str(lit));
            tokens.push(t);
            proof {
                assert(tokens_model(tokens@) =~= before + seq![t@]);
                lemma_prepend_assoc(before, seq![t@], scan(input@, j as int, false));
            }
            i = j;
            allow_number = false;
        } else {
            let t = if c == '+' {
                Token::Plus
            } else if c == '-' {
                Token::Minus
            } else if c == '*' {
                Token::Multiply
            } else if c == '/' {
                Token::Divide
            } else if c == '(' {
                Token::LParen
            } else if c == ')' {
                Token::RParen
            } else {
                return Err(ParseError::InvalidCharacter(c));
            };
            tokens.push(t);
            proof {
                assert(tokens_model(tokens@) =~= before + seq![t@]);
                lemma_prepend_assoc(before, seq![t@], scan(input@, i + 1, c != ')'));
            }
            allow_number = c != ')';
            i = i + 1;
        }
    }
    assert(tokens_model(tokens@) + seq![] =~= tokens_model(tokens@));
    Ok(tokens)
}

} // verus!

//! The scanner: turns expression text into a sequence of tokens, each with
//! the character offset at which it starts, closed by one `End` token.
use vstd::prelude::*;
use crate::text::{
    alphabetic, chars_of, decimal, is_alphabetic, is_ascii_digit, is_numeric, numeric,
    push_decimal, push_str, string_of, sub_chars,
};

verus! {

/// What a token is. `Number` and `Str` name the characters
/// `start..end` of the scanned text.
#[derive(PartialEq, Eq, Debug, Copy, Clone, Structural)]
pub enum TokenType {
    Number { start: usize, end: usize },
    Str { start: usize, end: usize },
    Plus,
    Minus,
    Multiplication,
    Division,
    Modulo,
    Power,
    Factorial,
    Comma,
    Lparen,
    Rparen,
    Equals,
    Bar,
    End,
    /// No token was produced (the character was skipped).
    Nothing,
}

#[derive(PartialEq, Eq, Debug, Copy, Clone, Structural)]
pub struct Token {
    pub t: TokenType,
    pub pos: usize,
}

/// A numeric literal that does not read as a number: characters `start..end`.
#[derive(PartialEq, Eq, Debug, Copy, Clone, Structural)]
pub enum ScanError {
    MalformedNumber { start: usize, end: usize },
}

impl Token {
    pub fn new(t: TokenType, pos: usize) -> (r: Self)
        ensures
            r == (Token { t, pos }),
    {
        Token { t, pos }
    }
}

/// The name of a token kind, as messages show it. The marker for "no
/// token" is shown as `None`.
pub open spec fn kind_name(t: TokenType) -> Seq<char> {
    match t {
        TokenType::Number { .. } => "Number"@,
        TokenType::Str { .. } => "Str"@,
        TokenType::Plus => "Plus"@,
        TokenType::Minus => "Minus"@,
        TokenType::Multiplication => "Multiplication"@,
        TokenType::Division => "Division"@,
        TokenType::Modulo => "Modulo"@,
        TokenType::Power => "Power"@,
        TokenType::Factorial => "Factorial"@,
        TokenType::Comma => "Comma"@,
        TokenType::Lparen => "Lparen"@,
        TokenType::Rparen => "Rparen"@,
        TokenType::Equals => "Equals"@,
        TokenType::Bar => "Bar"@,
        TokenType::End => "End"@,
        TokenType::Nothing => "None"@,
    }
}

impl TokenType {
    pub fn name(&self) -> (r: &'static str)
        ensures
            r@ == kind_name(*self),
    {
        match self {
            TokenType::Number { .. } => "Number",
            TokenType::Str { .. } => "Str",
            TokenType::Plus => "Plus",
            TokenType::Minus => "Minus",
            TokenType::Multiplication => "Multiplication",
            TokenType::Division => "Division",
            TokenType::Modulo => "Modulo",
            TokenType::Power => "Power",
            TokenType::Factorial => "Factorial",
            TokenType::Comma => "Comma",
            TokenType::Lparen => "Lparen",
            TokenType::Rparen => "Rparen",
            TokenType::Equals => "Equals",
            TokenType::Bar => "Bar",
            TokenType::End => "End",
            TokenType::Nothing => "None",
        }
    }
}

pub open spec fn scan_message(e: ScanError) -> Seq<char> {
    match e {
        ScanError::MalformedNumber { start, end } => "Wrong format number at pos "@ + decimal(start as nat) + "!"@,
    }
}

impl ScanError {
    pub fn message(&self) -> (r: String)
        ensures
            r@ == scan_message(*self),
    {
        let mut out: Vec<char> = Vec::new();
        match self {
            ScanError::MalformedNumber { start, end } => {
                push_str(&mut out, "Wrong format number at pos ");
                push_decimal(&mut out, *start);
                push_str(&mut out, "!");
            },
        }
        assert(out@ =~= scan_message(*self));
        string_of(out.as_slice())
    }
}

pub open spec fn end_token() -> Token {
    Token { t: TokenType::End, pos: 0 }
}

/// The token kind of a character that always stands alone.
pub open spec fn symbol_kind(c: char) -> Option<TokenType> {
    if c == '+' {
        Some(TokenType::Plus)
    } else if c == '-' {
        Some(TokenType::Minus)
    } else if c == '/' {
        Some(TokenType::Division)
    } else if c == '%' {
        Some(TokenType::Modulo)
    } else if c == '^' {
        Some(TokenType::Power)
    } else if c == '!' {
        Some(TokenType::Factorial)
    } else if c == ',' {
        Some(TokenType::Comma)
    } else if c == '(' || c == '[' {
        Some(TokenType::Lparen)
    } else if c == ')' || c == ']' {
        Some(TokenType::Rparen)
    } else if c == '=' {
        Some(TokenType::Equals)
    } else if c == '|' {
        Some(TokenType::Bar)
    } else {
        None
    }
}

/// A character that starts a numeric literal: a numeric character or a
/// decimal point.
pub open spec fn starts_number(c: char) -> bool {
    numeric(c) || c == '.'
}

/// A character that continues a numeric literal; only upper-case `E` marks
/// an exponent.
pub open spec fn in_number(c: char) -> bool {
    numeric(c) || c == '.' || c == 'E'
}

/// How many characters from `i` on continue a numeric literal.
pub open spec fn number_len(s: Seq<char>, i: int) -> nat
    decreases s.len() - i,
{
    if 0 <= i < s.len() && in_number(s[i]) {
        1 + number_len(s, i + 1)
    } else {
        0
    }
}

/// How many characters from `i` on continue an identifier.
pub open spec fn word_len(s: Seq<char>, i: int) -> nat
    decreases s.len() - i,
{
    if 0 <= i < s.len() && alphabetic(s[i]) {
        1 + word_len(s, i + 1)
    } else {
        0
    }
}

pub open spec fn all_digits(s: Seq<char>) -> bool {
    forall|k: int| 0 <= k < s.len() ==> is_ascii_digit(#[trigger] s[k])
}

/// Digits with at most one decimal point among them, and at least one digit.
pub open spec fn decimal_literal(m: Seq<char>) -> bool {
    ||| all_digits(m) && m.len() > 0
    ||| exists|k: int|
        0 <= k < m.len() && #[trigger] m[k] == '.' && all_digits(m.take(k)) && all_digits(
            m.skip(k + 1),
        ) && m.len() > 1
}

/// A literal that reads as a floating-point number: a decimal, optionally
/// followed by `E` and a digit string.
pub open spec fn float_literal(s: Seq<char>) -> bool {
    ||| decimal_literal(s)
    ||| exists|k: int|
        0 <= k < s.len() - 1 && #[trigger] s[k] == 'E' && decimal_literal(s.take(k)) && all_digits(
            s.skip(k + 1),
        )
}

/// One step of scanning at character `i < s.len()`: the token produced there
/// (`Nothing` when the character is skipped), and where scanning goes on.
pub open spec fn step(s: Seq<char>, i: int) -> (Result<Token, ScanError>, int) {
    let c = s[i];
    if c == '*' {
        if i + 1 < s.len() && s[i + 1] == '*' {
            (Ok(Token { t: TokenType::Power, pos: i as usize }), i + 2)
        } else {
            (Ok(Token { t: TokenType::Multiplication, pos: i as usize }), i + 1)
        }
    } else if symbol_kind(c) is Some {
        (Ok(Token { t: symbol_kind(c)->Some_0, pos: i as usize }), i + 1)
    } else if starts_number(c) {
        let j = i + 1 + number_len(s, i + 1);
        if float_literal(s.subrange(i, j)) {
            (Ok(Token { t: TokenType::Number { start: i as usize, end: j as usize }, pos: i as usize }), j)
        } else {
            (Err(ScanError::MalformedNumber { start: i as usize, end: j as usize }), j)
        }
    } else if alphabetic(c) {
        let j = i + 1 + word_len(s, i + 1);
        (Ok(Token { t: TokenType::Str { start: i as usize, end: j as usize }, pos: i as usize }), j)
    } else {
        (Ok(Token { t: TokenType::Nothing, pos: i as usize }), i + 1)
    }
}

/// Puts `p` in front of a successful scan; an error stays as it is.
pub open spec fn prefixed(p: Seq<Token>, r: Result<Seq<Token>, ScanError>) -> Result<Seq<Token>, ScanError> {
    match r {
        Ok(ts) => Ok(p + ts),
        Err(e) => Err(e),
    }
}

/// The tokens of `s` from character `i` on, closed by `End`; or the first
/// malformed numeric literal.
pub open spec fn lex_from(s: Seq<char>, i: int) -> Result<Seq<Token>, ScanError>
    decreases s.len() - i via lex_from_decreases
{
    if i < 0 || i >= s.len() {
        Ok(seq![end_token()])
    } else {
        let j = step(s, i).1;
        match step(s, i).0 {
            Err(e) => Err(e),
            Ok(t) => {
                let rest = lex_from(s, j);
                if t.t is Nothing {
                    rest
                } else {
                    prefixed(seq![t], rest)
                }
            },
        }
    }
}

#[via_fn]
proof fn lex_from_decreases(s: Seq<char>, i: int) {
    if 0 <= i < s.len() {
        lemma_number_len_bound(s, i + 1);
        lemma_word_len_bound(s, i + 1);
    }
}

proof fn lemma_number_len_bound(s: Seq<char>, i: int)
    requires
        0 <= i <= s.len(),
    ensures
        i + number_len(s, i) <= s.len(),
    decreases s.len() - i,
{
    if i < s.len() {
        lemma_number_len_bound(s, i + 1);
    }
}

proof fn lemma_word_len_bound(s: Seq<char>, i: int)
    requires
        0 <= i <= s.len(),
    ensures
        i + word_len(s, i) <= s.len(),
    decreases s.len() - i,
{
    if i < s.len() {
        lemma_word_len_bound(s, i + 1);
    }
}

/// The tokens of the whole text.
pub open spec fn lex(s: Seq<char>) -> Result<Seq<Token>, ScanError> {
    lex_from(s, 0)
}

/// The characters that a `Number` or `Str` token names lie within a text
/// of `n` characters.
pub open spec fn token_fits(t: Token, n: int) -> bool {
    match t.t {
        TokenType::Number { start, end } => start <= end <= n,
        TokenType::Str { start, end } => start <= end <= n,
        _ => true,
    }
}

pub open spec fn tokens_fit(ts: Seq<Token>, n: int) -> bool {
    forall|k: int| 0 <= k < ts.len() ==> token_fits(#[trigger] ts[k], n)
}

/// Every token that scanning produces names characters of the text.
pub proof fn lemma_lex_fits(s: Seq<char>, i: int)
    requires
        lex_from(s, i) is Ok,
        s.len() <= usize::MAX,
    ensures
        tokens_fit(lex_from(s, i)->Ok_0, s.len() as int),
    decreases s.len() - i,
{
    if 0 <= i < s.len() {
        let j = step(s, i).1;
        lemma_number_len_bound(s, i + 1);
        lemma_word_len_bound(s, i + 1);
        lemma_lex_fits(s, j);
        let rest = lex_from(s, j)->Ok_0;
        let t = step(s, i).0->Ok_0;
        if !(t.t is Nothing) {
            assert forall|k: int| 0 <= k < lex_from(s, i)->Ok_0.len() implies token_fits(
                #[trigger] lex_from(s, i)->Ok_0[k],
                s.len() as int,
            ) by {
                if k > 0 {
                    assert(lex_from(s, i)->Ok_0[k] == rest[k - 1]);
                } else {
                    assert(lex_from(s, i)->Ok_0[k] == t);
                }
            }
        }
    }
}

/// A scanned sequence: one `End`, last, and no `Nothing`.
pub open spec fn closed_by_end(ts: Seq<Token>) -> bool {
    &&& ts.len() >= 1
    &&& ts.last() == end_token()
    &&& forall|k: int| 0 <= k < ts.len() - 1 ==> !(#[trigger] ts[k].t is End) && !(ts[k].t is Nothing)
}

/// A successful scan is closed by exactly one `End` and skips what makes no
/// token.
pub proof fn lemma_lex_shape(s: Seq<char>, i: int)
    requires
        lex_from(s, i) is Ok,
    ensures
        closed_by_end(lex_from(s, i)->Ok_0),
    decreases s.len() - i,
{
    if 0 <= i < s.len() {
        let j = step(s, i).1;
        lemma_number_len_bound(s, i + 1);
        lemma_word_len_bound(s, i + 1);
        lemma_lex_shape(s, j);
        let rest = lex_from(s, j)->Ok_0;
        let t = step(s, i).0->Ok_0;
        if !(t.t is Nothing) {
            let ts = lex_from(s, i)->Ok_0;
            assert(ts == seq![t] + rest);
            assert forall|k: int| 0 <= k < ts.len() - 1 implies !(#[trigger] ts[k].t is End) && !(
            ts[k].t is Nothing) by {
                if k > 0 {
                    assert(ts[k] == rest[k - 1]);
                }
            }
        }
    }
}

/// Every character of a well-formed literal continues a literal, and the
/// first one starts one.
pub proof fn lemma_float_literal_chars(s: Seq<char>)
    requires
        float_literal(s),
    ensures
        s.len() > 0,
        is_ascii_digit(s[0]) || s[0] == '.',
        forall|k: int| 0 <= k < s.len() ==> in_number(#[trigger] s[k]),
{
    if decimal_literal(s) {
        lemma_decimal_chars(s);
        assert(is_ascii_digit(s[0]) || s[0] == '.');
    } else {
        let k = choose|k: int|
            0 <= k < s.len() - 1 && #[trigger] s[k] == 'E' && decimal_literal(s.take(k)) && all_digits(
                s.skip(k + 1),
            );
        lemma_decimal_chars(s.take(k));
        assert(s.take(k)[0] == s[0]);
        assert(is_ascii_digit(s.take(k)[0]) || s.take(k)[0] == '.');
        assert forall|i: int| 0 <= i < k implies in_number(#[trigger] s[i]) by {
            assert(s.take(k)[i] == s[i]);
            assert(is_ascii_digit(s.take(k)[i]) || s.take(k)[i] == '.');
        }
        assert forall|i: int| 0 <= i < s.len() implies in_number(#[trigger] s[i]) by {
            if i < k {
                assert(s.take(k)[i] == s[i]);
            } else if i > k {
                assert(s.skip(k + 1)[i - k - 1] == s[i]);
            }
        }
    }
}

proof fn lemma_decimal_chars(m: Seq<char>)
    requires
        decimal_literal(m),
    ensures
        m.len() > 0,
        forall|k: int| 0 <= k < m.len() ==> is_ascii_digit(#[trigger] m[k]) || m[k] == '.',
{
    if !(all_digits(m) && m.len() > 0) {
        let k = choose|k: int|
            0 <= k < m.len() && #[trigger] m[k] == '.' && all_digits(m.take(k)) && all_digits(
                m.skip(k + 1),
            ) && m.len() > 1;
        assert forall|i: int| 0 <= i < m.len() implies is_ascii_digit(#[trigger] m[i]) || m[i] == '.' by {
            if i < k {
                assert(m.take(k)[i] == m[i]);
            } else if i > k {
                assert(m.skip(k + 1)[i - k - 1] == m[i]);
            }
        }
    }
}

/// From a position on which every character continues a literal, the
/// literal runs to the end.
pub proof fn lemma_number_len_to_end(s: Seq<char>, i: int)
    requires
        0 <= i <= s.len(),
        forall|k: int| i <= k < s.len() ==> in_number(#[trigger] s[k]),
    ensures
        number_len(s, i) == s.len() - i,
    decreases s.len() - i,
{
    if i < s.len() {
        lemma_number_len_to_end(s, i + 1);
    }
}

/// The cursor after `n` takes from `i`.
pub open spec fn advance_n(ts: Seq<Token>, i: int, n: nat) -> int
    decreases n,
{
    if n == 0 {
        i
    } else {
        advance(ts, advance_n(ts, i, (n - 1) as nat))
    }
}

/// Once the read cursor has reached the closing `End` of a scan, any number
/// of further takes leaves it on `End`: peeking keeps giving `End`.
pub proof fn lemma_end_is_sticky(s: Seq<char>, i: int, n: nat)
    requires
        lex(s) is Ok,
        lex(s)->Ok_0.len() - 1 <= i,
    ensures
        token_at(lex(s)->Ok_0, advance_n(lex(s)->Ok_0, i, n)) == end_token(),
        lex(s)->Ok_0.len() - 1 <= advance_n(lex(s)->Ok_0, i, n),
    decreases n,
{
    lemma_lex_shape(s, 0);
    if n > 0 {
        lemma_end_is_sticky(s, i, (n - 1) as nat);
    }
}

/// The token under a cursor: past the end there is always `End`.
pub open spec fn token_at(ts: Seq<Token>, i: int) -> Token {
    if 0 <= i < ts.len() {
        ts[i]
    } else {
        end_token()
    }
}

/// The cursor after taking a token: it stays put past the end.
pub open spec fn advance(ts: Seq<Token>, i: int) -> int {
    if i < ts.len() {
        i + 1
    } else {
        i
    }
}

pub struct Scanner {
    expr: Vec<char>,
    cursor: usize,
    tokens: Vec<Token>,
    iter_index: usize,
}

impl Scanner {
    /// The text being scanned.
    pub closed spec fn text(&self) -> Seq<char> {
        self.expr@
    }

    /// Where scanning of the text stands.
    pub closed spec fn scan_pos(&self) -> int {
        self.cursor as int
    }

    /// The tokens produced so far.
    pub closed spec fn tokens(&self) -> Seq<Token> {
        self.tokens@
    }

    /// The read cursor over the tokens.
    pub closed spec fn index(&self) -> int {
        self.iter_index as int
    }

    pub closed spec fn wf(&self) -> bool {
        &&& self.cursor <= self.expr.len()
        &&& self.iter_index <= self.tokens.len()
    }

    pub proof fn lemma_bounds(&self)
        requires
            self.wf(),
        ensures
            0 <= self.index() <= self.tokens().len(),
            0 <= self.scan_pos() <= self.text().len(),
            self.text().len() <= usize::MAX,
    {
    }

    pub fn new(expr: &String) -> (r: Self)
        ensures
            r.wf(),
            r.text() == expr@,
            r.scan_pos() == 0,
            r.tokens() == Seq::<Token>::empty(),
            r.index() == 0,
    {
        Scanner { expr: chars_of(expr.as_str()), cursor: 0, tokens: Vec::new(), iter_index: 0 }
    }

    pub fn get_tokens(&self) -> (r: Vec<Token>)
        ensures
            r@ == self.tokens(),
    {
        self.tokens.clone()
    }

    /// The characters `start..end` of the scanned text.
    pub fn lexeme(&self, start: usize, end: usize) -> (r: String)
        requires
            start <= end <= self.text().len(),
        ensures
            r@ == self.text().subrange(start as int, end as int),
    {
        let part = sub_chars(&self.expr, start, end);
        string_of(part.as_slice())
    }

    /// Takes the token under the read cursor; past the end, `End` comes
    /// back and the cursor stays.
    pub fn next(&mut self) -> (r: Token)
        requires
            old(self).wf(),
        ensures
            final(self).wf(),
            r == token_at(old(self).tokens(), old(self).index()),
            final(self).index() == advance(old(self).tokens(), old(self).index()),
            final(self).tokens() == old(self).tokens(),
            final(self).text() == old(self).text(),
            final(self).scan_pos() == old(self).scan_pos(),
    {
        if self.iter_index >= self.tokens.len() {
            Token::new(TokenType::End, 0)
        } else {
            self.iter_index += 1;
            self.tokens[self.iter_index - 1]
        }
    }

    /// The token under the read cursor, which stays.
    pub fn peek(&self) -> (r: Token)
        requires
            self.wf(),
        ensures
            r == token_at(self.tokens(), self.index()),
    {
        if self.iter_index >= self.tokens.len() {
            Token::new(TokenType::End, 0)
        } else {
            self.tokens[self.iter_index]
        }
    }

    /// Scans the rest of the text, appending its tokens and the closing
    /// `End`; stops at the first malformed numeric literal.
    pub fn scan(&mut self) -> (r: Result<(), ScanError>)
        requires
            old(self).wf(),
        ensures
            final(self).wf(),
            final(self).text() == old(self).text(),
            final(self).index() == old(self).index(),
            match lex_from(old(self).text(), old(self).scan_pos()) {
                Ok(ts) => r is Ok && final(self).tokens() == old(self).tokens() + ts,
                Err(e) => r == Err::<(), ScanError>(e),
            },
            r is Ok && tokens_fit(old(self).tokens(), old(self).text().len() as int) ==> tokens_fit(
                final(self).tokens(),
                final(self).text().len() as int,
            ),
    {
        let ghost start = self.cursor as int;
        loop
            invariant_except_break
                start == old(self).scan_pos(),
                self.wf(),
                self.text() == old(self).text(),
                self.index() == old(self).index(),
                old(self).tokens().len() <= self.tokens().len(),
                self.tokens().take(old(self).tokens().len() as int) == old(self).tokens(),
                lex_from(self.text(), start) == prefixed(
                    self.tokens().skip(old(self).tokens().len() as int),
                    lex_from(self.text(), self.cursor as int),
                ),
            ensures
                start == old(self).scan_pos(),
                self.wf(),
                self.text() == old(self).text(),
                self.index() == old(self).index(),
                old(self).tokens().len() <= self.tokens().len(),
                self.tokens().take(old(self).tokens().len() as int) == old(self).tokens(),
                lex_from(self.text(), start) == Ok::<Seq<Token>, ScanError>(
                    self.tokens().skip(old(self).tokens().len() as int),
                ),
            decreases self.expr.len() - self.cursor,
        {
            let ghost before = self.tokens();
            let ghost at = self.cursor as int;
            let token = match self.get_next_token() {
                Ok(t) => t,
                Err(e) => {
                    assert(lex_from(self.text(), at) == Err::<Seq<Token>, ScanError>(e));
                    assert(lex_from(self.text(), start) == Err::<Seq<Token>, ScanError>(e));
                    return Err(e);
                },
            };
            let ghost n0 = old(self).tokens().len() as int;
            if token.t == TokenType::End {
                self.tokens.push(Token::new(TokenType::End, 0));
                assert(self.tokens().skip(n0) =~= before.skip(n0) + seq![end_token()]);
                assert(self.tokens().take(n0) =~= before.take(n0));
                assert(lex_from(self.text(), at) == Ok::<Seq<Token>, ScanError>(seq![end_token()]));
                break;
            } else if token.t != TokenType::Nothing {
                self.tokens.push(token);
                proof {
                    assert(self.tokens().skip(n0) =~= before.skip(n0).push(token));
                    assert(self.tokens().take(n0) =~= before.take(n0));
                    assert(before.skip(n0) + seq![token] =~= self.tokens().skip(n0));
                    lemma_prefixed_assoc(
                        before.skip(n0),
                        seq![token],
                        lex_from(self.text(), self.scan_pos()),
                    );
                }
            }
        }
        proof {
            let n0 = old(self).tokens().len() as int;
            assert(old(self).tokens() + self.tokens().skip(n0) =~= self.tokens());
            lemma_lex_fits(self.text(), start);
            let ts = self.tokens();
            let n = self.text().len() as int;
            if tokens_fit(old(self).tokens(), n) {
                assert forall|k: int| 0 <= k < ts.len() implies token_fits(#[trigger] ts[k], n) by {
                    if k < n0 {
                        assert(ts[k] == old(self).tokens()[k]);
                    } else {
                        assert(ts[k] == ts.skip(n0)[k - n0]);
                    }
                }
            }
        }
        Ok(())
    }

    /// Scans one token at the scanning position. At the end of the text it
    /// is `End`, and the position stays.
    fn get_next_token(&mut self) -> (r: Result<Token, ScanError>)
        requires
            old(self).wf(),
        ensures
            final(self).wf(),
            final(self).text() == old(self).text(),
            final(self).tokens() == old(self).tokens(),
            final(self).index() == old(self).index(),
            old(self).scan_pos() >= old(self).text().len() ==> r == Ok::<Token, ScanError>(end_token())
                && final(self).scan_pos() == old(self).scan_pos(),
            old(self).scan_pos() < old(self).text().len() ==> (r, final(self).scan_pos()) == step(
                old(self).text(),
                old(self).scan_pos(),
            ),
    {
        if self.cursor >= self.expr.len() {
            return Ok(Token::new(TokenType::End, 0));
        }
        let index = self.cursor;
        let c = self.expr[index];
        self.cursor = index + 1;
        let token_type = match c {
            '+' => TokenType::Plus,
            '-' => TokenType::Minus,
            '/' => TokenType::Division,
            '%' => TokenType::Modulo,
            '^' => TokenType::Power,
            '!' => TokenType::Factorial,
            ',' => TokenType::Comma,
            '(' => TokenType::Lparen,
            ')' => TokenType::Rparen,
            '[' => TokenType::Lparen,
            ']' => TokenType::Rparen,
            '=' => TokenType::Equals,
            '|' => TokenType::Bar,
            '*' => {
                if self.cursor < self.expr.len() && self.expr[self.cursor] == '*' {
                    self.cursor = self.cursor + 1;
                    TokenType::Power
                } else {
                    TokenType::Multiplication
                }
            },
            _ => {
                if is_numeric(c) || c == '.' {
                    self.take_number(index)?
                } else if is_alphabetic(c) {
                    self.take_str(index)
                } else {
                    TokenType::Nothing
                }
            },
        };
        Ok(Token::new(token_type, index))
    }

    /// Moves the scanning position over the characters that continue a
    /// numeric literal.
    fn skip_number_chars(&mut self)
        requires
            old(self).wf(),
        ensures
            final(self).wf(),
            final(self).text() == old(self).text(),
            final(self).tokens() == old(self).tokens(),
            final(self).index() == old(self).index(),
            final(self).scan_pos() == old(self).scan_pos() + number_len(old(self).text(), old(self).scan_pos()),
        decreases old(self).expr.len() - old(self).cursor,
    {
        if self.cursor < self.expr.len() {
            let c = self.expr[self.cursor];
            if is_numeric(c) || c == '.' || c == 'E' {
                self.cursor = self.cursor + 1;
                self.skip_number_chars();
            }
        }
    }

    /// Moves the scanning position over the characters that continue an
    /// identifier.
    fn skip_word_chars(&mut self)
        requires
            old(self).wf(),
        ensures
            final(self).wf(),
            final(self).text() == old(self).text(),
            final(self).tokens() == old(self).tokens(),
            final(self).index() == old(self).index(),
            final(self).scan_pos() == old(self).scan_pos() + word_len(old(self).text(), old(self).scan_pos()),
        decreases old(self).expr.len() - old(self).cursor,
    {
        if self.cursor < self.expr.len() {
            let c = self.expr[self.cursor];
            if is_alphabetic(c) {
                self.cursor = self.cursor + 1;
                self.skip_word_chars();
            }
        }
    }

    /// Takes the rest of a numeric literal whose first character is at
    /// `index`, and checks that it reads as a number.
    fn take_number(&mut self, index: usize) -> (r: Result<TokenType, ScanError>)
        requires
            old(self).wf(),
            old(self).scan_pos() == index + 1,
            index < old(self).text().len(),
        ensures
            final(self).wf(),
            final(self).text() == old(self).text(),
            final(self).tokens() == old(self).tokens(),
            final(self).index() == old(self).index(),
            final(self).scan_pos() == index + 1 + number_len(old(self).text(), index + 1),
            r == (if float_literal(old(self).text().subrange(index as int, final(self).scan_pos())) {
                Ok::<TokenType, ScanError>(TokenType::Number { start: index, end: final(self).scan_pos() as usize })
            } else {
                Err(ScanError::MalformedNumber { start: index, end: final(self).scan_pos() as usize })
            }),
    {
        self.skip_number_chars();
        let end = self.cursor;
        if is_float_literal(&self.expr, index, end) {
            Ok(TokenType::Number { start: index, end })
        } else {
            Err(ScanError::MalformedNumber { start: index, end })
        }
    }

    /// Takes the rest of an identifier whose first character is at `index`.
    fn take_str(&mut self, index: usize) -> (r: TokenType)
        requires
            old(self).wf(),
            old(self).scan_pos() == index + 1,
            index < old(self).text().len(),
        ensures
            final(self).wf(),
            final(self).text() == old(self).text(),
            final(self).tokens() == old(self).tokens(),
            final(self).index() == old(self).index(),
            final(self).scan_pos() == index + 1 + word_len(old(self).text(), index + 1),
            r == (TokenType::Str { start: index, end: final(self).scan_pos() as usize }),
    {
        self.skip_word_chars();
        TokenType::Str { start: index, end: self.cursor }
    }
}

/// Whether the characters `a..b` of `s` are all ASCII digits.
fn digits_between(s: &Vec<char>, a: usize, b: usize) -> (r: bool)
    requires
        a <= b <= s@.len(),
    ensures
        r == all_digits(s@.subrange(a as int, b as int)),
{
    let mut i: usize = a;
    while i < b
        invariant
            a <= i <= b <= s@.len(),
            forall|k: int| a <= k < i ==> is_ascii_digit(#[trigger] s@[k]),
        decreases b - i,
    {
        if !('0' <= s[i] && s[i] <= '9') {
            assert(s@.subrange(a as int, b as int)[i - a] == s@[i as int]);
            return false;
        }
        i = i + 1;
    }
    assert forall|k: int| 0 <= k < b - a implies is_ascii_digit(#[trigger] s@.subrange(a as int, b as int)[k]) by {
        assert(s@.subrange(a as int, b as int)[k] == s@[a + k]);
    }
    true
}

/// The first position in `a..b` that holds `c`, or `b`.
fn find_char(s: &Vec<char>, a: usize, b: usize, c: char) -> (r: usize)
    requires
        a <= b <= s@.len(),
    ensures
        a <= r <= b,
        r < b ==> s@[r as int] == c,
        forall|k: int| a <= k < r ==> s@[k] != c,
{
    let mut i: usize = a;
    while i < b
        invariant
            a <= i <= b <= s@.len(),
            forall|k: int| a <= k < i ==> s@[k] != c,
        decreases b - i,
    {
        if s[i] == c {
            return i;
        }
        i = i + 1;
    }
    i
}

proof fn lemma_digits_split(m: Seq<char>, k: int)
    requires
        0 <= k <= m.len(),
    ensures
        all_digits(m) <==> all_digits(m.take(k)) && all_digits(m.skip(k)),
{
    if all_digits(m.take(k)) && all_digits(m.skip(k)) {
        assert forall|i: int| 0 <= i < m.len() implies is_ascii_digit(#[trigger] m[i]) by {
            if i < k {
                assert(m.take(k)[i] == m[i]);
            } else {
                assert(m.skip(k)[i - k] == m[i]);
            }
        }
    }
    if all_digits(m) {
        assert forall|i: int| 0 <= i < k implies is_ascii_digit(#[trigger] m.take(k)[i]) by {
            assert(m.take(k)[i] == m[i]);
        }
        assert forall|i: int| 0 <= i < m.len() - k implies is_ascii_digit(#[trigger] m.skip(k)[i]) by {
            assert(m.skip(k)[i] == m[i + k]);
        }
    }
}

/// A decimal literal holds no `E`.
proof fn lemma_decimal_no_e(m: Seq<char>)
    requires
        decimal_literal(m),
    ensures
        forall|i: int| 0 <= i < m.len() ==> m[i] != 'E',
{
    if !(all_digits(m) && m.len() > 0) {
        let k = choose|k: int|
            0 <= k < m.len() && #[trigger] m[k] == '.' && all_digits(m.take(k)) && all_digits(
                m.skip(k + 1),
            ) && m.len() > 1;
        assert forall|i: int| 0 <= i < m.len() implies m[i] != 'E' by {
            if i < k {
                assert(m.take(k)[i] == m[i]);
                assert(is_ascii_digit(m.take(k)[i]));
            } else if i > k {
                assert(m.skip(k + 1)[i - k - 1] == m[i]);
                assert(is_ascii_digit(m.skip(k + 1)[i - k - 1]));
            }
        }
    } else {
        assert forall|i: int| 0 <= i < m.len() implies m[i] != 'E' by {
            assert(is_ascii_digit(m[i]));
        }
    }
}

/// Whether the characters `a..b` of `s` form a decimal literal.
fn is_decimal_literal(s: &Vec<char>, a: usize, b: usize) -> (r: bool)
    requires
        a <= b <= s@.len(),
    ensures
        r == decimal_literal(s@.subrange(a as int, b as int)),
{
    let ghost m = s@.subrange(a as int, b as int);
    let d = find_char(s, a, b, '.');
    if d == b {
        let r = b > a && digits_between(s, a, b);
        proof {
            assert forall|k: int| 0 <= k < m.len() implies #[trigger] m[k] != '.' by {
                assert(m[k] == s@[a + k]);
            }
        }
        r
    } else {
        let ok = b - a > 1 && digits_between(s, a, d) && digits_between(s, d + 1, b);
        proof {
            let k0 = d - a;
            assert(m[k0] == s@[d as int]);
            assert(m.take(k0) =~= s@.subrange(a as int, d as int));
            assert(m.skip(k0 + 1) =~= s@.subrange(d + 1, b as int));
            assert(!is_ascii_digit(m[k0]));
            if ok {
                assert(decimal_literal(m));
            }
            if decimal_literal(m) {
                if !ok {
                    let k = choose|k: int|
                        0 <= k < m.len() && #[trigger] m[k] == '.' && all_digits(m.take(k)) && all_digits(
                            m.skip(k + 1),
                        ) && m.len() > 1;
                    if k < k0 {
                        assert(m[k] == s@[a + k]);
                    } else if k > k0 {
                        assert(m.take(k)[k0] == m[k0]);
                        assert(!is_ascii_digit(m.take(k)[k0]));
                    }
                }
            }
        }
        ok
    }
}

/// Whether the characters `a..b` of `s` read as a floating-point number.
fn is_float_literal(s: &Vec<char>, a: usize, b: usize) -> (r: bool)
    requires
        a <= b <= s@.len(),
    ensures
        r == float_literal(s@.subrange(a as int, b as int)),
{
    let ghost m = s@.subrange(a as int, b as int);
    let e = find_char(s, a, b, 'E');
    let mantissa = is_decimal_literal(s, a, e);
    if e == b {
        proof {
            assert(m =~= s@.subrange(a as int, e as int));
            if float_literal(m) && !decimal_literal(m) {
                let k = choose|k: int|
                    0 <= k < m.len() - 1 && #[trigger] m[k] == 'E' && decimal_literal(m.take(k)) && all_digits(
                        m.skip(k + 1),
                    );
                assert(m[k] == s@[a + k]);
            }
        }
        mantissa
    } else {
        let r = mantissa && e + 1 < b && digits_between(s, e + 1, b);
        proof {
            let k0 = e - a;
            assert(m[k0] == s@[e as int]);
            assert(m.take(k0) =~= s@.subrange(a as int, e as int));
            assert(m.skip(k0 + 1) =~= s@.subrange(e + 1, b as int));
            if decimal_literal(m) {
                lemma_decimal_no_e(m);
            }
            if float_literal(m) && !r {
                let k = choose|k: int|
                    0 <= k < m.len() - 1 && #[trigger] m[k] == 'E' && decimal_literal(m.take(k)) && all_digits(
                        m.skip(k + 1),
                    );
                if k < k0 {
                    assert(m[k] == s@[a + k]);
                } else if k > k0 {
                    lemma_decimal_no_e(m.take(k));
                    assert(m.take(k)[k0] == m[k0]);
                }
            }
        }
        r
    }
}

proof fn lemma_prefixed_assoc(a: Seq<Token>, b: Seq<Token>, r: Result<Seq<Token>, ScanError>)
    ensures
        prefixed(a, prefixed(b, r)) == prefixed(a + b, r),
{
    if let Ok(ts) = r {
        assert(a + (b + ts) =~= (a + b) + ts);
    }
}

} // verus!

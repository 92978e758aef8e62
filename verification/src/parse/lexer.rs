//! Lexer: turns source text like `sin(x*y) + x^2` into a `Token` stream.
//!
//! A number token keeps the digits and points it was written with; its value
//! is only taken when the expression is lowered into a graph.

use vstd::prelude::*;
use crate::error::EngineError;
use crate::parse::text::{
    alphanumeric, ascii_digit, chars_of, is_alphabetic, is_alphanumeric, is_ascii_digit,
    is_whitespace, push_char, text, alphabetic, white_space, debug_str, debug_string, ascii,
};

verus! {

/// A single lexical token.
#[derive(Debug, Clone, PartialEq)]
pub enum Token {
    Ident(String),
    /// The characters of a decimal literal, e.g. `3.14`.
    Number(String),
    Plus,
    Minus,
    Star,
    Slash,
    Caret,
    LParen,
    RParen,
    Comma,
    Eof,
}

/// The model of a [`Token`].
pub enum Tok {
    Ident(Seq<char>),
    Number(Seq<char>),
    Plus,
    Minus,
    Star,
    Slash,
    Caret,
    LParen,
    RParen,
    Comma,
    Eof,
}

impl View for Token {
    type V = Tok;

    open spec fn view(&self) -> Tok {
        match self {
            Token::Ident(s) => Tok::Ident(s@),
            Token::Number(s) => Tok::Number(s@),
            Token::Plus => Tok::Plus,
            Token::Minus => Tok::Minus,
            Token::Star => Tok::Star,
            Token::Slash => Tok::Slash,
            Token::Caret => Tok::Caret,
            Token::LParen => Tok::LParen,
            Token::RParen => Tok::RParen,
            Token::Comma => Tok::Comma,
            Token::Eof => Tok::Eof,
        }
    }
}

pub open spec fn toks_of(v: Seq<Token>) -> Seq<Tok> {
    v.map_values(|t: Token| t@)
}

impl Token {
    /// A copy of this token with the same model.
    pub fn duplicate(&self) -> (r: Token)
        ensures
            r@ == self@,
    {
        match self {
            Token::Ident(s) => Token::Ident(s.clone()),
            Token::Number(s) => Token::Number(s.clone()),
            Token::Plus => Token::Plus,
            Token::Minus => Token::Minus,
            Token::Star => Token::Star,
            Token::Slash => Token::Slash,
            Token::Caret => Token::Caret,
            Token::LParen => Token::LParen,
            Token::RParen => Token::RParen,
            Token::Comma => Token::Comma,
            Token::Eof => Token::Eof,
        }
    }

    /// Whether two tokens have the same model.
    pub fn same_as(&self, other: &Token) -> (b: bool)
        ensures
            b == (self@ == other@),
    {
        match self {
            Token::Ident(a) => match other {
                Token::Ident(b) => a.eq(b),
                _ => false,
            },
            Token::Number(a) => match other {
                Token::Number(b) => a.eq(b),
                _ => false,
            },
            Token::Plus => matches!(other, Token::Plus),
            Token::Minus => matches!(other, Token::Minus),
            Token::Star => matches!(other, Token::Star),
            Token::Slash => matches!(other, Token::Slash),
            Token::Caret => matches!(other, Token::Caret),
            Token::LParen => matches!(other, Token::LParen),
            Token::RParen => matches!(other, Token::RParen),
            Token::Comma => matches!(other, Token::Comma),
            Token::Eof => matches!(other, Token::Eof),
        }
    }

    /// How the token reads in an error message, in the form of Rust's
    /// `Debug`, e.g. `Ident("x")`, `Number(2.0)` or `RParen`; `spell` gives
    /// the spelling of a number literal's value.
    pub fn describe<S: Fn(&String) -> String>(&self, spell: &S) -> (r: String)
        requires
            forall|x: &String| spell.requires((x,)),
        ensures
            tok_shown(*spell, self@, r@),
    {
        match self {
            Token::Ident(s) => {
                let mut r = text("Ident(");
                r.append(debug_string(s).as_str());
                push_char(&mut r, ')');
                proof {
                    reveal_strlit(")");
                    assert(r@ =~= "Ident("@ + debug_str(s@) + ")"@);
                    assert(tok_shown(*spell, self@, r@));
                }
                r
            },
            Token::Number(s) => {
                let d = spell(s);
                let mut r = text("Number(");
                r.append(d.as_str());
                push_char(&mut r, ')');
                proof {
                    assert(call_ensures(*spell, (s,), d));
                    assert(spells(*spell, s@, d@));
                    reveal_strlit(")");
                    assert(r@ =~= "Number("@ + d@ + ")"@);
                    assert(self@ == Tok::Number(s@));
                    assert(spells(*spell, s@, d@) && r@ == "Number("@ + d@ + ")"@);
                    assert(exists|e: Seq<char>| #[trigger] spells(*spell, s@, e) && r@ == "Number("@ + e + ")"@);
                    let ghost t = Tok::Number(s@);
                    assert(t is Number && t->Number_0 == s@);
                    assert(tok_shown(*spell, self@, r@));
                }
                r
            },
            Token::Plus => text("Plus"),
            Token::Minus => text("Minus"),
            Token::Star => text("Star"),
            Token::Slash => text("Slash"),
            Token::Caret => text("Caret"),
            Token::LParen => text("LParen"),
            Token::RParen => text("RParen"),
            Token::Comma => text("Comma"),
            Token::Eof => text("Eof"),
        }
    }

    pub fn is_caret(&self) -> (b: bool)
        ensures
            b == (self@ is Caret),
    {
        matches!(self, Token::Caret)
    }

    pub fn is_eof(&self) -> (b: bool)
        ensures
            b == (self@ is Eof),
    {
        matches!(self, Token::Eof)
    }
}

/// `shown` is a spelling `spell` may give of the value of the literal `s`.
pub open spec fn spells<S: Fn(&String) -> String>(spell: S, s: Seq<char>, shown: Seq<char>) -> bool {
    exists|x: String, r: String| x@ == s && r@ == shown && #[trigger] call_ensures(spell, (&x,), r)
}

/// `r` is how the token `t` reads in an error message: Rust's `Debug` form,
/// a number literal by a spelling `spell` may give of its value.
pub open spec fn tok_shown<S: Fn(&String) -> String>(spell: S, t: Tok, r: Seq<char>) -> bool {
    match t {
        Tok::Number(s) => exists|d: Seq<char>| #[trigger] spells(spell, s, d) && r == "Number("@ + d + ")"@,
        _ => r == tok_text(t),
    }
}

/// The text of a token other than a number literal in an error message,
/// Rust's `Debug` form.
pub open spec fn tok_text(t: Tok) -> Seq<char> {
    match t {
        Tok::Ident(s) => "Ident("@ + debug_str(s) + ")"@,
        Tok::Number(_) => "Number"@,
        Tok::Plus => "Plus"@,
        Tok::Minus => "Minus"@,
        Tok::Star => "Star"@,
        Tok::Slash => "Slash"@,
        Tok::Caret => "Caret"@,
        Tok::LParen => "LParen"@,
        Tok::RParen => "RParen"@,
        Tok::Comma => "Comma"@,
        Tok::Eof => "Eof"@,
    }
}

/// A character that may continue a numeric run: a digit or a decimal point.
pub open spec fn number_char(c: char) -> bool {
    ascii_digit(c) || c == '.'
}

/// The number of decimal points in `s`.
pub open spec fn count_points(s: Seq<char>) -> nat
    decreases s.len(),
{
    if s.len() == 0 {
        0
    } else {
        count_points(s.drop_last()) + if s.last() == '.' { 1nat } else { 0nat }
    }
}

/// A run of digits and points is a decimal number (as `f64`'s parser reads it)
/// exactly when it has at most one point and at least one digit.
pub open spec fn valid_number(run: Seq<char>) -> bool {
    count_points(run) <= 1 && count_points(run) < run.len()
}

/// The first position at or after `p` that is not white space.
pub open spec fn skip_space(s: Seq<char>, p: int) -> int
    decreases s.len() - p,
{
    if 0 <= p < s.len() && white_space(s[p]) {
        skip_space(s, p + 1)
    } else {
        p
    }
}

/// The end of the run of alphanumeric characters starting at `p`.
pub open spec fn ident_end(s: Seq<char>, p: int) -> int
    decreases s.len() - p,
{
    if 0 <= p < s.len() && alphanumeric(s[p]) {
        ident_end(s, p + 1)
    } else {
        p
    }
}

/// The end of the run of digits and points starting at `p`.
pub open spec fn number_end(s: Seq<char>, p: int) -> int
    decreases s.len() - p,
{
    if 0 <= p < s.len() && number_char(s[p]) {
        number_end(s, p + 1)
    } else {
        p
    }
}

/// Why lexing stopped.
pub enum LexFail {
    /// A character that cannot start any token.
    Char(char),
    /// A numeric run that is not a decimal number.
    Number(Seq<char>),
}

/// The token that starts at or after `p` (white space skipped), with the
/// position just past it; on failure, what failed and the position just past
/// what was consumed.
pub open spec fn next_tok(s: Seq<char>, p: int) -> Result<(Tok, int), (LexFail, int)> {
    let q = skip_space(s, p);
    if q >= s.len() {
        Ok((Tok::Eof, q))
    } else {
        let c = s[q];
        if alphabetic(c) {
            let e = ident_end(s, q);
            Ok((Tok::Ident(s.subrange(q, e)), e))
        } else if number_char(c) {
            let e = number_end(s, q);
            let run = s.subrange(q, e);
            if valid_number(run) {
                Ok((Tok::Number(run), e))
            } else {
                Err((LexFail::Number(run), e))
            }
        } else if c == '+' {
            Ok((Tok::Plus, q + 1))
        } else if c == '-' {
            Ok((Tok::Minus, q + 1))
        } else if c == '*' {
            Ok((Tok::Star, q + 1))
        } else if c == '/' {
            Ok((Tok::Slash, q + 1))
        } else if c == '^' {
            Ok((Tok::Caret, q + 1))
        } else if c == '(' {
            Ok((Tok::LParen, q + 1))
        } else if c == ')' {
            Ok((Tok::RParen, q + 1))
        } else if c == ',' {
            Ok((Tok::Comma, q + 1))
        } else {
            Err((LexFail::Char(c), q + 1))
        }
    }
}

/// The whole token stream from position `p`, ending with `Eof`, or the first
/// failure.
pub open spec fn lex_from(s: Seq<char>, p: int) -> Result<Seq<Tok>, LexFail>
    decreases s.len() - p,
{
    match next_tok(s, p) {
        Err((f, _)) => Err(f),
        Ok((t, e)) => {
            if t is Eof {
                Ok(seq![Tok::Eof])
            } else if p < e <= s.len() {
                match lex_from(s, e) {
                    Ok(rest) => Ok(seq![t] + rest),
                    Err(f) => Err(f),
                }
            } else {
                Err(LexFail::Char(' '))
            }
        },
    }
}

/// The token stream of a whole source text.
pub open spec fn lex_spec(s: Seq<char>) -> Result<Seq<Tok>, LexFail> {
    lex_from(s, 0)
}

/// `e` is the engine error that reports the lexing failure `f`.
pub open spec fn reports(e: EngineError, f: LexFail) -> bool {
    match (e, f) {
        (EngineError::UnexpectedChar(c), LexFail::Char(d)) => c == d,
        (EngineError::InvalidNumber(s), LexFail::Number(run)) => s@ == run,
        _ => false,
    }
}

proof fn lemma_skip_space_bounds(s: Seq<char>, p: int)
    requires
        0 <= p <= s.len(),
    ensures
        p <= skip_space(s, p) <= s.len(),
        forall|k: int| p <= k < skip_space(s, p) ==> white_space(#[trigger] s[k]),
    decreases s.len() - p,
{
    if p < s.len() && white_space(s[p]) {
        lemma_skip_space_bounds(s, p + 1);
    }
}

proof fn lemma_ident_end_bounds(s: Seq<char>, p: int)
    requires
        0 <= p <= s.len(),
    ensures
        p <= ident_end(s, p) <= s.len(),
    decreases s.len() - p,
{
    if p < s.len() && alphanumeric(s[p]) {
        lemma_ident_end_bounds(s, p + 1);
    }
}

proof fn lemma_number_end_bounds(s: Seq<char>, p: int)
    requires
        0 <= p <= s.len(),
    ensures
        p <= number_end(s, p) <= s.len(),
    decreases s.len() - p,
{
    if p < s.len() && number_char(s[p]) {
        lemma_number_end_bounds(s, p + 1);
    }
}

/// A token other than `Eof` always consumes at least one character.
proof fn lemma_next_tok_progress(s: Seq<char>, p: int)
    requires
        0 <= p <= s.len(),
    ensures
        next_tok(s, p) matches Ok((t, e)) ==> (p <= e <= s.len() && (!(t is Eof) ==> p < e)),
        next_tok(s, p) matches Err((_, e)) ==> p < e <= s.len(),
{
    lemma_skip_space_bounds(s, p);
    let q = skip_space(s, p);
    if q < s.len() {
        lemma_ident_end_bounds(s, q + 1);
        lemma_number_end_bounds(s, q + 1);
    }
}

/// An ASCII white-space character.
pub open spec fn ascii_space(c: char) -> bool {
    ascii(c) && white_space(c)
}

/// `s` and `t` are one text up to which ASCII white-space character stands
/// at each place.
pub open spec fn same_up_to_space(s: Seq<char>, t: Seq<char>) -> bool {
    &&& s.len() == t.len()
    &&& forall|k: int| 0 <= k < s.len() ==> s[k] == t[k] || (ascii_space(s[k]) && ascii_space(t[k]))
}

/// ASCII white space is part of no token.
proof fn lemma_space_in_no_token(c: char)
    requires
        ascii_space(c),
    ensures
        !alphabetic(c),
        !alphanumeric(c),
        !number_char(c),
{
}

proof fn lemma_skip_stops(s: Seq<char>, p: int)
    requires
        0 <= p <= s.len(),
    ensures
        skip_space(s, p) < s.len() ==> !white_space(s[skip_space(s, p)]),
    decreases s.len() - p,
{
    if p < s.len() && white_space(s[p]) {
        lemma_skip_stops(s, p + 1);
    }
}

proof fn lemma_skip_alike(s: Seq<char>, t: Seq<char>, p: int)
    requires
        same_up_to_space(s, t),
        0 <= p <= s.len(),
    ensures
        skip_space(s, p) == skip_space(t, p),
    decreases s.len() - p,
{
    if p < s.len() {
        if s[p] != t[p] {
            assert(ascii_space(s[p]) && ascii_space(t[p]));
        }
        if white_space(s[p]) {
            lemma_skip_alike(s, t, p + 1);
        }
    }
}

proof fn lemma_ident_alike(s: Seq<char>, t: Seq<char>, p: int)
    requires
        same_up_to_space(s, t),
        0 <= p <= s.len(),
    ensures
        ident_end(s, p) == ident_end(t, p),
        forall|k: int| p <= k < ident_end(s, p) ==> #[trigger] s[k] == t[k],
    decreases s.len() - p,
{
    if p < s.len() {
        if s[p] != t[p] {
            lemma_space_in_no_token(s[p]);
            lemma_space_in_no_token(t[p]);
        }
        if alphanumeric(s[p]) {
            lemma_ident_alike(s, t, p + 1);
        }
    }
}

proof fn lemma_number_alike(s: Seq<char>, t: Seq<char>, p: int)
    requires
        same_up_to_space(s, t),
        0 <= p <= s.len(),
    ensures
        number_end(s, p) == number_end(t, p),
        forall|k: int| p <= k < number_end(s, p) ==> #[trigger] s[k] == t[k],
    decreases s.len() - p,
{
    if p < s.len() {
        if s[p] != t[p] {
            lemma_space_in_no_token(s[p]);
            lemma_space_in_no_token(t[p]);
        }
        if number_char(s[p]) {
            lemma_number_alike(s, t, p + 1);
        }
    }
}

proof fn lemma_next_tok_alike(s: Seq<char>, t: Seq<char>, p: int)
    requires
        same_up_to_space(s, t),
        0 <= p <= s.len(),
    ensures
        next_tok(s, p) == next_tok(t, p),
{
    lemma_skip_alike(s, t, p);
    lemma_skip_space_bounds(s, p);
    lemma_skip_stops(s, p);
    let q = skip_space(s, p);
    if q < s.len() {
        assert(!white_space(s[q]));
        if s[q] != t[q] {
            assert(ascii_space(s[q]));
        }
        assert(s[q] == t[q]);
        lemma_ident_alike(s, t, q);
        lemma_number_alike(s, t, q);
        lemma_ident_end_bounds(s, q);
        lemma_number_end_bounds(s, q);
        assert(s.subrange(q, ident_end(s, q)) =~= t.subrange(q, ident_end(t, q)));
        assert(s.subrange(q, number_end(s, q)) =~= t.subrange(q, number_end(t, q)));
    }
}

proof fn lemma_lex_alike(s: Seq<char>, t: Seq<char>, p: int)
    requires
        same_up_to_space(s, t),
        0 <= p <= s.len(),
    ensures
        lex_from(s, p) == lex_from(t, p),
    decreases s.len() - p,
{
    lemma_next_tok_alike(s, t, p);
    lemma_next_tok_progress(s, p);
    if let Ok((tk, e)) = next_tok(s, p) {
        if !(tk is Eof) && p < e <= s.len() {
            lemma_lex_alike(s, t, e);
        }
    }
}

/// A tab, line feed, vertical tab, form feed or carriage return separates
/// tokens exactly as a space does: putting a space in its place, anywhere in a
/// source text, leaves what the text lexes to as it is.
pub proof fn lemma_line_breaks_lex_as_spaces(s: Seq<char>, i: int)
    requires
        0 <= i < s.len(),
        s[i] == '\t' || s[i] == '\n' || s[i] == '\u{b}' || s[i] == '\u{c}' || s[i] == '\r',
    ensures
        lex_spec(s) == lex_spec(s.update(i, ' ')),
{
    let t = s.update(i, ' ');
    assert(ascii_space(s[i]));
    assert(ascii_space(' '));
    assert(same_up_to_space(s, t));
    lemma_lex_alike(s, t, 0);
}

/// Every Unicode `White_Space` character is skipped before a token: tab,
/// line feed, vertical tab, form feed, carriage return, space, next line,
/// no-break space, ogham space mark, U+2000 to U+200A, the line and
/// paragraph separators, narrow no-break space, medium mathematical space and
/// ideographic space. Lexing from such a character gives what lexing from the
/// next one gives.
pub proof fn lemma_white_space_skipped(s: Seq<char>, p: int)
    requires
        0 <= p < s.len(),
        ('\u{9}' <= s[p] && s[p] <= '\u{d}') || s[p] == ' ' || s[p] == '\u{85}' || s[p] == '\u{a0}'
            || s[p] == '\u{1680}' || ('\u{2000}' <= s[p] && s[p] <= '\u{200a}') || s[p] == '\u{2028}'
            || s[p] == '\u{2029}' || s[p] == '\u{202f}' || s[p] == '\u{205f}' || s[p] == '\u{3000}',
    ensures
        next_tok(s, p) == next_tok(s, p + 1),
        lex_from(s, p) == lex_from(s, p + 1),
{
    assert(white_space(s[p]));
    assert(skip_space(s, p) == skip_space(s, p + 1));
    lemma_next_tok_progress(s, p + 1);
    lemma_skip_space_bounds(s, p + 1);
}

pub struct Lexer {
    chars: Vec<char>,
    pos: usize,
}

impl Lexer {
    /// The characters being lexed.
    pub closed spec fn source(&self) -> Seq<char> {
        self.chars@
    }

    /// How many characters have been consumed.
    pub closed spec fn position(&self) -> int {
        self.pos as int
    }

    pub closed spec fn wf(&self) -> bool {
        self.pos <= self.chars@.len()
    }

    pub fn new(source: &str) -> (l: Lexer)
        ensures
            l.source() == source@,
            l.position() == 0,
            l.wf(),
    {
        Lexer { chars: chars_of(source), pos: 0 }
    }

    /// Lex the next token, skipping white space first.
    pub fn next_token(&mut self) -> (r: Result<Token, EngineError>)
        requires
            old(self).wf(),
        ensures
            final(self).wf(),
            final(self).source() == old(self).source(),
            match next_tok(old(self).source(), old(self).position()) {
                Ok((t, e)) => r matches Ok(tok) && tok@ == t && final(self).position() == e,
                Err((f, e)) => r matches Err(err) && reports(err, f) && final(self).position()
                    == e,
            },
    {
        let ghost s = self.chars@;
        proof {
            lemma_skip_space_bounds(s, self.pos as int);
        }
        while self.pos < self.chars.len() && is_whitespace(self.chars[self.pos])
            invariant
                self.chars@ == s,
                old(self).pos <= self.pos <= s.len(),
                skip_space(s, old(self).pos as int) == skip_space(s, self.pos as int),
            decreases s.len() - self.pos,
        {
            self.pos = self.pos + 1;
        }
        if self.pos >= self.chars.len() {
            return Ok(Token::Eof);
        }
        let c = self.chars[self.pos];
        if is_alphabetic(c) {
            Ok(self.read_identifier())
        } else if is_ascii_digit(c) || c == '.' {
            self.read_number()
        } else {
            let tok = if c == '+' {
                Token::Plus
            } else if c == '-' {
                Token::Minus
            } else if c == '*' {
                Token::Star
            } else if c == '/' {
                Token::Slash
            } else if c == '^' {
                Token::Caret
            } else if c == '(' {
                Token::LParen
            } else if c == ')' {
                Token::RParen
            } else if c == ',' {
                Token::Comma
            } else {
                self.pos = self.pos + 1;
                return Err(EngineError::UnexpectedChar(c));
            };
            self.pos = self.pos + 1;
            Ok(tok)
        }
    }

    /// Drive `next_token` to exhaustion. The trailing `Eof` is kept; the first
    /// lexer error ends the stream.
    pub fn tokenize(&mut self) -> (r: Result<Vec<Token>, EngineError>)
        requires
            old(self).wf(),
        ensures
            final(self).source() == old(self).source(),
            match lex_from(old(self).source(), old(self).position()) {
                Ok(ts) => r matches Ok(v) && toks_of(v@) == ts,
                Err(f) => r matches Err(err) && reports(err, f),
            },
    {
        let ghost s = self.chars@;
        let ghost start = self.pos as int;
        let mut result: Vec<Token> = Vec::new();
        loop
            invariant
                self.wf(),
                self.source() == s,
                s == old(self).source(),
                start == old(self).position(),
                start <= self.position() <= s.len(),
                0 <= start <= s.len(),
                forall|ts: Seq<Tok>| #[trigger] lex_from(s, self.position()) == Ok::<Seq<Tok>, LexFail>(ts)
                    ==> lex_from(s, start) == Ok::<Seq<Tok>, LexFail>(toks_of(result@) + ts),
                forall|f: LexFail| #[trigger] lex_from(s, self.position()) == Err::<Seq<Tok>, LexFail>(f)
                    ==> lex_from(s, start) == Err::<Seq<Tok>, LexFail>(f),
            decreases s.len() - self.position(),
        {
            let ghost p = self.position();
            proof {
                lemma_next_tok_progress(s, p);
            }
            let tok = match self.next_token() {
                Ok(t) => t,
                Err(err) => {
                    return Err(err);
                },
            };
            let done = tok.is_eof();
            let ghost t = tok@;
            let ghost prev = result@;
            let ghost e = self.position();
            result.push(tok);
            proof {
                assert(next_tok(s, p) == Ok::<(Tok, int), (LexFail, int)>((t, e)));
                assert(toks_of(result@) =~= toks_of(prev).push(t));
                if !done {
                    assert forall|ts: Seq<Tok>| #[trigger] lex_from(s, e) == Ok::<Seq<Tok>, LexFail>(ts)
                        implies lex_from(s, start) == Ok::<Seq<Tok>, LexFail>(toks_of(result@) + ts) by {
                        assert(lex_from(s, p) == Ok::<Seq<Tok>, LexFail>(seq![t] + ts));
                        assert(toks_of(result@) + ts =~= toks_of(prev) + (seq![t] + ts));
                    }
                    assert forall|f: LexFail| #[trigger] lex_from(s, e) == Err::<Seq<Tok>, LexFail>(f)
                        implies lex_from(s, start) == Err::<Seq<Tok>, LexFail>(f) by {
                        assert(lex_from(s, p) == Err::<Seq<Tok>, LexFail>(f));
                    }
                }
            }
            if done {
                proof {
                    assert(lex_from(s, p) == Ok::<Seq<Tok>, LexFail>(seq![Tok::Eof]));
                    assert(toks_of(result@) =~= toks_of(prev) + seq![Tok::Eof]);
                }
                return Ok(result);
            }
        }
    }

    /// Consume a run of alphanumeric characters into an `Ident`.
    fn read_identifier(&mut self) -> (t: Token)
        requires
            old(self).wf(),
        ensures
            final(self).wf(),
            final(self).source() == old(self).source(),
            final(self).position() == ident_end(old(self).source(), old(self).position()),
            t@ == Tok::Ident(
                old(self).source().subrange(old(self).position(), final(self).position()),
            ),
    {
        let ghost s = self.chars@;
        let ghost start = self.pos as int;
        let mut string: String = String::new();
        while self.pos < self.chars.len() && is_alphanumeric(self.chars[self.pos])
            invariant
                self.chars@ == s,
                0 <= start <= self.pos <= s.len(),
                string@ == s.subrange(start, self.pos as int),
                ident_end(s, start) == ident_end(s, self.pos as int),
            decreases s.len() - self.pos,
        {
            push_char(&mut string, self.chars[self.pos]);
            self.pos = self.pos + 1;
            proof {
                assert(string@ =~= s.subrange(start, self.pos as int));
            }
        }
        Token::Ident(string)
    }

    /// Consume a run of digits and points into a `Number`, rejecting a run that
    /// is not a decimal number.
    fn read_number(&mut self) -> (r: Result<Token, EngineError>)
        requires
            old(self).wf(),
        ensures
            final(self).wf(),
            final(self).source() == old(self).source(),
            final(self).position() == number_end(old(self).source(), old(self).position()),
            ({
                let run = old(self).source().subrange(old(self).position(), final(self).position());
                if valid_number(run) {
                    r matches Ok(t) && t@ == Tok::Number(run)
                } else {
                    r matches Err(EngineError::InvalidNumber(n)) && n@ == run
                }
            }),
    {
        let ghost s = self.chars@;
        let ghost start = self.pos as int;
        let first: usize = self.pos;
        let mut num: String = String::new();
        let mut points: usize = 0;
        while self.pos < self.chars.len() && (is_ascii_digit(self.chars[self.pos])
            || self.chars[self.pos] == '.')
            invariant
                self.chars@ == s,
                0 <= start <= self.pos <= s.len(),
                num@ == s.subrange(start, self.pos as int),
                points == count_points(num@),
                points <= num@.len(),
                first == start,
                number_end(s, start) == number_end(s, self.pos as int),
            decreases s.len() - self.pos,
        {
            let c = self.chars[self.pos];
            let ghost before = num@;
            push_char(&mut num, c);
            if c == '.' {
                points = points + 1;
            }
            self.pos = self.pos + 1;
            proof {
                assert(num@.drop_last() =~= before);
                assert(num@ =~= s.subrange(start, self.pos as int));
            }
        }
        if points <= 1 && points < self.pos - first {
            Ok(Token::Number(num))
        } else {
            Err(EngineError::InvalidNumber(num))
        }
    }
}

} // verus!

//! Tokenization: turning a character sequence into a sequence of lexical
//! tokens, ending in `EndOfInput`.
//!
//! `spec_tokenize` is the mathematical model: it says, for every input and
//! starting position, exactly which token sequence (or which error) comes
//! out. `Lexer::get_tokens` is the executable tokenizer, proved to agree
//! with the model.

use vstd::prelude::*;

verus! {

/// The digit text of one numeric literal, as the tokenizer accumulated it.
///
/// A well-formed literal (see `wf_number_text`) starts with a digit, holds
/// only digits and at most one decimal point, and therefore reads as a
/// floating-point number in the usual way.
#[derive(Debug, PartialEq)]
pub struct NumberLit {
    pub text: Vec<char>,
}

impl View for NumberLit {
    type V = Seq<char>;

    open spec fn view(&self) -> Seq<char> {
        self.text@
    }
}

impl Clone for NumberLit {
    fn clone(&self) -> (r: Self)
        ensures
            r@ == self@,
    {
        let mut text: Vec<char> = Vec::new();
        let mut i: usize = 0;
        while i < self.text.len()
            invariant
                i <= self.text.len(),
                text@ == self.text@.subrange(0, i as int),
            decreases self.text.len() - i,
        {
            text.push(self.text[i]);
            i = i + 1;
            assert(text@ =~= self.text@.subrange(0, i as int));
        }
        assert(text@ =~= self.text@);
        NumberLit { text }
    }
}

/// A lexical token. Bracket styles are interchangeable: each of `( [ {`
/// becomes `LParen` and each of `) ] }` becomes `RParen`.
#[derive(Debug, PartialEq)]
pub enum Token {
    Number(NumberLit),
    Plus,
    Minus,
    Star,
    Slash,
    LParen,
    RParen,
    EndOfInput,
}

/// The mathematical value of a token: a `Number` is its digit text.
pub enum SpecToken {
    Number(Seq<char>),
    Plus,
    Minus,
    Star,
    Slash,
    LParen,
    RParen,
    EndOfInput,
}

impl View for Token {
    type V = SpecToken;

    open spec fn view(&self) -> SpecToken {
        match self {
            Token::Number(lit) => SpecToken::Number(lit@),
            Token::Plus => SpecToken::Plus,
            Token::Minus => SpecToken::Minus,
            Token::Star => SpecToken::Star,
            Token::Slash => SpecToken::Slash,
            Token::LParen => SpecToken::LParen,
            Token::RParen => SpecToken::RParen,
            Token::EndOfInput => SpecToken::EndOfInput,
        }
    }
}

/// The values of a token sequence.
pub open spec fn token_views(ts: Seq<Token>) -> Seq<SpecToken> {
    ts.map_values(|t: Token| t@)
}

/// A tokenization error: either a character outside the recognized
/// vocabulary, or an accumulated numeric text that does not read as a
/// floating-point number.
#[derive(Debug, PartialEq)]
pub enum LexError {
    UnsupportedCharacter(char),
    NumberFormatError(Vec<char>),
}

/// The mathematical value of a tokenization error.
pub enum SpecLexError {
    UnsupportedCharacter(char),
    NumberFormatError(Seq<char>),
}

impl View for LexError {
    type V = SpecLexError;

    open spec fn view(&self) -> SpecLexError {
        match self {
            LexError::UnsupportedCharacter(c) => SpecLexError::UnsupportedCharacter(*c),
            LexError::NumberFormatError(text) => SpecLexError::NumberFormatError(text@),
        }
    }
}

/// Whitespace is skipped between tokens and never emitted.
pub open spec fn is_whitespace_char(c: char) -> bool {
    c == ' ' || c == '\t' || c == '\n'
}

pub open spec fn is_digit_char(c: char) -> bool {
    48 <= c as u32 && c as u32 <= 57
}

/// The characters a numeric run is made of: digits and the decimal point.
pub open spec fn is_number_char(c: char) -> bool {
    c == '.' || is_digit_char(c)
}

/// How many decimal points a text holds.
pub open spec fn dot_count(s: Seq<char>) -> nat
    decreases s.len(),
{
    if s.len() == 0 {
        0
    } else {
        dot_count(s.drop_last()) + (if s.last() == '.' {
            1nat
        } else {
            0nat
        })
    }
}

/// Where the maximal run of digits and dots starting at `pos` ends.
pub open spec fn number_run_end(input: Seq<char>, pos: int) -> int
    decreases input.len() - pos
        when 0 <= pos <= input.len()
{
    if pos < input.len() && is_number_char(input[pos]) {
        number_run_end(input, pos + 1)
    } else {
        pos
    }
}

/// The accumulated text of a numeric run: a run that begins with a decimal
/// point gets a `0` put in front, so `.1415` reads as `0.1415`.
pub open spec fn number_text(raw: Seq<char>) -> Seq<char> {
    if raw.len() > 0 && raw[0] == '.' {
        seq!['0'] + raw
    } else {
        raw
    }
}

/// An accumulated numeric text reads as a floating-point number exactly
/// when it holds at most one decimal point. A second point (as in `2.2.2`)
/// is still accumulated during scanning; it is this check, after the run
/// is complete, that rejects it.
pub open spec fn valid_number_text(s: Seq<char>) -> bool {
    dot_count(s) <= 1
}

/// A number token's text as tokenization produces it: nonempty, it starts
/// with a digit, holds only digits and dots, and holds at most one dot.
pub open spec fn wf_number_text(s: Seq<char>) -> bool {
    &&& s.len() > 0
    &&& is_digit_char(s[0])
    &&& forall|i: int| 0 <= i < s.len() ==> is_number_char(#[trigger] s[i])
    &&& dot_count(s) <= 1
}

pub proof fn lemma_number_run_end_bounds(input: Seq<char>, pos: int)
    requires
        0 <= pos <= input.len(),
    ensures
        pos <= number_run_end(input, pos) <= input.len(),
    decreases input.len() - pos,
{
    if pos < input.len() && is_number_char(input[pos]) {
        lemma_number_run_end_bounds(input, pos + 1);
    }
}

/// Prepends one token to a tokenization outcome, passing an error through.
pub open spec fn prepend_token(
    t: SpecToken,
    rest: Result<Seq<SpecToken>, SpecLexError>,
) -> Result<Seq<SpecToken>, SpecLexError> {
    match rest {
        Ok(ts) => Ok(seq![t] + ts),
        Err(e) => Err(e),
    }
}

/// What tokenizing `input` from position `pos` yields: the token sequence,
/// always ending in `EndOfInput`, or the first error met. Whitespace is
/// skipped; single characters map to their operator or bracket tokens; a
/// maximal run of digits and dots becomes one `Number` if its accumulated
/// text holds at most one dot and a `NumberFormatError` otherwise; any
/// other character is an `UnsupportedCharacter` error.
pub open spec fn spec_tokenize(input: Seq<char>, pos: int) -> Result<Seq<SpecToken>, SpecLexError>
    decreases input.len() - pos
        when 0 <= pos <= input.len()
        via spec_tokenize_decreases
{
    if pos >= input.len() {
        Ok(seq![SpecToken::EndOfInput])
    } else {
        let c = input[pos];
        if is_whitespace_char(c) {
            spec_tokenize(input, pos + 1)
        } else if c == '+' {
            prepend_token(SpecToken::Plus, spec_tokenize(input, pos + 1))
        } else if c == '-' {
            prepend_token(SpecToken::Minus, spec_tokenize(input, pos + 1))
        } else if c == '*' {
            prepend_token(SpecToken::Star, spec_tokenize(input, pos + 1))
        } else if c == '/' {
            prepend_token(SpecToken::Slash, spec_tokenize(input, pos + 1))
        } else if c == '(' || c == '[' || c == '{' {
            prepend_token(SpecToken::LParen, spec_tokenize(input, pos + 1))
        } else if c == ')' || c == ']' || c == '}' {
            prepend_token(SpecToken::RParen, spec_tokenize(input, pos + 1))
        } else if is_number_char(c) {
            let end = number_run_end(input, pos);
            let text = number_text(input.subrange(pos, end));
            if valid_number_text(text) {
                prepend_token(SpecToken::Number(text), spec_tokenize(input, end))
            } else {
                Err(SpecLexError::NumberFormatError(text))
            }
        } else {
            Err(SpecLexError::UnsupportedCharacter(c))
        }
    }
}

#[via_fn]
proof fn spec_tokenize_decreases(input: Seq<char>, pos: int) {
    if 0 <= pos < input.len() && is_number_char(input[pos]) {
        lemma_number_run_end_bounds(input, pos + 1);
    }
}

/// The accumulated text of the numeric run at `pos` is nonempty, starts
/// with a digit, and holds only digits and dots.
pub proof fn lemma_number_text_shape(input: Seq<char>, pos: int)
    requires
        0 <= pos < input.len(),
        is_number_char(input[pos]),
    ensures
        ({
            let text = number_text(input.subrange(pos, number_run_end(input, pos)));
            &&& text.len() > 0
            &&& is_digit_char(text[0])
            &&& forall|i: int| 0 <= i < text.len() ==> is_number_char(#[trigger] text[i])
        }),
{
    assert(number_run_end(input, pos) == number_run_end(input, pos + 1));
    lemma_number_run_end_bounds(input, pos + 1);
    lemma_number_run_chars(input, pos);
    let run_end = number_run_end(input, pos);
    let raw = input.subrange(pos, run_end);
    let text = number_text(raw);
    assert(raw.len() > 0);
    assert(raw[0] == input[pos]);
    assert(is_digit_char(text[0])) by {
        if raw[0] == '.' {
            assert(text[0] == '0');
        } else {
            assert(text[0] == raw[0]);
        }
    }
    assert forall|i: int| 0 <= i < text.len() implies is_number_char(#[trigger] text[i]) by {
        if raw[0] == '.' {
            if i == 0 {
                assert(text[0] == '0');
            } else {
                assert(text[i] == raw[i - 1]);
            }
        } else {
            assert(text[i] == raw[i]);
        }
    }
}

/// Every character of the maximal numeric run is a digit or a dot.
pub proof fn lemma_number_run_chars(input: Seq<char>, pos: int)
    requires
        0 <= pos <= input.len(),
    ensures
        forall|i: int|
            pos <= i < number_run_end(input, pos) ==> is_number_char(#[trigger] input[i]),
    decreases input.len() - pos,
{
    lemma_number_run_end_bounds(input, pos);
    if pos < input.len() && is_number_char(input[pos]) {
        lemma_number_run_chars(input, pos + 1);
    }
}

/// Prepends already-produced tokens to the outcome of tokenizing the rest,
/// passing an error through.
pub open spec fn prepend_tokens(
    ts: Seq<SpecToken>,
    rest: Result<Seq<SpecToken>, SpecLexError>,
) -> Result<Seq<SpecToken>, SpecLexError> {
    match rest {
        Ok(more) => Ok(ts + more),
        Err(e) => Err(e),
    }
}

proof fn lemma_prepend_tokens_empty(rest: Result<Seq<SpecToken>, SpecLexError>)
    ensures
        prepend_tokens(Seq::<SpecToken>::empty(), rest) == rest,
{
    match rest {
        Ok(more) => {
            assert(Seq::<SpecToken>::empty() + more =~= more);
        },
        Err(_) => {},
    }
}

proof fn lemma_prepend_tokens_push(
    ts: Seq<SpecToken>,
    t: SpecToken,
    rest: Result<Seq<SpecToken>, SpecLexError>,
)
    ensures
        prepend_tokens(ts.push(t), rest) == prepend_tokens(ts, prepend_token(t, rest)),
{
    match rest {
        Ok(more) => {
            assert(ts.push(t) + more =~= ts + (seq![t] + more));
        },
        Err(_) => {},
    }
}

fn is_whitespace(c: char) -> (r: bool)
    ensures
        r == is_whitespace_char(c),
{
    c == ' ' || c == '\t' || c == '\n'
}

fn is_digit(c: char) -> (r: bool)
    ensures
        r == is_digit_char(c),
{
    let u = c as u32;
    48u32 <= u && u <= 57u32
}

fn is_number(c: char) -> (r: bool)
    ensures
        r == is_number_char(c),
{
    c == '.' || is_digit(c)
}

/// A cursor over the characters of one input string, from which
/// `get_tokens` produces the token sequence.
pub struct Lexer {
    pub input: Vec<char>,
    pub position: usize,
}

impl Lexer {
    /// The cursor never stands past the end of the input.
    pub open spec fn wf(&self) -> bool {
        self.position <= self.input@.len()
    }

    pub fn new(input: &str) -> (l: Lexer)
        ensures
            l.input@ == input@,
            l.position == 0,
            l.wf(),
    {
        let n = input.unicode_len();
        let mut chars: Vec<char> = Vec::new();
        let mut i: usize = 0;
        while i < n
            invariant
                n == input@.len(),
                i <= n,
                chars@ == input@.subrange(0, i as int),
            decreases n - i,
        {
            chars.push(input.get_char(i));
            i = i + 1;
            assert(chars@ =~= input@.subrange(0, i as int));
        }
        assert(chars@ =~= input@);
        Lexer { input: chars, position: 0 }
    }

    fn next(&mut self)
        requires
            old(self).position < old(self).input@.len(),
        ensures
            final(self).input == old(self).input,
            final(self).position == old(self).position + 1,
    {
        proof {
            assert(self.input.len() == self.input@.len());
        }
        self.position = self.position + 1;
    }

    fn current_char(&self) -> (r: Option<char>)
        requires
            self.wf(),
        ensures
            r == (if self.position < self.input@.len() {
                Some(self.input@[self.position as int])
            } else {
                None::<char>
            }),
    {
        if self.position < self.input.len() {
            Some(self.input[self.position])
        } else {
            None
        }
    }

    /// Scans the maximal run of digits and dots at the cursor, inserting a
    /// leading `0` if the run begins with a dot, and returns the run as a
    /// `Number` token if its text holds at most one dot, and the
    /// `NumberFormatError` carrying the text otherwise.
    fn generate_number(&mut self) -> (r: Result<Token, LexError>)
        requires
            old(self).wf(),
            old(self).position < old(self).input@.len(),
            is_number_char(old(self).input@[old(self).position as int]),
        ensures
            final(self).input@ == old(self).input@,
            final(self).wf(),
            final(self).position as int == number_run_end(old(self).input@, old(self).position as int),
            ({
                let text = number_text(
                    old(self).input@.subrange(
                        old(self).position as int,
                        number_run_end(old(self).input@, old(self).position as int),
                    ),
                );
                if valid_number_text(text) {
                    r matches Ok(t) && t@ == SpecToken::Number(text) && wf_number_text(text)
                } else {
                    r matches Err(e) && e@ == SpecLexError::NumberFormatError(text)
                }
            }),
    {
        let ghost input = self.input@;
        let ghost start = self.position as int;
        let mut text: Vec<char> = Vec::new();
        loop
            invariant
                self.input@ == input,
                self.wf(),
                0 <= start <= self.position as int <= input.len(),
                number_run_end(input, start) == number_run_end(input, self.position as int),
                forall|i: int| start <= i < self.position as int ==> is_number_char(#[trigger] input[i]),
                text@ == number_text(input.subrange(start, self.position as int)),
            ensures
                self.input@ == input,
                0 <= start <= self.position as int <= input.len(),
                self.position as int == number_run_end(input, start),
                text@ == number_text(input.subrange(start, number_run_end(input, start))),
                forall|i: int| start <= i < self.position as int ==> is_number_char(#[trigger] input[i]),
            decreases input.len() - self.position as int,
        {
            let stop = match self.current_char() {
                Some(c) => !is_number(c),
                None => true,
            };
            if stop {
                proof {
                    assert(number_run_end(input, self.position as int) == self.position as int);
                }
                break;
            }
            let c = self.input[self.position];
            let ghost pos = self.position as int;
            if text.len() == 0 && c == '.' {
                text.push('0');
            }
            text.push(c);
            self.next();
            proof {
                assert(number_run_end(input, pos) == number_run_end(input, pos + 1));
                let raw_old = input.subrange(start, pos);
                let raw_new = input.subrange(start, pos + 1);
                assert(raw_new =~= raw_old.push(c));
                if pos == start {
                    assert(raw_old.len() == 0);
                    if c == '.' {
                        assert(text@ =~= seq!['0'] + raw_new);
                    } else {
                        assert(text@ =~= raw_new);
                    }
                } else {
                    assert(raw_old.len() > 0);
                    assert(number_text(raw_old).len() > 0);
                    if raw_old[0] == '.' {
                        assert(text@ =~= (seq!['0'] + raw_old).push(c));
                        assert((seq!['0'] + raw_old).push(c) =~= seq!['0'] + raw_new);
                    } else {
                        assert(text@ =~= raw_new);
                    }
                }
            }
        }
        let ghost text_spec = text@;
        let mut dots: usize = 0;
        let mut i: usize = 0;
        while i < text.len()
            invariant
                text@ == text_spec,
                i <= text@.len(),
                dots <= i,
                dots as nat == dot_count(text@.subrange(0, i as int)),
            decreases text@.len() - i,
        {
            let c = text[i];
            if c == '.' {
                dots = dots + 1;
            }
            i = i + 1;
            proof {
                let t = text@;
                assert(t.subrange(0, i as int).drop_last() =~= t.subrange(0, i - 1));
                assert(t.subrange(0, i as int).last() == t[i - 1]);
            }
        }
        proof {
            assert(text@.subrange(0, text@.len() as int) =~= text@);
        }
        if dots <= 1 {
            proof {
                lemma_number_text_shape(input, start);
            }
            Ok(Token::Number(NumberLit { text }))
        } else {
            Err(LexError::NumberFormatError(text))
        }
    }

    /// Tokenizes the input from the cursor onward: the token sequence the
    /// model `spec_tokenize` gives, ending in `EndOfInput`, or its error.
    pub fn get_tokens(&mut self) -> (r: Result<Vec<Token>, LexError>)
        requires
            old(self).wf(),
        ensures
            final(self).input@ == old(self).input@,
            final(self).wf(),
            ({
                let s = spec_tokenize(old(self).input@, old(self).position as int);
                &&& (r matches Ok(toks) ==> s matches Ok(sts) && token_views(toks@) == sts)
                &&& (r matches Err(e) ==> s matches Err(se) && e@ == se)
            }),
    {
        let ghost input = self.input@;
        let ghost start = self.position as int;
        let mut tokens: Vec<Token> = Vec::new();
        proof {
            assert(token_views(tokens@) =~= Seq::<SpecToken>::empty());
            lemma_prepend_tokens_empty(spec_tokenize(input, start));
        }
        while self.position < self.input.len()
            invariant
                input == old(self).input@,
                start == old(self).position as int,
                self.input@ == input,
                self.wf(),
                0 <= start <= input.len(),
                spec_tokenize(input, start) == prepend_tokens(
                    token_views(tokens@),
                    spec_tokenize(input, self.position as int),
                ),
            decreases input.len() - self.position as int,
        {
            let c = self.input[self.position];
            let ghost pos = self.position as int;
            let ghost before = token_views(tokens@);
            if is_whitespace(c) {
                self.next();
            } else if c == '+' {
                tokens.push(Token::Plus);
                self.next();
            } else if c == '-' {
                tokens.push(Token::Minus);
                self.next();
            } else if c == '*' {
                tokens.push(Token::Star);
                self.next();
            } else if c == '/' {
                tokens.push(Token::Slash);
                self.next();
            } else if c == '(' || c == '[' || c == '{' {
                tokens.push(Token::LParen);
                self.next();
            } else if c == ')' || c == ']' || c == '}' {
                tokens.push(Token::RParen);
                self.next();
            } else if is_number(c) {
                proof {
                    assert(number_run_end(input, pos) == number_run_end(input, pos + 1));
                    lemma_number_run_end_bounds(input, pos + 1);
                }
                match self.generate_number() {
                    Ok(t) => {
                        tokens.push(t);
                        proof {
                            let rest = spec_tokenize(input, self.position as int);
                            assert(token_views(tokens@) =~= before.push(t@));
                            lemma_prepend_tokens_push(before, t@, rest);
                        }
                    },
                    Err(e) => {
                        return Err(e);
                    },
                }
            } else {
                return Err(LexError::UnsupportedCharacter(c));
            }
            proof {
                if is_whitespace_char(c) {
                } else if !is_number_char(c) {
                    let t = token_views(tokens@).last();
                    let rest = spec_tokenize(input, self.position as int);
                    assert(token_views(tokens@) =~= before.push(t));
                    lemma_prepend_tokens_push(before, t, rest);
                }
            }
        }
        proof {
            assert(spec_tokenize(input, self.position as int) == Ok::<
                Seq<SpecToken>,
                SpecLexError,
            >(seq![SpecToken::EndOfInput]));
        }
        let ghost before = token_views(tokens@);
        tokens.push(Token::EndOfInput);
        proof {
            assert(token_views(tokens@) =~= before.push(SpecToken::EndOfInput));
            assert(before.push(SpecToken::EndOfInput) =~= before + seq![SpecToken::EndOfInput]);
        }
        Ok(tokens)
    }
}

proof fn lemma_prepend_token_ends_once(t: SpecToken, rest: Result<Seq<SpecToken>, SpecLexError>)
    requires
        t != SpecToken::EndOfInput,
        (rest matches Ok(rts) ==> (rts.len() >= 1 && rts.last() == SpecToken::EndOfInput && (forall|
            i: int,
        |
            0 <= i < rts.len() - 1 ==> #[trigger] rts[i] != SpecToken::EndOfInput))),
    ensures
        (prepend_token(t, rest) matches Ok(ts) ==> (ts.len() >= 1 && ts.last()
            == SpecToken::EndOfInput && (forall|i: int|
            0 <= i < ts.len() - 1 ==> #[trigger] ts[i] != SpecToken::EndOfInput))),
{
    match rest {
        Ok(rts) => {
            let ts = seq![t] + rts;
            assert(ts.last() == rts.last());
            assert forall|i: int|
                0 <= i < ts.len() - 1 implies #[trigger] ts[i] != SpecToken::EndOfInput by {
                if i == 0 {
                    assert(ts[0] == t);
                } else {
                    assert(ts[i] == rts[i - 1]);
                }
            }
        },
        Err(_) => {},
    }
}

/// Law: a token sequence the tokenizer accepts ends with `EndOfInput`,
/// appended exactly once — it is the last token and occurs nowhere else.
pub proof fn lemma_tokenize_ends_once(input: Seq<char>, pos: int)
    requires
        0 <= pos <= input.len(),
    ensures
        (spec_tokenize(input, pos) matches Ok(ts) ==> (ts.len() >= 1 && ts.last()
            == SpecToken::EndOfInput && (forall|i: int|
            0 <= i < ts.len() - 1 ==> #[trigger] ts[i] != SpecToken::EndOfInput))),
    decreases input.len() - pos,
{
    if pos < input.len() {
        let c = input[pos];
        if is_whitespace_char(c) {
            lemma_tokenize_ends_once(input, pos + 1);
        } else if c == '+' {
            lemma_tokenize_ends_once(input, pos + 1);
            lemma_prepend_token_ends_once(SpecToken::Plus, spec_tokenize(input, pos + 1));
        } else if c == '-' {
            lemma_tokenize_ends_once(input, pos + 1);
            lemma_prepend_token_ends_once(SpecToken::Minus, spec_tokenize(input, pos + 1));
        } else if c == '*' {
            lemma_tokenize_ends_once(input, pos + 1);
            lemma_prepend_token_ends_once(SpecToken::Star, spec_tokenize(input, pos + 1));
        } else if c == '/' {
            lemma_tokenize_ends_once(input, pos + 1);
            lemma_prepend_token_ends_once(SpecToken::Slash, spec_tokenize(input, pos + 1));
        } else if c == '(' || c == '[' || c == '{' {
            lemma_tokenize_ends_once(input, pos + 1);
            lemma_prepend_token_ends_once(SpecToken::LParen, spec_tokenize(input, pos + 1));
        } else if c == ')' || c == ']' || c == '}' {
            lemma_tokenize_ends_once(input, pos + 1);
            lemma_prepend_token_ends_once(SpecToken::RParen, spec_tokenize(input, pos + 1));
        } else if is_number_char(c) {
            assert(number_run_end(input, pos) == number_run_end(input, pos + 1));
            lemma_number_run_end_bounds(input, pos + 1);
            let end = number_run_end(input, pos);
            let text = number_text(input.subrange(pos, end));
            lemma_tokenize_ends_once(input, end);
            lemma_prepend_token_ends_once(SpecToken::Number(text), spec_tokenize(input, end));
        }
    }
}

/// A number token holds a well-formed text; every other token holds none.
pub open spec fn number_token_wf(t: SpecToken) -> bool {
    match t {
        SpecToken::Number(text) => wf_number_text(text),
        _ => true,
    }
}

proof fn lemma_prepend_token_numbers_wf(t: SpecToken, rest: Result<Seq<SpecToken>, SpecLexError>)
    requires
        number_token_wf(t),
        (rest matches Ok(rts) ==> forall|i: int|
            0 <= i < rts.len() ==> number_token_wf(#[trigger] rts[i])),
    ensures
        (prepend_token(t, rest) matches Ok(ts) ==> forall|i: int|
            0 <= i < ts.len() ==> number_token_wf(#[trigger] ts[i])),
{
    match rest {
        Ok(rts) => {
            let ts = seq![t] + rts;
            assert forall|i: int| 0 <= i < ts.len() implies number_token_wf(#[trigger] ts[i]) by {
                if i == 0 {
                    assert(ts[0] == t);
                } else {
                    assert(ts[i] == rts[i - 1]);
                }
            }
        },
        Err(_) => {},
    }
}

/// Law: every `Number` token the tokenizer emits is well-formed — its
/// text is nonempty, starts with a digit, and holds only digits and at
/// most one dot, so it reads as a floating-point number.
pub proof fn lemma_tokenize_numbers_wf(input: Seq<char>, pos: int)
    requires
        0 <= pos <= input.len(),
    ensures
        (spec_tokenize(input, pos) matches Ok(ts) ==> forall|i: int|
            0 <= i < ts.len() ==> number_token_wf(#[trigger] ts[i])),
    decreases input.len() - pos,
{
    if pos < input.len() {
        let c = input[pos];
        if is_whitespace_char(c) {
            lemma_tokenize_numbers_wf(input, pos + 1);
        } else if c == '+' {
            lemma_tokenize_numbers_wf(input, pos + 1);
            lemma_prepend_token_numbers_wf(SpecToken::Plus, spec_tokenize(input, pos + 1));
        } else if c == '-' {
            lemma_tokenize_numbers_wf(input, pos + 1);
            lemma_prepend_token_numbers_wf(SpecToken::Minus, spec_tokenize(input, pos + 1));
        } else if c == '*' {
            lemma_tokenize_numbers_wf(input, pos + 1);
            lemma_prepend_token_numbers_wf(SpecToken::Star, spec_tokenize(input, pos + 1));
        } else if c == '/' {
            lemma_tokenize_numbers_wf(input, pos + 1);
            lemma_prepend_token_numbers_wf(SpecToken::Slash, spec_tokenize(input, pos + 1));
        } else if c == '(' || c == '[' || c == '{' {
            lemma_tokenize_numbers_wf(input, pos + 1);
            lemma_prepend_token_numbers_wf(SpecToken::LParen, spec_tokenize(input, pos + 1));
        } else if c == ')' || c == ']' || c == '}' {
            lemma_tokenize_numbers_wf(input, pos + 1);
            lemma_prepend_token_numbers_wf(SpecToken::RParen, spec_tokenize(input, pos + 1));
        } else if is_number_char(c) {
            assert(number_run_end(input, pos) == number_run_end(input, pos + 1));
            lemma_number_run_end_bounds(input, pos + 1);
            let end = number_run_end(input, pos);
            let text = number_text(input.subrange(pos, end));
            if valid_number_text(text) {
                lemma_number_text_shape(input, pos);
                lemma_tokenize_numbers_wf(input, end);
                lemma_prepend_token_numbers_wf(SpecToken::Number(text), spec_tokenize(input, end));
            }
        }
    }
}

/// Tokenizes one input string, as `spec_tokenize` says, from its start.
pub fn tokenize(input: &str) -> (r: Result<Vec<Token>, LexError>)
    ensures
        ({
            let s = spec_tokenize(input@, 0);
            &&& (r matches Ok(toks) ==> s matches Ok(sts) && token_views(toks@) == sts)
            &&& (r matches Err(e) ==> s matches Err(se) && e@ == se)
        }),
{
    let mut lexer = Lexer::new(input);
    lexer.get_tokens()
}

} // verus!

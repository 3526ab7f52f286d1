//! The tokenizer: source text to tokens.
//!
//! Whitespace separates tokens and is otherwise ignored. A word that
//! spells a keyword is that keyword; any other word is an identifier. A run
//! of decimal digits is a number, and so is a sign directly followed by
//! one. The arrow `->` is the only other token of two characters.

use crate::text::{
    chars_of, digit, integer_of, is_digit, is_whitespace, is_word_part, is_word_start, parse_integer,
    part_of, spells, whitespace, word_part, word_start,
};
use vstd::prelude::*;

verus! {

/// One lexical unit of source text.
#[derive(Debug, PartialEq, Eq)]
pub enum Token {
    Declare,
    Print,
    Input,
    If,
    Else,
    Loop,
    Sleep,
    Clear,
    Add,
    Sub,
    Mul,
    Div,
    Into,
    Assign,
    EndStmt,
    Ident(String),
    Number(i32),
}

/// The mathematical model of a [`Token`]: its name is a sequence of
/// characters.
pub enum SpecToken {
    Declare,
    Print,
    Input,
    If,
    Else,
    Loop,
    Sleep,
    Clear,
    Add,
    Sub,
    Mul,
    Div,
    Into,
    Assign,
    EndStmt,
    Ident(Seq<char>),
    Number(i32),
}

impl View for Token {
    type V = SpecToken;

    open spec fn view(&self) -> SpecToken {
        match self {
            Token::Declare => SpecToken::Declare,
            Token::Print => SpecToken::Print,
            Token::Input => SpecToken::Input,
            Token::If => SpecToken::If,
            Token::Else => SpecToken::Else,
            Token::Loop => SpecToken::Loop,
            Token::Sleep => SpecToken::Sleep,
            Token::Clear => SpecToken::Clear,
            Token::Add => SpecToken::Add,
            Token::Sub => SpecToken::Sub,
            Token::Mul => SpecToken::Mul,
            Token::Div => SpecToken::Div,
            Token::Into => SpecToken::Into,
            Token::Assign => SpecToken::Assign,
            Token::EndStmt => SpecToken::EndStmt,
            Token::Ident(name) => SpecToken::Ident(name@),
            Token::Number(n) => SpecToken::Number(*n),
        }
    }
}

/// The models of a sequence of tokens, one for one.
pub open spec fn tokens_view(tokens: Seq<Token>) -> Seq<SpecToken> {
    tokens.map_values(|t: Token| t@)
}

/// Why a text could not be tokenized. Positions count characters from the
/// start of the text.
#[derive(Debug, Clone, Copy, PartialEq, Eq)]
pub enum LexError {
    /// A character that begins no token.
    UnexpectedChar { position: usize, found: char },
    /// A number that does not fit in 32 bits; `position` is where it begins.
    NumberOverflow { position: usize },
}

/// The token that a word is: a keyword where it spells one, an identifier
/// otherwise.
pub open spec fn word_token(word: Seq<char>) -> SpecToken {
    if word == "Declare"@ {
        SpecToken::Declare
    } else if word == "Print"@ {
        SpecToken::Print
    } else if word == "Input"@ {
        SpecToken::Input
    } else if word == "If"@ {
        SpecToken::If
    } else if word == "Else"@ {
        SpecToken::Else
    } else if word == "Loop"@ {
        SpecToken::Loop
    } else if word == "Sleep"@ {
        SpecToken::Sleep
    } else if word == "Clear"@ {
        SpecToken::Clear
    } else {
        SpecToken::Ident(word)
    }
}

/// The token that a punctuation character is by itself.
pub open spec fn symbol_token(c: char) -> Option<SpecToken> {
    if c == '+' {
        Some(SpecToken::Add)
    } else if c == '-' {
        Some(SpecToken::Sub)
    } else if c == '*' {
        Some(SpecToken::Mul)
    } else if c == '/' {
        Some(SpecToken::Div)
    } else if c == '=' {
        Some(SpecToken::Assign)
    } else if c == ';' {
        Some(SpecToken::EndStmt)
    } else {
        None
    }
}

/// Where the run of word characters that covers position `i` ends.
pub open spec fn word_end(text: Seq<char>, i: int) -> int
    decreases text.len() - i,
{
    if 0 <= i < text.len() && is_word_part(text[i]) {
        word_end(text, i + 1)
    } else {
        i
    }
}

/// Where the run of decimal digits that covers position `i` ends.
pub open spec fn digits_end(text: Seq<char>, i: int) -> int
    decreases text.len() - i,
{
    if 0 <= i < text.len() && is_digit(text[i]) {
        digits_end(text, i + 1)
    } else {
        i
    }
}

/// Whether a number begins at position `i`: a digit, or a sign with a digit
/// directly behind it.
pub open spec fn number_starts(text: Seq<char>, i: int) -> bool {
    &&& 0 <= i < text.len()
    &&& {
        ||| is_digit(text[i])
        ||| (text[i] == '+' || text[i] == '-') && i + 1 < text.len() && is_digit(text[i + 1])
    }
}

/// The token that begins at position `i`, which holds no whitespace, and
/// the position behind it.
pub open spec fn token_at(text: Seq<char>, i: int) -> Result<(SpecToken, int), LexError>
    recommends
        0 <= i < text.len(),
{
    let c = text[i];
    if is_word_start(c) {
        let end = word_end(text, i + 1);
        Ok((word_token(text.subrange(i, end)), end))
    } else if number_starts(text, i) {
        let end = digits_end(text, i + 1);
        match integer_of(text.subrange(i, end)) {
            Some(n) => Ok((SpecToken::Number(n), end)),
            None => Err(LexError::NumberOverflow { position: i as usize }),
        }
    } else if c == '-' && i + 1 < text.len() && text[i + 1] == '>' {
        Ok((SpecToken::Into, i + 2))
    } else {
        match symbol_token(c) {
            Some(t) => Ok((t, i + 1)),
            None => Err(LexError::UnexpectedChar { position: i as usize, found: c }),
        }
    }
}

/// `first` put before the tokens of `rest`; an error stays as it is.
pub open spec fn prepend(first: Seq<SpecToken>, rest: Result<Seq<SpecToken>, LexError>) -> Result<
    Seq<SpecToken>,
    LexError,
> {
    match rest {
        Ok(tokens) => Ok(first + tokens),
        Err(e) => Err(e),
    }
}

/// The tokens of `text` from position `i` on, or the first error met.
pub open spec fn tokens_from(text: Seq<char>, i: int) -> Result<Seq<SpecToken>, LexError>
    decreases text.len() - i,
{
    if i < 0 || i >= text.len() {
        Ok(Seq::empty())
    } else if is_whitespace(text[i]) {
        tokens_from(text, i + 1)
    } else {
        match token_at(text, i) {
            Ok((token, next)) => {
                proof {
                    lemma_token_advances(text, i);
                }
                prepend(seq![token], tokens_from(text, next))
            },
            Err(e) => Err(e),
        }
    }
}

/// The tokens of a whole text, or the first error met.
pub open spec fn tokens_of_text(text: Seq<char>) -> Result<Seq<SpecToken>, LexError> {
    tokens_from(text, 0)
}

/// The model of what tokenizing returns.
pub open spec fn lex_result_view(r: Result<Vec<Token>, LexError>) -> Result<
    Seq<SpecToken>,
    LexError,
> {
    match r {
        Ok(tokens) => Ok(tokens_view(tokens@)),
        Err(e) => Err(e),
    }
}

/// A run of word characters ends at or behind the position it is asked
/// from, within the text, and everything in between belongs to it.
pub proof fn lemma_word_end(text: Seq<char>, i: int)
    requires
        0 <= i <= text.len(),
    ensures
        i <= word_end(text, i) <= text.len(),
        forall|j: int| i <= j < word_end(text, i) ==> is_word_part(#[trigger] text[j]),
        word_end(text, i) < text.len() ==> !is_word_part(text[word_end(text, i)]),
    decreases text.len() - i,
{
    if i < text.len() && is_word_part(text[i]) {
        lemma_word_end(text, i + 1);
    }
}

/// A run of digits ends at or behind the position it is asked from, within
/// the text, and everything in between belongs to it.
pub proof fn lemma_digits_end(text: Seq<char>, i: int)
    requires
        0 <= i <= text.len(),
    ensures
        i <= digits_end(text, i) <= text.len(),
        forall|j: int| i <= j < digits_end(text, i) ==> is_digit(#[trigger] text[j]),
        digits_end(text, i) < text.len() ==> !is_digit(text[digits_end(text, i)]),
    decreases text.len() - i,
{
    if i < text.len() && is_digit(text[i]) {
        lemma_digits_end(text, i + 1);
    }
}

/// Every token holds at least one character and ends within the text.
pub proof fn lemma_token_advances(text: Seq<char>, i: int)
    requires
        0 <= i < text.len(),
    ensures
        token_at(text, i) matches Ok((_, next)) ==> i < next <= text.len(),
{
    lemma_word_end(text, i + 1);
    lemma_digits_end(text, i + 1);
}

/// Whether a word spells a keyword.
pub open spec fn is_keyword(word: Seq<char>) -> bool {
    ||| word == "Declare"@
    ||| word == "Print"@
    ||| word == "Input"@
    ||| word == "If"@
    ||| word == "Else"@
    ||| word == "Loop"@
    ||| word == "Sleep"@
    ||| word == "Clear"@
}

/// Keywords take priority: no identifier among the tokens of a text
/// spells a keyword.
pub proof fn lemma_identifiers_spell_no_keyword(text: Seq<char>, i: int)
    requires
        0 <= i,
    ensures
        tokens_from(text, i) matches Ok(tokens) ==> forall|k: int|
            0 <= k < tokens.len() ==> (#[trigger] tokens[k] matches SpecToken::Ident(name)
                ==> !is_keyword(name)),
    decreases text.len() - i,
{
    if i < text.len() {
        if is_whitespace(text[i]) {
            lemma_identifiers_spell_no_keyword(text, i + 1);
        } else if let Ok((token, next)) = token_at(text, i) {
            lemma_token_advances(text, i);
            lemma_identifiers_spell_no_keyword(text, next);
            if let Ok(rest) = tokens_from(text, next) {
                let tokens = seq![token] + rest;
                assert forall|k: int| 0 <= k < tokens.len() implies (
                #[trigger] tokens[k] matches SpecToken::Ident(name) ==> !is_keyword(name)) by {
                    if k > 0 {
                        assert(tokens[k] == rest[k - 1]);
                    }
                }
            }
        }
    }
}

fn scan_word(chars: &[char], start: usize) -> (end: usize)
    requires
        start <= chars.len(),
    ensures
        end == word_end(chars@, start as int),
        start <= end <= chars.len(),
{
    let mut i: usize = start;
    while i < chars.len() && word_part(chars[i])
        invariant
            start <= i <= chars.len(),
            word_end(chars@, start as int) == word_end(chars@, i as int),
        decreases chars.len() - i,
    {
        i += 1;
    }
    i
}

fn scan_digits(chars: &[char], start: usize) -> (end: usize)
    requires
        start <= chars.len(),
    ensures
        end == digits_end(chars@, start as int),
        start <= end <= chars.len(),
{
    let mut i: usize = start;
    while i < chars.len() && digit(chars[i])
        invariant
            start <= i <= chars.len(),
            digits_end(chars@, start as int) == digits_end(chars@, i as int),
        decreases chars.len() - i,
    {
        i += 1;
    }
    i
}

/// The token that the word from `from` up to `to` is.
fn word_to_token(text: &str, ascii: bool, chars: &[char], from: usize, to: usize) -> (token: Token)
    requires
        chars@ == text@,
        ascii ==> text.is_ascii(),
        from <= to <= chars.len(),
    ensures
        token@ == word_token(chars@.subrange(from as int, to as int)),
{
    if spells(chars, from, to, "Declare") {
        Token::Declare
    } else if spells(chars, from, to, "Print") {
        Token::Print
    } else if spells(chars, from, to, "Input") {
        Token::Input
    } else if spells(chars, from, to, "If") {
        Token::If
    } else if spells(chars, from, to, "Else") {
        Token::Else
    } else if spells(chars, from, to, "Loop") {
        Token::Loop
    } else if spells(chars, from, to, "Sleep") {
        Token::Sleep
    } else if spells(chars, from, to, "Clear") {
        Token::Clear
    } else {
        Token::Ident(part_of(text, ascii, from, to))
    }
}

/// The token that a punctuation character is by itself.
fn symbol_to_token(c: char) -> (token: Option<Token>)
    ensures
        match token {
            Some(t) => symbol_token(c) == Some(t@),
            None => symbol_token(c) is None,
        },
{
    if c == '+' {
        Some(Token::Add)
    } else if c == '-' {
        Some(Token::Sub)
    } else if c == '*' {
        Some(Token::Mul)
    } else if c == '/' {
        Some(Token::Div)
    } else if c == '=' {
        Some(Token::Assign)
    } else if c == ';' {
        Some(Token::EndStmt)
    } else {
        None
    }
}

/// Reads the token that begins at position `i`.
fn read_token(text: &str, ascii: bool, chars: &[char], i: usize) -> (r: Result<
    (Token, usize),
    LexError,
>)
    requires
        chars@ == text@,
        ascii ==> text.is_ascii(),
        i < chars.len(),
    ensures
        match r {
            Ok((token, next)) => token_at(chars@, i as int) == Ok::<(SpecToken, int), LexError>(
                (token@, next as int),
            ) && i < next <= chars.len(),
            Err(e) => token_at(chars@, i as int) == Err::<(SpecToken, int), LexError>(e),
        },
{
    let c = chars[i];
    let n = chars.len();
    if word_start(c) {
        let end = scan_word(chars, i + 1);
        Ok((word_to_token(text, ascii, chars, i, end), end))
    } else if digit(c) || ((c == '+' || c == '-') && i + 1 < n && digit(chars[i + 1])) {
        let end = scan_digits(chars, i + 1);
        match parse_integer(chars, i, end) {
            Some(value) => Ok((Token::Number(value), end)),
            None => Err(LexError::NumberOverflow { position: i }),
        }
    } else if c == '-' && i + 1 < n && chars[i + 1] == '>' {
        Ok((Token::Into, i + 2))
    } else {
        match symbol_to_token(c) {
            Some(token) => Ok((token, i + 1)),
            None => Err(LexError::UnexpectedChar { position: i, found: c }),
        }
    }
}

/// Splits `text` into its tokens. Fails at the first character that
/// begins no token and at the first number that does not fit in 32 bits,
/// whichever comes first.
pub fn tokenize(text: &str) -> (r: Result<Vec<Token>, LexError>)
    ensures
        lex_result_view(r) == tokens_of_text(text@),
{
    let chars = chars_of(text);
    let ascii = text.is_ascii();
    let n = chars.len();
    let mut tokens: Vec<Token> = Vec::new();
    let mut i: usize = 0;
    assert(Seq::<SpecToken>::empty() + tokens_view(tokens@) =~= tokens_view(tokens@));
    while i < n
        invariant
            i <= n,
            n == chars.len(),
            chars@ == text@,
            ascii ==> text.is_ascii(),
            tokens_of_text(text@) == prepend(tokens_view(tokens@), tokens_from(text@, i as int)),
        decreases n - i,
    {
        if whitespace(chars[i]) {
            i += 1;
        } else {
            match read_token(text, ascii, chars.as_slice(), i) {
                Ok((token, next)) => {
                    proof {
                        let before = tokens_view(tokens@);
                        let after = tokens_view(tokens@.push(token));
                        assert(after =~= before + seq![token@]);
                        match tokens_from(text@, next as int) {
                            Ok(rest) => {
                                assert(before + (seq![token@] + rest) =~= after + rest);
                            },
                            Err(_) => {},
                        }
                    }
                    tokens.push(token);
                    i = next;
                },
                Err(e) => {
                    return Err(e);
                },
            }
        }
    }
    assert(tokens_view(tokens@) + Seq::<SpecToken>::empty() =~= tokens_view(tokens@));
    Ok(tokens)
}

} // verus!

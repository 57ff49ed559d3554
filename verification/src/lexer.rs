//! The words of the dot language: quoted strings, bare identifiers and
//! numerals, and punctuation.

use vstd::prelude::*;
use crate::text::{chars_of, push_char};

verus! {

/// Why a text gave no graph.
#[derive(Debug, PartialEq, Eq, Clone, Copy, Structural)]
pub enum ParseError {
    /// The text is no graph in the dot language this crate reads.
    Syntax,
    /// The text states more nodes or more edges than the engine can number.
    TooLarge,
}

/// Whether `c` is a letter of an identifier: an ASCII letter, an underscore
/// or any character beyond ASCII.
pub open spec fn is_letter(c: char) -> bool {
    ('a' <= c && c <= 'z') || ('A' <= c && c <= 'Z') || c == '_' || (c as u32) >= 0x80
}

/// Whether `c` is a decimal digit.
pub open spec fn is_digit(c: char) -> bool {
    '0' <= c && c <= '9'
}

/// Whether `c` can stand in a bare word: a letter, a digit or a dot.
pub open spec fn is_word_char(c: char) -> bool {
    is_letter(c) || is_digit(c) || c == '.'
}

/// Whether `c` separates words: a space, a tab, a line feed or a carriage
/// return.
pub open spec fn is_space(c: char) -> bool {
    c == ' ' || c == '\t' || c == '\n' || c == '\r'
}

/// Whether `s` is an identifier: letters and digits, at least one, the first
/// no digit.
pub open spec fn is_identifier(s: Seq<char>) -> bool {
    &&& s.len() > 0
    &&& !is_digit(s[0])
    &&& forall|i: int| 0 <= i < s.len() ==> is_letter(#[trigger] s[i]) || is_digit(s[i])
}

/// Whether `s` is a numeral without its sign: digits with at most one dot
/// among them, and at least one digit.
pub open spec fn is_unsigned_numeral(s: Seq<char>) -> bool {
    &&& forall|i: int| 0 <= i < s.len() ==> is_digit(#[trigger] s[i]) || s[i] == '.'
    &&& exists|i: int| 0 <= i < s.len() && is_digit(#[trigger] s[i])
    &&& forall|i: int, j: int| 0 <= i < j < s.len() ==> !(#[trigger] s[i] == '.' && #[trigger] s[j] == '.')
}

/// Whether `s` is a numeral: an optional minus sign, then digits with at
/// most one dot among them.
pub open spec fn is_numeral(s: Seq<char>) -> bool {
    if s.len() > 0 && s[0] == '-' {
        is_unsigned_numeral(s.skip(1))
    } else {
        is_unsigned_numeral(s)
    }
}

/// Whether `s` can stand without quotes: an identifier or a numeral.
pub open spec fn is_bare_word(s: Seq<char>) -> bool {
    is_identifier(s) || is_numeral(s)
}

/// Reads the inside of a quoted string from the start of `s` up to the first
/// quote that no backslash escapes, or to the end. A backslash before a
/// quote or before a backslash is dropped and the character after it kept;
/// every other character stands for itself. Gives the characters read and
/// how many characters of `s` they took.
pub open spec fn scan_inner(s: Seq<char>) -> (Seq<char>, int)
    decreases s.len(),
{
    if s.len() == 0 || s[0] == '"' {
        (Seq::empty(), 0)
    } else if s[0] == '\\' && s.len() >= 2 && (s[1] == '"' || s[1] == '\\') {
        (seq![s[1]] + scan_inner(s.skip(2)).0, scan_inner(s.skip(2)).1 + 2)
    } else {
        (seq![s[0]] + scan_inner(s.skip(1)).0, scan_inner(s.skip(1)).1 + 1)
    }
}

/// What an escape stands for: `\"` for a quote and `\\` for a backslash.
pub open spec fn escaped_spec(s: Seq<char>) -> Option<Seq<char>> {
    if s.len() == 2 && s[0] == '\\' && (s[1] == '"' || s[1] == '\\') {
        Some(seq![s[1]])
    } else {
        None
    }
}

/// What the inside of a quoted string stands for, if `s` is one: a text
/// without a quote that no backslash escapes.
pub open spec fn double_quoted_inner_spec(s: Seq<char>) -> Option<Seq<char>> {
    if scan_inner(s).1 == s.len() {
        Some(scan_inner(s).0)
    } else {
        None
    }
}

/// What a quoted string stands for, if `s` is one: a quote, an inside, and
/// the closing quote at the end of `s`.
pub open spec fn double_quoted_string_spec(s: Seq<char>) -> Option<Seq<char>> {
    if s.len() >= 2 && s[0] == '"' && scan_inner(s.skip(1)).1 == s.len() - 2 {
        Some(scan_inner(s.skip(1)).0)
    } else {
        None
    }
}

/// What an id stands for, if `s` is one: a quoted string for its inside, a
/// bare word for itself.
pub open spec fn id_spec(s: Seq<char>) -> Option<Seq<char>> {
    if s.len() > 0 && s[0] == '"' {
        double_quoted_string_spec(s)
    } else if is_bare_word(s) {
        Some(s)
    } else {
        None
    }
}

/// The scan stops inside `s`, and where it stops before the end there is a
/// quote.
pub proof fn lemma_scan_inner_stop(s: Seq<char>)
    ensures
        0 <= scan_inner(s).1 <= s.len(),
        scan_inner(s).1 < s.len() ==> s[scan_inner(s).1] == '"',
    decreases s.len(),
{
    if s.len() == 0 || s[0] == '"' {
    } else if s[0] == '\\' && s.len() >= 2 && (s[1] == '"' || s[1] == '\\') {
        lemma_scan_inner_stop(s.skip(2));
    } else {
        lemma_scan_inner_stop(s.skip(1));
    }
}

fn is_letter_char(c: char) -> (yes: bool)
    ensures
        yes == is_letter(c),
{
    ('a' <= c && c <= 'z') || ('A' <= c && c <= 'Z') || c == '_' || (c as u32) >= 0x80
}

fn is_digit_char(c: char) -> (yes: bool)
    ensures
        yes == is_digit(c),
{
    '0' <= c && c <= '9'
}

fn is_word_character(c: char) -> (yes: bool)
    ensures
        yes == is_word_char(c),
{
    is_letter_char(c) || is_digit_char(c) || c == '.'
}

fn is_space_char(c: char) -> (yes: bool)
    ensures
        yes == is_space(c),
{
    c == ' ' || c == '\t' || c == '\n' || c == '\r'
}

/// Reads the inside of a quoted string from `start` on.
fn scan_quoted(chars: &Vec<char>, start: usize) -> (found: (String, usize))
    requires
        start <= chars@.len(),
    ensures
        found.0@ == scan_inner(chars@.skip(start as int)).0,
        found.1 == start + scan_inner(chars@.skip(start as int)).1,
        found.1 <= chars@.len(),
{
    let mut text = String::new();
    let mut pos: usize = start;
    let n = chars.len();
    loop
        invariant
            n == chars@.len(),
            start <= pos <= n,
            scan_inner(chars@.skip(start as int)).0 == text@ + scan_inner(chars@.skip(pos as int)).0,
            start + scan_inner(chars@.skip(start as int)).1 == pos + scan_inner(
                chars@.skip(pos as int),
            ).1,
        decreases n - pos,
    {
        let ghost rest = chars@.skip(pos as int);
        proof {
            lemma_scan_inner_stop(rest);
            assert(rest.len() == n - pos);
            if pos < n {
                assert(rest[0] == chars@[pos as int]);
                assert(rest.skip(1) =~= chars@.skip(pos + 1));
            }
            if pos + 1 < n {
                assert(rest[1] == chars@[pos + 1]);
                assert(rest.skip(2) =~= chars@.skip(pos + 2));
            }
        }
        if pos >= n || chars[pos] == '"' {
            assert(text@ + Seq::<char>::empty() =~= text@);
            return (text, pos);
        }
        if chars[pos] == '\\' && pos + 1 < n && (chars[pos + 1] == '"' || chars[pos + 1] == '\\') {
            let ghost before = text@;
            push_char(&mut text, chars[pos + 1]);
            assert(before + (seq![rest[1]] + scan_inner(rest.skip(2)).0) =~= text@ + scan_inner(
                rest.skip(2),
            ).0);
            pos += 2;
        } else {
            let ghost before = text@;
            push_char(&mut text, chars[pos]);
            assert(before + (seq![rest[0]] + scan_inner(rest.skip(1)).0) =~= text@ + scan_inner(
                rest.skip(1),
            ).0);
            pos += 1;
        }
    }
}

/// The characters of `chars` from `from` up to `to` as a string.
fn string_of(chars: &Vec<char>, from: usize, to: usize) -> (text: String)
    requires
        from <= to <= chars@.len(),
    ensures
        text@ == chars@.subrange(from as int, to as int),
{
    let mut text = String::new();
    let mut pos: usize = from;
    while pos < to
        invariant
            from <= pos <= to <= chars@.len(),
            text@ == chars@.subrange(from as int, pos as int),
        decreases to - pos,
    {
        push_char(&mut text, chars[pos]);
        assert(text@ =~= chars@.subrange(from as int, pos + 1));
        pos += 1;
    }
    text
}

/// Whether the characters from `from` up to `to` are letters and digits, at
/// least one, the first no digit.
fn check_identifier(chars: &Vec<char>, from: usize, to: usize) -> (yes: bool)
    requires
        from <= to <= chars@.len(),
    ensures
        yes == is_identifier(chars@.subrange(from as int, to as int)),
{
    let ghost s = chars@.subrange(from as int, to as int);
    if from == to {
        return false;
    }
    assert(s[0] == chars@[from as int]);
    if is_digit_char(chars[from]) {
        return false;
    }
    let mut pos: usize = from;
    while pos < to
        invariant
            from <= pos <= to <= chars@.len(),
            s == chars@.subrange(from as int, to as int),
            forall|i: int| 0 <= i < pos - from ==> is_letter(#[trigger] s[i]) || is_digit(s[i]),
        decreases to - pos,
    {
        assert(s[pos - from] == chars@[pos as int]);
        if !(is_letter_char(chars[pos]) || is_digit_char(chars[pos])) {
            return false;
        }
        pos += 1;
    }
    true
}

/// Whether the characters from `from` up to `to` are digits with at most one
/// dot among them, and at least one digit.
fn check_unsigned_numeral(chars: &Vec<char>, from: usize, to: usize) -> (yes: bool)
    requires
        from <= to <= chars@.len(),
    ensures
        yes == is_unsigned_numeral(chars@.subrange(from as int, to as int)),
{
    let ghost s = chars@.subrange(from as int, to as int);
    let mut seen_digit = false;
    let mut seen_dot = false;
    let ghost mut digit_at: int = 0;
    let ghost mut dot_at: int = 0;
    let mut pos: usize = from;
    while pos < to
        invariant
            from <= pos <= to <= chars@.len(),
            s == chars@.subrange(from as int, to as int),
            forall|i: int| 0 <= i < pos - from ==> is_digit(#[trigger] s[i]) || s[i] == '.',
            seen_digit ==> 0 <= digit_at < pos - from && is_digit(s[digit_at]),
            !seen_digit ==> forall|i: int| 0 <= i < pos - from ==> !is_digit(#[trigger] s[i]),
            seen_dot ==> 0 <= dot_at < pos - from && s[dot_at] == '.',
            !seen_dot ==> forall|i: int| 0 <= i < pos - from ==> #[trigger] s[i] != '.',
            forall|i: int, j: int|
                0 <= i < j < pos - from ==> !(#[trigger] s[i] == '.' && #[trigger] s[j] == '.'),
        decreases to - pos,
    {
        let c = chars[pos];
        assert(s[pos - from] == c);
        if is_digit_char(c) {
            seen_digit = true;
            proof {
                digit_at = pos - from;
            }
        } else if c == '.' {
            if seen_dot {
                assert(s[dot_at] == '.' && s[pos - from] == '.');
                return false;
            }
            seen_dot = true;
            proof {
                dot_at = pos - from;
            }
        } else {
            return false;
        }
        pos += 1;
    }
    seen_digit
}

/// Whether the characters from `from` up to `to` can stand without quotes.
pub(crate) fn check_bare_word(chars: &Vec<char>, from: usize, to: usize) -> (yes: bool)
    requires
        from <= to <= chars@.len(),
    ensures
        yes == is_bare_word(chars@.subrange(from as int, to as int)),
{
    let ghost s = chars@.subrange(from as int, to as int);
    if check_identifier(chars, from, to) {
        return true;
    }
    if from < to && chars[from] == '-' {
        assert(s[0] == '-');
        assert(s.skip(1) =~= chars@.subrange(from + 1, to as int));
        check_unsigned_numeral(chars, from + 1, to)
    } else {
        assert(from < to ==> s[0] == chars@[from as int]);
        check_unsigned_numeral(chars, from, to)
    }
}

/// Reads an escape: `\"` gives a quote, `\\` a backslash, and nothing else
/// is an escape.
pub fn escaped(s: &str) -> (found: Result<String, ParseError>)
    ensures
        match escaped_spec(s@) {
            Some(text) => found matches Ok(t) && t@ == text,
            None => found == Err::<String, ParseError>(ParseError::Syntax),
        },
{
    let chars = chars_of(s);
    if chars.len() == 2 && chars[0] == '\\' && (chars[1] == '"' || chars[1] == '\\') {
        let mut text = String::new();
        push_char(&mut text, chars[1]);
        assert(text@ =~= seq![s@[1]]);
        Ok(text)
    } else {
        Err(ParseError::Syntax)
    }
}

/// Reads the inside of a quoted string: any text without a quote that no
/// backslash escapes, with the escapes resolved.
#[allow(non_snake_case)]
pub fn doubleQuotedInner(s: &str) -> (found: Result<String, ParseError>)
    ensures
        match double_quoted_inner_spec(s@) {
            Some(text) => found matches Ok(t) && t@ == text,
            None => found == Err::<String, ParseError>(ParseError::Syntax),
        },
{
    let chars = chars_of(s);
    assert(chars@.skip(0) =~= s@);
    let (text, end) = scan_quoted(&chars, 0);
    if end == chars.len() {
        Ok(text)
    } else {
        Err(ParseError::Syntax)
    }
}

/// Reads a quoted string: a quote, an inside and a closing quote, and gives
/// the inside with the escapes resolved.
#[allow(non_snake_case)]
pub fn doubleQuotedString(s: &str) -> (found: Result<String, ParseError>)
    ensures
        match double_quoted_string_spec(s@) {
            Some(text) => found matches Ok(t) && t@ == text,
            None => found == Err::<String, ParseError>(ParseError::Syntax),
        },
{
    let chars = chars_of(s);
    if chars.len() < 2 || chars[0] != '"' {
        return Err(ParseError::Syntax);
    }
    let (text, end) = scan_quoted(&chars, 1);
    if end == chars.len() - 1 {
        Ok(text)
    } else {
        Err(ParseError::Syntax)
    }
}

/// Reads an id: a quoted string, an identifier or a numeral.
pub fn id(s: &str) -> (found: Result<String, ParseError>)
    ensures
        match id_spec(s@) {
            Some(text) => found matches Ok(t) && t@ == text,
            None => found == Err::<String, ParseError>(ParseError::Syntax),
        },
{
    let chars = chars_of(s);
    if chars.len() > 0 && chars[0] == '"' {
        let (text, end) = scan_quoted(&chars, 1);
        if chars.len() >= 2 && end == chars.len() - 1 {
            Ok(text)
        } else {
            Err(ParseError::Syntax)
        }
    } else {
        assert(chars@.subrange(0, chars@.len() as int) =~= s@);
        if check_bare_word(&chars, 0, chars.len()) {
            Ok(string_of(&chars, 0, chars.len()))
        } else {
            Err(ParseError::Syntax)
        }
    }
}

/// A word of the language.
#[derive(Debug)]
pub enum Token {
    /// A bare word: an identifier or a numeral.
    Word(String),
    /// A quoted string, by its inside with the escapes resolved.
    Quoted(String),
    LBrace,
    RBrace,
    LBracket,
    RBracket,
    Equals,
    Semicolon,
    Comma,
    /// The sign `->`.
    Arrow,
    /// The sign `--`.
    Line,
}

/// What a word of the language holds.
pub enum TokenView {
    Word(Seq<char>),
    Quoted(Seq<char>),
    LBrace,
    RBrace,
    LBracket,
    RBracket,
    Equals,
    Semicolon,
    Comma,
    Arrow,
    Line,
}

impl View for Token {
    type V = TokenView;

    open spec fn view(&self) -> TokenView {
        match self {
            Token::Word(w) => TokenView::Word(w@),
            Token::Quoted(q) => TokenView::Quoted(q@),
            Token::LBrace => TokenView::LBrace,
            Token::RBrace => TokenView::RBrace,
            Token::LBracket => TokenView::LBracket,
            Token::RBracket => TokenView::RBracket,
            Token::Equals => TokenView::Equals,
            Token::Semicolon => TokenView::Semicolon,
            Token::Comma => TokenView::Comma,
            Token::Arrow => TokenView::Arrow,
            Token::Line => TokenView::Line,
        }
    }
}

/// What each word of a list holds.
pub open spec fn token_views(tokens: Seq<Token>) -> Seq<TokenView> {
    tokens.map_values(|t: Token| t@)
}

/// The word that a single character of punctuation makes.
pub open spec fn punctuation(c: char) -> Option<TokenView> {
    if c == '{' {
        Some(TokenView::LBrace)
    } else if c == '}' {
        Some(TokenView::RBrace)
    } else if c == '[' {
        Some(TokenView::LBracket)
    } else if c == ']' {
        Some(TokenView::RBracket)
    } else if c == '=' {
        Some(TokenView::Equals)
    } else if c == ';' {
        Some(TokenView::Semicolon)
    } else if c == ',' {
        Some(TokenView::Comma)
    } else {
        None
    }
}

/// How many characters at the start of `s` can stand in a bare word.
pub open spec fn word_len(s: Seq<char>) -> int
    decreases s.len(),
{
    if s.len() > 0 && is_word_char(s[0]) {
        1 + word_len(s.skip(1))
    } else {
        0
    }
}

/// How many characters at the start of `s` make a bare word with its sign.
pub open spec fn bare_len(s: Seq<char>) -> int {
    if s.len() > 0 && s[0] == '-' {
        1 + word_len(s.skip(1))
    } else {
        word_len(s)
    }
}

/// The word at the start of `s`, which begins with no space, and the number
/// of characters it takes: a character of punctuation; a quoted string up
/// to its closing quote; one of the signs `->` and `--`; or the longest run
/// of word characters, with a minus sign before it or not, where that run
/// is an identifier or a numeral.
pub open spec fn first_token(s: Seq<char>) -> Option<(TokenView, int)>
    recommends
        s.len() > 0,
{
    if punctuation(s[0]) is Some {
        Some((punctuation(s[0])->0, 1))
    } else if s[0] == '"' {
        if scan_inner(s.skip(1)).1 + 1 < s.len() {
            Some((TokenView::Quoted(scan_inner(s.skip(1)).0), scan_inner(s.skip(1)).1 + 2))
        } else {
            None
        }
    } else if s[0] == '-' && s.len() >= 2 && s[1] == '>' {
        Some((TokenView::Arrow, 2))
    } else if s[0] == '-' && s.len() >= 2 && s[1] == '-' {
        Some((TokenView::Line, 2))
    } else if is_bare_word(s.take(bare_len(s))) {
        Some((TokenView::Word(s.take(bare_len(s))), bare_len(s)))
    } else {
        None
    }
}

/// The words of `s`, if it is made of words and spaces only.
pub open spec fn lex(s: Seq<char>) -> Option<Seq<TokenView>>
    decreases s.len(),
{
    if s.len() == 0 {
        Some(Seq::empty())
    } else if is_space(s[0]) {
        lex(s.skip(1))
    } else {
        match first_token(s) {
            Some((token, n)) => if 0 < n <= s.len() {
                match lex(s.skip(n)) {
                    Some(rest) => Some(seq![token] + rest),
                    None => None,
                }
            } else {
                None
            },
            None => None,
        }
    }
}

/// A run of word characters lies inside the text.
pub proof fn lemma_word_len_bounds(s: Seq<char>)
    ensures
        0 <= word_len(s) <= s.len(),
    decreases s.len(),
{
    if s.len() > 0 && is_word_char(s[0]) {
        lemma_word_len_bounds(s.skip(1));
    }
}

/// The end of the run of word characters that starts at `start`.
fn scan_word(chars: &Vec<char>, start: usize) -> (end: usize)
    requires
        start <= chars@.len(),
    ensures
        end == start + word_len(chars@.skip(start as int)),
        start <= end <= chars@.len(),
{
    let n = chars.len();
    let mut pos: usize = start;
    loop
        invariant
            n == chars@.len(),
            start <= pos <= n,
            start + word_len(chars@.skip(start as int)) == pos + word_len(chars@.skip(pos as int)),
        decreases n - pos,
    {
        let ghost rest = chars@.skip(pos as int);
        proof {
            if pos < n {
                assert(rest[0] == chars@[pos as int]);
                assert(rest.skip(1) =~= chars@.skip(pos + 1));
            }
        }
        if pos >= n || !is_word_character(chars[pos]) {
            return pos;
        }
        pos += 1;
    }
}

/// The word that starts at `pos`, where no space stands, and the place
/// after it.
fn next_token(chars: &Vec<char>, pos: usize) -> (found: Option<(Token, usize)>)
    requires
        pos < chars@.len(),
    ensures
        match first_token(chars@.skip(pos as int)) {
            Some((token, n)) => found matches Some((t, next)) && t@ == token && next == pos + n
                && pos < next <= chars@.len(),
            None => found is None,
        },
{
    let n = chars.len();
    let c = chars[pos];
    let ghost rest = chars@.skip(pos as int);
    proof {
        assert(rest[0] == c);
        assert(rest.len() == n - pos);
        assert(rest.skip(1) =~= chars@.skip(pos + 1));
        if pos + 1 < n {
            assert(rest[1] == chars@[pos + 1]);
        }
        lemma_scan_inner_stop(rest.skip(1));
        lemma_word_len_bounds(rest);
        lemma_word_len_bounds(rest.skip(1));
    }
    if c == '{' {
        Some((Token::LBrace, pos + 1))
    } else if c == '}' {
        Some((Token::RBrace, pos + 1))
    } else if c == '[' {
        Some((Token::LBracket, pos + 1))
    } else if c == ']' {
        Some((Token::RBracket, pos + 1))
    } else if c == '=' {
        Some((Token::Equals, pos + 1))
    } else if c == ';' {
        Some((Token::Semicolon, pos + 1))
    } else if c == ',' {
        Some((Token::Comma, pos + 1))
    } else if c == '"' {
        let (text, end) = scan_quoted(chars, pos + 1);
        if end < n {
            Some((Token::Quoted(text), end + 1))
        } else {
            None
        }
    } else if c == '-' && pos + 1 < n && chars[pos + 1] == '>' {
        Some((Token::Arrow, pos + 2))
    } else if c == '-' && pos + 1 < n && chars[pos + 1] == '-' {
        Some((Token::Line, pos + 2))
    } else {
        let end = if c == '-' {
            scan_word(chars, pos + 1)
        } else {
            scan_word(chars, pos)
        };
        assert(rest.take(end - pos) =~= chars@.subrange(pos as int, end as int));
        if check_bare_word(chars, pos, end) {
            Some((Token::Word(string_of(chars, pos, end)), end))
        } else {
            None
        }
    }
}

/// The words of a text in the dot language, with the spaces between them
/// dropped.
pub fn tokenize(s: &str) -> (found: Result<Vec<Token>, ParseError>)
    ensures
        match lex(s@) {
            Some(tokens) => found matches Ok(v) && token_views(v@) == tokens,
            None => found == Err::<Vec<Token>, ParseError>(ParseError::Syntax),
        },
{
    let chars = chars_of(s);
    let n = chars.len();
    let mut tokens: Vec<Token> = Vec::new();
    let mut pos: usize = 0;
    assert(chars@.skip(0) =~= s@);
    assert(token_views(tokens@) + Seq::<TokenView>::empty() =~= Seq::<TokenView>::empty());
    loop
        invariant
            n == chars@.len(),
            chars@ == s@,
            pos <= n,
            lex(s@) == (match lex(chars@.skip(pos as int)) {
                Some(rest) => Some(token_views(tokens@) + rest),
                None => None,
            }),
        decreases n - pos,
    {
        let ghost rest = chars@.skip(pos as int);
        proof {
            assert(rest.len() == n - pos);
            if pos < n {
                assert(rest[0] == chars@[pos as int]);
                assert(rest.skip(1) =~= chars@.skip(pos + 1));
            }
        }
        if pos >= n {
            assert(token_views(tokens@) + Seq::<TokenView>::empty() =~= token_views(tokens@));
            return Ok(tokens);
        }
        if is_space_char(chars[pos]) {
            pos += 1;
        } else {
            match next_token(&chars, pos) {
                Some((token, next)) => {
                    proof {
                        let done = token_views(tokens@);
                        assert(rest.skip(next - pos) =~= chars@.skip(next as int));
                        assert(token_views(tokens@.push(token)) =~= done.push(token@));
                        match lex(chars@.skip(next as int)) {
                            Some(more) => {
                                assert(done + (seq![token@] + more) =~= done.push(token@) + more);
                            },
                            None => {},
                        }
                    }
                    tokens.push(token);
                    pos = next;
                },
                None => {
                    return Err(ParseError::Syntax);
                },
            }
        }
    }
}

} // verus!

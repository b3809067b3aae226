//! The lexical grammar as mathematics: character classes, the token
//! categories, and `tokenize_from`, the meaning of a scan.
use vstd::prelude::*;

verus! {

/// The lexical role of a token.
#[derive(Clone, Copy, Debug, PartialEq, Eq, Structural)]
pub enum Category {
    LiteralInt,
    Identifier,
    KeywordTypeInt,
    KeywordMain,
    KeywordVoid,
    KeywordReturn,
    Plus,
    Minus,
    Star,
    Slash,
    PuncLeftParen,
    PuncRightParen,
    PuncLeftBrace,
    PuncRightBrace,
    PuncSemiColon,
}

/// A token as the grammar sees it: its lexeme and its category.
pub type TokenModel = (Seq<char>, Category);

/// An error as the grammar sees it: the offending character and its offset.
pub type ErrorModel = (char, nat);

/// Space, tab, newline and carriage return separate tokens.
pub open spec fn is_space(c: char) -> bool {
    c == ' ' || c == '\t' || c == '\n' || c == '\r'
}

pub open spec fn is_digit(c: char) -> bool {
    '0' <= c && c <= '9'
}

pub open spec fn is_letter(c: char) -> bool {
    ('a' <= c && c <= 'z') || ('A' <= c && c <= 'Z')
}

/// The characters that may follow the first letter of a word.
pub open spec fn is_word_char(c: char) -> bool {
    is_letter(c) || is_digit(c)
}

/// The category of a one-character operator or punctuation mark.
pub open spec fn single_category(c: char) -> Option<Category> {
    if c == '+' {
        Some(Category::Plus)
    } else if c == '-' {
        Some(Category::Minus)
    } else if c == '*' {
        Some(Category::Star)
    } else if c == '/' {
        Some(Category::Slash)
    } else if c == '(' {
        Some(Category::PuncLeftParen)
    } else if c == ')' {
        Some(Category::PuncRightParen)
    } else if c == '{' {
        Some(Category::PuncLeftBrace)
    } else if c == '}' {
        Some(Category::PuncRightBrace)
    } else if c == ';' {
        Some(Category::PuncSemiColon)
    } else {
        None
    }
}

/// The reserved words, matched exactly and case-sensitively.
pub open spec fn keyword(w: Seq<char>) -> Option<Category> {
    if w == seq!['i', 'n', 't'] {
        Some(Category::KeywordTypeInt)
    } else if w == seq!['m', 'a', 'i', 'n'] {
        Some(Category::KeywordMain)
    } else if w == seq!['v', 'o', 'i', 'd'] {
        Some(Category::KeywordVoid)
    } else if w == seq!['r', 'e', 't', 'u', 'r', 'n'] {
        Some(Category::KeywordReturn)
    } else {
        None
    }
}

/// A word is a keyword when the table has it, an identifier otherwise.
pub open spec fn word_category(w: Seq<char>) -> Category {
    match keyword(w) {
        Some(k) => k,
        None => Category::Identifier,
    }
}

/// A character that can begin a token.
pub open spec fn starts_lexeme(c: char) -> bool {
    is_digit(c) || is_letter(c) || single_category(c) is Some
}

/// A character that is allowed anywhere in a source: a space or a token start.
pub open spec fn is_recognized(c: char) -> bool {
    is_space(c) || starts_lexeme(c)
}

/// How many spaces follow position `i` in a row.
pub open spec fn space_run(s: Seq<char>, i: int) -> nat
    decreases s.len() - i,
{
    if 0 <= i < s.len() && is_space(s[i]) {
        1 + space_run(s, i + 1)
    } else {
        0
    }
}

/// How many digits follow position `i` in a row.
pub open spec fn digit_run(s: Seq<char>, i: int) -> nat
    decreases s.len() - i,
{
    if 0 <= i < s.len() && is_digit(s[i]) {
        1 + digit_run(s, i + 1)
    } else {
        0
    }
}

/// How many letters and digits follow position `i` in a row.
pub open spec fn word_run(s: Seq<char>, i: int) -> nat
    decreases s.len() - i,
{
    if 0 <= i < s.len() && is_word_char(s[i]) {
        1 + word_run(s, i + 1)
    } else {
        0
    }
}

/// Where the lexeme that starts at `i` ends: the longest digit run for a
/// literal, the longest run of letters and digits for a word, one
/// character otherwise.
pub open spec fn lexeme_end(s: Seq<char>, i: int) -> int {
    if is_digit(s[i]) {
        i + 1 + digit_run(s, i + 1)
    } else if is_letter(s[i]) {
        i + 1 + word_run(s, i + 1)
    } else {
        i + 1
    }
}

/// The category of the lexeme that starts at `i` and ends at `j`.
pub open spec fn lexeme_category(s: Seq<char>, i: int, j: int) -> Category {
    if is_digit(s[i]) {
        Category::LiteralInt
    } else if is_letter(s[i]) {
        word_category(s.subrange(i, j))
    } else {
        single_category(s[i]).unwrap()
    }
}

/// The tokens of `s` from position `i` on, or the first character there
/// that begins no token.
pub open spec fn tokenize_from(s: Seq<char>, i: int) -> Result<Seq<TokenModel>, ErrorModel>
    decreases s.len() - i,
{
    if i < 0 || i >= s.len() {
        Ok(seq![])
    } else if is_space(s[i]) {
        tokenize_from(s, i + 1)
    } else if !starts_lexeme(s[i]) {
        Err((s[i], i as nat))
    } else {
        let j = lexeme_end(s, i);
        proof {
            lemma_lexeme_end_bounds(s, i);
        }
        prepend(seq![(s.subrange(i, j), lexeme_category(s, i, j))], tokenize_from(s, j))
    }
}

/// The tokens of a whole source.
pub open spec fn tokenize(s: Seq<char>) -> Result<Seq<TokenModel>, ErrorModel> {
    tokenize_from(s, 0)
}

/// Tokens `p` followed by those of `r`; an error stays as it is.
pub open spec fn prepend(p: Seq<TokenModel>, r: Result<Seq<TokenModel>, ErrorModel>) -> Result<
    Seq<TokenModel>,
    ErrorModel,
> {
    match r {
        Ok(rest) => Ok(p + rest),
        Err(e) => Err(e),
    }
}

pub proof fn lemma_space_run_bounds(s: Seq<char>, i: int)
    requires
        0 <= i <= s.len(),
    ensures
        i + space_run(s, i) <= s.len(),
        forall|k: int| i <= k < i + space_run(s, i) ==> is_space(#[trigger] s[k]),
        i + space_run(s, i) < s.len() ==> !is_space(s[i + space_run(s, i)]),
    decreases s.len() - i,
{
    if i < s.len() && is_space(s[i]) {
        lemma_space_run_bounds(s, i + 1);
    }
}

pub proof fn lemma_digit_run_bounds(s: Seq<char>, i: int)
    requires
        0 <= i <= s.len(),
    ensures
        i + digit_run(s, i) <= s.len(),
        forall|k: int| i <= k < i + digit_run(s, i) ==> is_digit(#[trigger] s[k]),
        i + digit_run(s, i) < s.len() ==> !is_digit(s[i + digit_run(s, i)]),
    decreases s.len() - i,
{
    if i < s.len() && is_digit(s[i]) {
        lemma_digit_run_bounds(s, i + 1);
    }
}

pub proof fn lemma_word_run_bounds(s: Seq<char>, i: int)
    requires
        0 <= i <= s.len(),
    ensures
        i + word_run(s, i) <= s.len(),
        forall|k: int| i <= k < i + word_run(s, i) ==> is_word_char(#[trigger] s[k]),
        i + word_run(s, i) < s.len() ==> !is_word_char(s[i + word_run(s, i)]),
    decreases s.len() - i,
{
    if i < s.len() && is_word_char(s[i]) {
        lemma_word_run_bounds(s, i + 1);
    }
}

/// A lexeme is never empty and never runs past the end of the source.
pub proof fn lemma_lexeme_end_bounds(s: Seq<char>, i: int)
    requires
        0 <= i < s.len(),
    ensures
        i < lexeme_end(s, i) <= s.len(),
{
    lemma_digit_run_bounds(s, i + 1);
    lemma_word_run_bounds(s, i + 1);
}

/// Whitespace before position `i` changes nothing that follows it.
pub proof fn lemma_skip_spaces(s: Seq<char>, i: int)
    requires
        0 <= i <= s.len(),
    ensures
        tokenize_from(s, i) == tokenize_from(s, i + space_run(s, i)),
    decreases s.len() - i,
{
    if i < s.len() && is_space(s[i]) {
        lemma_skip_spaces(s, i + 1);
    }
}

pub proof fn lemma_prepend_assoc(p: Seq<TokenModel>, q: Seq<TokenModel>, r: Result<Seq<TokenModel>, ErrorModel>)
    ensures
        prepend(p, prepend(q, r)) == prepend(p + q, r),
{
    if let Ok(rest) = r {
        assert(p + (q + rest) =~= (p + q) + rest);
    }
}

} // verus!

//! The scanner: turns a character sequence into tokens in one pass over
//! the input, with an index that only moves forward.
use vstd::prelude::*;
use vstd::std_specs::cmp::PartialEqSpec;

use crate::grammar::{
    digit_run, is_digit, is_letter, is_space, keyword, lemma_digit_run_bounds,
    lemma_lexeme_end_bounds, lemma_prepend_assoc, lemma_skip_spaces, lemma_space_run_bounds,
    lemma_word_run_bounds, lexeme_end, prepend, single_category, space_run, tokenize,
    tokenize_from, word_category, word_run, Category, ErrorModel, TokenModel,
};

verus! {

/// A lexeme together with its category.
#[derive(Debug)]
pub struct Token {
    pub lexeme: String,
    pub category: Category,
}

impl View for Token {
    type V = TokenModel;

    open spec fn view(&self) -> TokenModel {
        (self.lexeme@, self.category)
    }
}

impl PartialEq for Token {
    fn eq(&self, o: &Token) -> (r: bool) {
        self.lexeme == o.lexeme && self.category == o.category
    }
}

impl vstd::std_specs::cmp::PartialEqSpecImpl for Token {
    open spec fn obeys_eq_spec() -> bool {
        true
    }

    open spec fn eq_spec(&self, o: &Token) -> bool {
        self@ == o@
    }
}

/// Why a scan failed.
#[derive(Clone, Copy, Debug, PartialEq, Eq, Structural)]
pub enum LexError {
    /// A character that begins no token, and its offset in the input.
    UnrecognizedCharacter { character: char, offset: usize },
}

impl View for LexError {
    type V = ErrorModel;

    open spec fn view(&self) -> ErrorModel {
        match self {
            LexError::UnrecognizedCharacter { character, offset } => (*character, *offset as nat),
        }
    }
}

pub open spec fn tokens_view(v: Seq<Token>) -> Seq<TokenModel> {
    v.map_values(|t: Token| t@)
}

/// What a scan returned, as the grammar sees it.
pub open spec fn scan_view(r: Result<Vec<Token>, LexError>) -> Result<Seq<TokenModel>, ErrorModel> {
    match r {
        Ok(v) => Ok(tokens_view(v@)),
        Err(e) => Err(e@),
    }
}

/// Relies on String::push: appends the character to the end of the string.
#[verifier::external_body]
fn push_char(s: &mut String, c: char)
    ensures
        final(s)@ == old(s)@.push(c),
{
    s.push(c)
}

fn is_space_char(c: char) -> (r: bool)
    ensures
        r == is_space(c),
{
    c == ' ' || c == '\t' || c == '\n' || c == '\r'
}

fn is_digit_char(c: char) -> (r: bool)
    ensures
        r == is_digit(c),
{
    '0' <= c && c <= '9'
}

fn is_letter_char(c: char) -> (r: bool)
    ensures
        r == is_letter(c),
{
    ('a' <= c && c <= 'z') || ('A' <= c && c <= 'Z')
}

/// The position of the first character at or after `i` that is not a space.
pub fn skip_whitespace_from(input: &Vec<char>, i: usize) -> (j: usize)
    requires
        i <= input@.len(),
    ensures
        j == i + space_run(input@, i as int),
        j <= input@.len(),
        j < input@.len() ==> !is_space(input@[j as int]),
{
    proof {
        lemma_space_run_bounds(input@, i as int);
    }
    let mut j: usize = i;
    while j < input.len() && is_space_char(input[j])
        invariant
            i <= j <= input@.len(),
            space_run(input@, i as int) == (j - i) + space_run(input@, j as int),
        decreases input@.len() - j,
    {
        j = j + 1;
    }
    j
}

/// The input without its leading whitespace: what is dropped is all
/// whitespace, and what is kept does not start with any.
pub fn skip_whitespace(input: Vec<char>) -> (r: Vec<char>)
    ensures
        r@ == input@.subrange(space_run(input@, 0) as int, input@.len() as int),
        r@.len() <= input@.len(),
        r@ == input@.subrange(input@.len() - r@.len(), input@.len() as int),
        forall|k: int| 0 <= k < input@.len() - r@.len() ==> is_space(#[trigger] input@[k]),
        r@.len() > 0 ==> !is_space(r@[0]),
{
    proof {
        lemma_space_run_bounds(input@, 0);
    }
    let start = skip_whitespace_from(&input, 0);
    let mut r: Vec<char> = Vec::new();
    let mut k: usize = start;
    while k < input.len()
        invariant
            start <= k <= input@.len(),
            start == space_run(input@, 0),
            r@ == input@.subrange(start as int, k as int),
        decreases input@.len() - k,
    {
        r.push(input[k]);
        proof {
            assert(input@.subrange(start as int, k + 1) =~= input@.subrange(start as int, k as int).push(input@[k as int]));
        }
        k = k + 1;
    }
    r
}

/// A string of one character.
fn single(c: char) -> (r: String)
    ensures
        r@ == seq![c],
{
    let mut r = String::new();
    push_char(&mut r, c);
    r
}

/// The reserved word, if any, that the characters from `start` to `end` spell.
fn keyword_at(input: &Vec<char>, start: usize, end: usize) -> (r: Option<Category>)
    requires
        start <= end <= input@.len(),
    ensures
        r == keyword(input@.subrange(start as int, end as int)),
{
    let w = Ghost(input@.subrange(start as int, end as int));
    let len = end - start;
    if len == 3 && input[start] == 'i' && input[start + 1] == 'n' && input[start + 2] == 't' {
        assert(w@ =~= seq!['i', 'n', 't']);
        Some(Category::KeywordTypeInt)
    } else if len == 4 && input[start] == 'm' && input[start + 1] == 'a' && input[start + 2] == 'i'
        && input[start + 3] == 'n' {
        assert(w@ =~= seq!['m', 'a', 'i', 'n']);
        Some(Category::KeywordMain)
    } else if len == 4 && input[start] == 'v' && input[start + 1] == 'o' && input[start + 2] == 'i'
        && input[start + 3] == 'd' {
        assert(w@ =~= seq!['v', 'o', 'i', 'd']);
        Some(Category::KeywordVoid)
    } else if len == 6 && input[start] == 'r' && input[start + 1] == 'e' && input[start + 2] == 't'
        && input[start + 3] == 'u' && input[start + 4] == 'r' && input[start + 5] == 'n' {
        assert(w@ =~= seq!['r', 'e', 't', 'u', 'r', 'n']);
        Some(Category::KeywordReturn)
    } else {
        assert(w@ != seq!['i', 'n', 't']) by {
            if w@ == seq!['i', 'n', 't'] {
                assert(w@.len() == 3);
                assert(w@[0] == 'i' && w@[1] == 'n' && w@[2] == 't');
                assert(w@[0] == input@[start as int] && w@[1] == input@[start + 1] && w@[2] == input@[start + 2]);
            }
        }
        assert(w@ != seq!['m', 'a', 'i', 'n']) by {
            if w@ == seq!['m', 'a', 'i', 'n'] {
                assert(w@.len() == 4);
                assert(w@[0] == 'm' && w@[1] == 'a' && w@[2] == 'i' && w@[3] == 'n');
                assert(w@[0] == input@[start as int] && w@[1] == input@[start + 1] && w@[2] == input@[start + 2] && w@[3] == input@[start + 3]);
            }
        }
        assert(w@ != seq!['v', 'o', 'i', 'd']) by {
            if w@ == seq!['v', 'o', 'i', 'd'] {
                assert(w@.len() == 4);
                assert(w@[0] == 'v' && w@[1] == 'o' && w@[2] == 'i' && w@[3] == 'd');
                assert(w@[0] == input@[start as int] && w@[1] == input@[start + 1] && w@[2] == input@[start + 2] && w@[3] == input@[start + 3]);
            }
        }
        assert(w@ != seq!['r', 'e', 't', 'u', 'r', 'n']) by {
            if w@ == seq!['r', 'e', 't', 'u', 'r', 'n'] {
                assert(w@.len() == 6);
                assert(w@[0] == 'r' && w@[1] == 'e' && w@[2] == 't' && w@[3] == 'u' && w@[4] == 'r' && w@[5] == 'n');
                assert(w@[0] == input@[start as int] && w@[1] == input@[start + 1] && w@[2] == input@[start + 2] && w@[3] == input@[start + 3] && w@[4] == input@[start + 4] && w@[5] == input@[start + 5]);
            }
        }
        None
    }
}

/// Scans the integer literal that starts after any whitespace at `i`: the
/// longest run of digits there. Returns the token and where it ends.
pub fn scan_int(input: &Vec<char>, i: usize) -> (r: (Token, usize))
    requires
        i + space_run(input@, i as int) < input@.len(),
        is_digit(input@[i + space_run(input@, i as int)]),
    ensures
        ({
            let start = i + space_run(input@, i as int);
            &&& r.1 == lexeme_end(input@, start)
            &&& r.0@ == (input@.subrange(start, r.1 as int), Category::LiteralInt)
        }),
{
    let n = input.len();
    let start = skip_whitespace_from(input, i);
    proof {
        lemma_digit_run_bounds(input@, start + 1);
    }
    let mut lexeme = String::new();
    push_char(&mut lexeme, input[start]);
    let mut j: usize = start + 1;
    assert(lexeme@ =~= input@.subrange(start as int, j as int));
    while j < input.len() && is_digit_char(input[j])
        invariant
            start < j <= input@.len(),
            lexeme@ == input@.subrange(start as int, j as int),
            digit_run(input@, start + 1) == (j - start - 1) + digit_run(input@, j as int),
        decreases input@.len() - j,
    {
        push_char(&mut lexeme, input[j]);
        assert(input@.subrange(start as int, j + 1) =~= input@.subrange(start as int, j as int).push(input@[j as int]));
        j = j + 1;
    }
    (Token { lexeme, category: Category::LiteralInt }, j)
}

/// Scans the word that starts after any whitespace at `i`: a letter and
/// then the longest run of letters and digits. A reserved word gets its
/// keyword category, any other word is an identifier.
pub fn scan_id(input: &Vec<char>, i: usize) -> (r: (Token, usize))
    requires
        i + space_run(input@, i as int) < input@.len(),
        is_letter(input@[i + space_run(input@, i as int)]),
    ensures
        ({
            let start = i + space_run(input@, i as int);
            let w = input@.subrange(start, r.1 as int);
            &&& r.1 == lexeme_end(input@, start)
            &&& r.0@ == (w, word_category(w))
        }),
{
    let n = input.len();
    let start = skip_whitespace_from(input, i);
    proof {
        lemma_word_run_bounds(input@, start + 1);
    }
    let mut lexeme = String::new();
    push_char(&mut lexeme, input[start]);
    let mut j: usize = start + 1;
    assert(lexeme@ =~= input@.subrange(start as int, j as int));
    while j < input.len() && (is_letter_char(input[j]) || is_digit_char(input[j]))
        invariant
            start < j <= input@.len(),
            lexeme@ == input@.subrange(start as int, j as int),
            word_run(input@, start + 1) == (j - start - 1) + word_run(input@, j as int),
        decreases input@.len() - j,
    {
        push_char(&mut lexeme, input[j]);
        assert(input@.subrange(start as int, j + 1) =~= input@.subrange(start as int, j as int).push(input@[j as int]));
        j = j + 1;
    }
    let category = match keyword_at(input, start, j) {
        Some(k) => k,
        None => Category::Identifier,
    };
    (Token { lexeme, category }, j)
}

/// Tokenizes the whole input, left to right. Each step skips whitespace,
/// then reads one lexeme by its first character: a digit starts a literal,
/// a letter a word, and each operator or punctuation mark is a token of its
/// own. The first character that begins no token ends the scan with an
/// error, and no token is returned.
pub fn scan(input: Vec<char>) -> (r: Result<Vec<Token>, LexError>)
    ensures
        scan_view(r) == tokenize(input@),
{
    let n = input.len();
    let mut tokens: Vec<Token> = Vec::new();
    let mut i: usize = 0;
    assert(tokens_view(tokens@) =~= seq![]);
    while i < n
        invariant
            i <= n == input@.len(),
            tokenize(input@) == prepend(tokens_view(tokens@), tokenize_from(input@, i as int)),
        decreases n - i,
    {
        let ghost s = input@;
        proof {
            lemma_skip_spaces(s, i as int);
        }
        i = skip_whitespace_from(&input, i);
        if i < n {
            let c = input[i];
            let ghost tokens_before = tokens_view(tokens@);
            if is_digit_char(c) || is_letter_char(c) {
                let (t, j) = if is_digit_char(c) {
                    scan_int(&input, i)
                } else {
                    scan_id(&input, i)
                };
                proof {
                    lemma_lexeme_end_bounds(s, i as int);
                    assert(tokenize_from(s, i as int) == prepend(seq![t@], tokenize_from(s, j as int)));
                    lemma_prepend_assoc(tokens_before, seq![t@], tokenize_from(s, j as int));
                }
                tokens.push(t);
                assert(tokens_view(tokens@) =~= tokens_before + seq![t@]);
                i = j;
            } else {
                match single_token(c) {
                    Some(t) => {
                        proof {
                            assert(s.subrange(i as int, i + 1) =~= seq![c]);
                            assert(tokenize_from(s, i as int) == prepend(seq![t@], tokenize_from(s, i + 1)));
                            lemma_prepend_assoc(tokens_before, seq![t@], tokenize_from(s, i + 1));
                        }
                        tokens.push(t);
                        assert(tokens_view(tokens@) =~= tokens_before + seq![t@]);
                        i = i + 1;
                    },
                    None => {
                        return Err(LexError::UnrecognizedCharacter { character: c, offset: i });
                    },
                }
            }
        }
    }
    proof {
        assert(tokens_view(tokens@) + seq![] =~= tokens_view(tokens@));
    }
    Ok(tokens)
}

/// Whether two vectors have the same length and equal items, position by
/// position.
pub fn vecs_match<T: PartialEq>(a: &Vec<T>, b: &Vec<T>) -> (r: bool)
    ensures
        T::obeys_eq_spec() ==> r == (a@.len() == b@.len() && forall|k: int|
            0 <= k < a@.len() ==> (#[trigger] a@[k]).eq_spec(&b@[k])),
{
    if a.len() != b.len() {
        return false;
    }
    let mut k: usize = 0;
    while k < a.len()
        invariant
            k <= a@.len() == b@.len(),
            T::obeys_eq_spec() ==> forall|m: int| 0 <= m < k ==> (#[trigger] a@[m]).eq_spec(&b@[m]),
        decreases a@.len() - k,
    {
        if !(a[k] == b[k]) {
            return false;
        }
        k = k + 1;
    }
    true
}

/// The token of a one-character operator or punctuation mark.
fn single_token(c: char) -> (r: Option<Token>)
    ensures
        match single_category(c) {
            Some(k) => r is Some && r->0@ == (seq![c], k),
            None => r is None,
        },
{
    let category = if c == '+' {
        Category::Plus
    } else if c == '-' {
        Category::Minus
    } else if c == '*' {
        Category::Star
    } else if c == '/' {
        Category::Slash
    } else if c == '(' {
        Category::PuncLeftParen
    } else if c == ')' {
        Category::PuncRightParen
    } else if c == '{' {
        Category::PuncLeftBrace
    } else if c == '}' {
        Category::PuncRightBrace
    } else if c == ';' {
        Category::PuncSemiColon
    } else {
        return None;
    };
    Some(Token { lexeme: single(c), category })
}

} // verus!

//! What holds of every scan, proved over the grammar's `tokenize_from`.
use vstd::prelude::*;

use crate::grammar::{
    digit_run, is_digit, is_letter, is_recognized, is_space, keyword, lemma_digit_run_bounds,
    lemma_lexeme_end_bounds, lemma_word_run_bounds, lexeme_category, lexeme_end, prepend,
    single_category, starts_lexeme, tokenize, tokenize_from, word_category, word_run, Category,
    ErrorModel, TokenModel,
};

verus! {

/// The same result with an error's offset moved `d` places to the right.
pub open spec fn shift_error(r: Result<Seq<TokenModel>, ErrorModel>, d: nat) -> Result<
    Seq<TokenModel>,
    ErrorModel,
> {
    match r {
        Ok(v) => Ok(v),
        Err(e) => Err((e.0, e.1 + d)),
    }
}

pub open spec fn all_spaces(w: Seq<char>) -> bool {
    forall|k: int| 0 <= k < w.len() ==> is_space(#[trigger] w[k])
}

proof fn lemma_runs_shift(a: Seq<char>, b: Seq<char>, k: int)
    requires
        0 <= k <= b.len(),
    ensures
        digit_run(a + b, a.len() + k) == digit_run(b, k),
        word_run(a + b, a.len() + k) == word_run(b, k),
    decreases b.len() - k,
{
    if k < b.len() {
        assert((a + b)[a.len() + k] == b[k]);
        lemma_runs_shift(a, b, k + 1);
    }
}

proof fn lemma_tokenize_shift(a: Seq<char>, b: Seq<char>, k: int)
    requires
        0 <= k <= b.len(),
    ensures
        tokenize_from(a + b, a.len() + k) == shift_error(tokenize_from(b, k), a.len()),
    decreases b.len() - k,
{
    let s = a + b;
    let i = a.len() + k;
    if k < b.len() {
        assert(s[i] == b[k]);
        if is_space(b[k]) {
            lemma_tokenize_shift(a, b, k + 1);
        } else if starts_lexeme(b[k]) {
            lemma_runs_shift(a, b, k + 1);
            lemma_lexeme_end_bounds(b, k);
            let j = lexeme_end(b, k);
            assert(lexeme_end(s, i) == a.len() + j);
            assert(s.subrange(i, a.len() + j) =~= b.subrange(k, j));
            assert(lexeme_category(s, i, a.len() + j) == lexeme_category(b, k, j));
            lemma_tokenize_shift(a, b, j);
        }
    }
}

proof fn lemma_space_prefix(w: Seq<char>, c: Seq<char>, k: int)
    requires
        0 <= k <= w.len(),
        all_spaces(w),
    ensures
        tokenize_from(w + c, k) == tokenize_from(w + c, w.len() as int),
    decreases w.len() - k,
{
    if k < w.len() {
        assert((w + c)[k] == w[k]);
        lemma_space_prefix(w, c, k + 1);
    }
}

/// Whitespace inserted at any point changes none of the tokens scanned from
/// that point on; an error found there moves right by the whitespace's length.
pub proof fn lemma_resume_after_whitespace(s: Seq<char>, p: int, w: Seq<char>)
    requires
        0 <= p <= s.len(),
        all_spaces(w),
    ensures
        tokenize_from(s.subrange(0, p) + w + s.subrange(p, s.len() as int), p) == shift_error(
            tokenize_from(s, p),
            w.len(),
        ),
{
    let a = s.subrange(0, p);
    let c = s.subrange(p, s.len() as int);
    assert(a + w + c =~= a + (w + c));
    assert(s =~= a + c);
    lemma_tokenize_shift(a, w + c, 0);
    lemma_space_prefix(w, c, 0);
    lemma_tokenize_shift(w, c, 0);
    lemma_tokenize_shift(a, c, 0);
}

/// Leading whitespace changes no token of a source.
pub proof fn lemma_leading_whitespace(s: Seq<char>, w: Seq<char>)
    requires
        all_spaces(w),
    ensures
        tokenize(w + s) == shift_error(tokenize(s), w.len()),
{
    lemma_resume_after_whitespace(s, 0, w);
    assert(s.subrange(0, 0) + w + s.subrange(0, s.len() as int) =~= w + s);
}

/// A run of digits is one literal, never split.
pub proof fn lemma_digits_one_literal(s: Seq<char>)
    requires
        s.len() > 0,
        forall|k: int| 0 <= k < s.len() ==> is_digit(#[trigger] s[k]),
    ensures
        tokenize(s) == Ok::<Seq<TokenModel>, ErrorModel>(seq![(s, Category::LiteralInt)]),
{
    lemma_digit_run_bounds(s, 1);
    assert(lexeme_end(s, 0) == s.len());
    assert(s.subrange(0, s.len() as int) =~= s);
    assert(seq![(s, Category::LiteralInt)] + Seq::<TokenModel>::empty() =~= seq![(s, Category::LiteralInt)]);
    assert(is_digit(s[0]));
    assert(tokenize_from(s, s.len() as int) == Ok::<Seq<TokenModel>, ErrorModel>(seq![]));
    assert(tokenize_from(s, 0) == prepend(
        seq![(s.subrange(0, s.len() as int), lexeme_category(s, 0, s.len() as int))],
        tokenize_from(s, s.len() as int),
    ));
}

/// Each operator and punctuation mark alone is one token of its fixed category.
pub proof fn lemma_single_character(c: char)
    requires
        single_category(c) is Some,
    ensures
        tokenize(seq![c]) == Ok::<Seq<TokenModel>, ErrorModel>(
            seq![(seq![c], single_category(c).unwrap())],
        ),
{
    let s = seq![c];
    assert(s[0] == c);
    assert(s.subrange(0, 1) =~= s);
    let t = seq![(s, single_category(c).unwrap())];
    assert(t + Seq::<TokenModel>::empty() =~= t);
    assert(lexeme_end(s, 0) == 1);
    assert(tokenize_from(s, 1) == Ok::<Seq<TokenModel>, ErrorModel>(seq![]));
    assert(tokenize_from(s, 0) == prepend(seq![(s.subrange(0, 1), lexeme_category(s, 0, 1))], tokenize_from(s, 1)));
}

/// Every token that comes out of a successful scan from `i` has a category
/// that agrees with its lexeme: an identifier is never a reserved word, and a
/// keyword is exactly its word.
proof fn lemma_categories_from(s: Seq<char>, i: int)
    requires
        0 <= i,
    ensures
        tokenize_from(s, i) is Ok ==> words_agree(tokenize_from(s, i)->Ok_0),
    decreases s.len() - i,
{
    if i < s.len() {
        if is_space(s[i]) {
            lemma_categories_from(s, i + 1);
        } else if starts_lexeme(s[i]) {
            lemma_lexeme_end_bounds(s, i);
            let j = lexeme_end(s, i);
            lemma_categories_from(s, j);
            if let Ok(rest) = tokenize_from(s, j) {
                let head = (s.subrange(i, j), lexeme_category(s, i, j));
                let v = seq![head] + rest;
                assert forall|k: int| 0 <= k < v.len() implies agrees(#[trigger] v[k]) by {
                    if k > 0 {
                        assert(v[k] == rest[k - 1]);
                    }
                }
            }
        }
    }
}

/// A token's category agrees with its lexeme.
pub open spec fn agrees(t: TokenModel) -> bool {
    &&& t.1 == Category::Identifier ==> keyword(t.0) is None
    &&& keyword(t.0) is Some && t.1 != Category::LiteralInt ==> t.1 == keyword(t.0).unwrap()
}

pub open spec fn words_agree(v: Seq<TokenModel>) -> bool {
    forall|k: int| 0 <= k < v.len() ==> agrees(#[trigger] v[k])
}

/// Keywords and identifiers are told apart when a word is read: no
/// identifier that a scan returns is a reserved word.
pub proof fn lemma_identifier_never_keyword(s: Seq<char>)
    ensures
        tokenize(s) is Ok ==> words_agree(tokenize(s)->Ok_0),
{
    lemma_categories_from(s, 0);
}

proof fn lemma_error_ahead(s: Seq<char>, i: int, p: int)
    requires
        0 <= i <= p < s.len(),
        !is_recognized(s[p]),
        forall|k: int| 0 <= k < p ==> is_recognized(#[trigger] s[k]),
    ensures
        tokenize_from(s, i) == Err::<Seq<TokenModel>, ErrorModel>((s[p], p as nat)),
    decreases p - i,
{
    if i < p {
        assert(is_recognized(s[i]));
        if is_space(s[i]) {
            lemma_error_ahead(s, i + 1, p);
        } else {
            lemma_digit_run_bounds(s, i + 1);
            lemma_word_run_bounds(s, i + 1);
            lemma_lexeme_end_bounds(s, i);
            let j = lexeme_end(s, i);
            if j > p {
                assert(is_digit(s[p]) || is_letter(s[p]));
            }
            lemma_error_ahead(s, j, p);
        }
    }
}

/// A scan fails at the first character that begins no token, reporting that
/// character and its offset, and returns no token.
pub proof fn lemma_first_unrecognized(s: Seq<char>, p: int)
    requires
        0 <= p < s.len(),
        !is_recognized(s[p]),
        forall|k: int| 0 <= k < p ==> is_recognized(#[trigger] s[k]),
    ensures
        tokenize(s) == Err::<Seq<TokenModel>, ErrorModel>((s[p], p as nat)),
{
    lemma_error_ahead(s, 0, p);
}

} // verus!

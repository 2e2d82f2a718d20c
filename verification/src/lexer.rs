//! The lexer: a single left-to-right pass that groups characters into
//! maximal runs and classifies each run as a token.
//!
//! [`lex`] says what the tokens of a character sequence are; [`tokenize`]
//! and [`tokenize_chars`] compute them. At each step the scan looks at the
//! first character that is left:
//!
//! - a letter starts an identifier, which runs on over letters and digits
//!   and becomes `Return` if it spells the keyword, a `Variable` otherwise;
//! - a digit starts a numeral, which runs on over digits and becomes a
//!   `Literal`;
//! - a semicolon becomes a `Semicolon`;
//! - any other character is passed over.

use vstd::prelude::*;
use crate::charclass::{alphabetic, alphanumeric, numeric};
use crate::token::{keyword, Token, TokenView};

verus! {

/// Length of the longest prefix of `s` whose characters all satisfy `class`.
pub open spec fn run_len(s: Seq<char>, class: spec_fn(char) -> bool) -> nat
    decreases s.len(),
{
    if s.len() > 0 && class(s[0]) {
        1 + run_len(s.drop_first(), class)
    } else {
        0
    }
}

/// Length of the identifier run at the head of `s`.
pub open spec fn identifier_len(s: Seq<char>) -> nat {
    run_len(s, |c: char| alphanumeric(c))
}

/// Length of the numeral run at the head of `s`.
pub open spec fn numeral_len(s: Seq<char>) -> nat {
    run_len(s, |c: char| numeric(c))
}

/// The token for an identifier run: the keyword on an exact match, a
/// variable otherwise.
pub open spec fn word(run: Seq<char>) -> TokenView {
    if run == keyword() {
        TokenView::Return
    } else {
        TokenView::Variable(run)
    }
}

/// Number of characters that the first step of the scan consumes from a
/// non-empty `s`: a whole run, or a single character.
pub open spec fn step_len(s: Seq<char>) -> nat {
    if alphabetic(s[0]) {
        identifier_len(s)
    } else if numeric(s[0]) {
        numeral_len(s)
    } else {
        1
    }
}

/// The token, if any, that the first step of the scan yields from a
/// non-empty `s`.
pub open spec fn step_token(s: Seq<char>) -> Option<TokenView> {
    if alphabetic(s[0]) {
        Some(word(s.take(identifier_len(s) as int)))
    } else if numeric(s[0]) {
        Some(TokenView::Literal(s.take(numeral_len(s) as int)))
    } else if s[0] == ';' {
        Some(TokenView::Semicolon)
    } else {
        None
    }
}

/// The tokens of `s`, in source order.
pub open spec fn lex(s: Seq<char>) -> Seq<TokenView>
    decreases s.len(),
{
    if s.len() == 0 {
        Seq::empty()
    } else {
        proof {
            lemma_step_len_bounds(s);
        }
        let rest = lex(s.skip(step_len(s) as int));
        match step_token(s) {
            Some(token) => seq![token] + rest,
            None => rest,
        }
    }
}

/// The characters that the scan passes over: no token holds them.
pub open spec fn skipped(c: char) -> bool {
    !alphanumeric(c) && c != ';'
}

/// The positions of the skipped characters of `s`, in increasing order.
pub open spec fn skipped_positions(s: Seq<char>) -> Seq<int> {
    Seq::new(s.len(), |i: int| i).filter(|i: int| skipped(s[i]))
}

/// A run is a prefix: it is no longer than the sequence, all its characters
/// are in the class, and the character after it, if any, is not.
pub proof fn lemma_run_len(s: Seq<char>, class: spec_fn(char) -> bool)
    ensures
        run_len(s, class) <= s.len(),
        forall|i: int| 0 <= i < run_len(s, class) ==> class(#[trigger] s[i]),
        run_len(s, class) < s.len() ==> !class(s[run_len(s, class) as int]),
    decreases s.len(),
{
    if s.len() > 0 && class(s[0]) {
        let tail = s.drop_first();
        lemma_run_len(tail, class);
        assert forall|i: int| 0 <= i < run_len(s, class) implies class(#[trigger] s[i]) by {
            if i > 0 {
                assert(s[i] == tail[i - 1]);
            }
        }
        if run_len(s, class) < s.len() {
            assert(s[run_len(s, class) as int] == tail[run_len(tail, class) as int]);
        }
    }
}

/// The first step of the scan consumes at least one character and no more
/// than there are.
pub proof fn lemma_step_len_bounds(s: Seq<char>)
    requires
        s.len() > 0,
    ensures
        1 <= step_len(s) <= s.len(),
{
    lemma_run_len(s, |c: char| alphanumeric(c));
    lemma_run_len(s, |c: char| numeric(c));
}

/// Assumed of `String::push` of the standard library: it appends the
/// character to the end of the string and changes nothing else.
pub assume_specification[ String::push ](s: &mut String, c: char)
    ensures
        final(s)@ == old(s)@.push(c),
;

/// The first index at or after `start` whose character is not alphanumeric,
/// or the length of `chars` if there is none.
fn identifier_end(chars: &[char], start: usize) -> (end: usize)
    requires
        start <= chars.len(),
    ensures
        end == start + identifier_len(chars@.skip(start as int)),
        start <= end <= chars.len(),
{
    let mut end = start;
    while end < chars.len() && chars[end].is_alphanumeric()
        invariant
            start <= end <= chars.len(),
            identifier_len(chars@.skip(start as int)) == (end - start) + identifier_len(
                chars@.skip(end as int),
            ),
        decreases chars.len() - end,
    {
        assert(chars@.skip(end as int).drop_first() =~= chars@.skip(end + 1));
        end += 1;
    }
    end
}

/// The first index at or after `start` whose character is not numeric, or
/// the length of `chars` if there is none.
fn numeral_end(chars: &[char], start: usize) -> (end: usize)
    requires
        start <= chars.len(),
    ensures
        end == start + numeral_len(chars@.skip(start as int)),
        start <= end <= chars.len(),
{
    let mut end = start;
    while end < chars.len() && chars[end].is_numeric()
        invariant
            start <= end <= chars.len(),
            numeral_len(chars@.skip(start as int)) == (end - start) + numeral_len(
                chars@.skip(end as int),
            ),
        decreases chars.len() - end,
    {
        assert(chars@.skip(end as int).drop_first() =~= chars@.skip(end + 1));
        end += 1;
    }
    end
}

/// Copies the characters from `start` up to `end` into a string.
fn run_text(chars: &[char], start: usize, end: usize) -> (text: String)
    requires
        start <= end <= chars.len(),
    ensures
        text@ == chars@.subrange(start as int, end as int),
{
    let mut text = String::new();
    let mut i = start;
    while i < end
        invariant
            start <= i <= end <= chars.len(),
            text@ == chars@.subrange(start as int, i as int),
        decreases end - i,
    {
        text.push(chars[i]);
        assert(text@ =~= chars@.subrange(start as int, i + 1));
        i += 1;
    }
    text
}

/// Whether the characters from `start` up to `end` spell the keyword.
fn is_keyword(chars: &[char], start: usize, end: usize) -> (b: bool)
    requires
        start <= end <= chars.len(),
    ensures
        b == (chars@.subrange(start as int, end as int) == keyword()),
{
    let ghost run = chars@.subrange(start as int, end as int);
    assert(keyword().len() == 6);
    if end - start != 6 {
        return false;
    }
    let b = chars[start] == 'r' && chars[start + 1] == 'e' && chars[start + 2] == 't' && chars[start
        + 3] == 'u' && chars[start + 4] == 'r' && chars[start + 5] == 'n';
    proof {
        assert(run[0] == chars[start as int]);
        assert(run[1] == chars[start + 1]);
        assert(run[2] == chars[start + 2]);
        assert(run[3] == chars[start + 3]);
        assert(run[4] == chars[start + 4]);
        assert(run[5] == chars[start + 5]);
        if b {
            assert(run =~= keyword());
        }
    }
    b
}

/// Tokenizes a sequence of characters.
///
/// The scan never fails: a character that starts no token and is not a
/// semicolon is skipped, and a run that reaches the end of the input ends
/// there.
pub fn tokenize_chars(chars: &[char]) -> (tokens: Vec<Token>)
    ensures
        tokens.deep_view() == lex(chars@),
{
    let mut tokens: Vec<Token> = Vec::new();
    let mut i: usize = 0;
    assert(chars@.skip(0) =~= chars@);
    while i < chars.len()
        invariant
            i <= chars.len(),
            tokens.deep_view() + lex(chars@.skip(i as int)) == lex(chars@),
        decreases chars.len() - i,
    {
        let ghost rest = chars@.skip(i as int);
        let ghost before = tokens.deep_view();
        let c = chars[i];
        proof {
            lemma_step_len_bounds(rest);
            assert(rest.take(step_len(rest) as int) =~= chars@.subrange(
                i as int,
                i + step_len(rest),
            ));
            assert(rest.skip(step_len(rest) as int) =~= chars@.skip(i + step_len(rest)));
        }
        if c.is_alphabetic() {
            let end = identifier_end(chars, i);
            if is_keyword(chars, i, end) {
                tokens.push(Token::Return);
            } else {
                tokens.push(Token::Variable(run_text(chars, i, end)));
            }
            i = end;
        } else if c.is_numeric() {
            let end = numeral_end(chars, i);
            tokens.push(Token::Literal(run_text(chars, i, end)));
            i = end;
        } else if c == ';' {
            tokens.push(Token::Semicolon);
            i += 1;
        } else {
            i += 1;
        }
        proof {
            match step_token(rest) {
                Some(token) => {
                    assert(tokens.deep_view() =~= before.push(token));
                    assert(before.push(token) + lex(chars@.skip(i as int)) =~= before + (seq![
                        token,
                    ] + lex(chars@.skip(i as int))));
                },
                None => {
                    assert(tokens.deep_view() =~= before);
                },
            }
        }
    }
    assert(tokens.deep_view() + Seq::<TokenView>::empty() =~= tokens.deep_view());
    tokens
}

/// Finds the characters that the scan passes over, so that a caller can
/// report them: the result holds their positions in `chars`, in increasing
/// order. White space is among them.
pub fn find_skipped(chars: &[char]) -> (positions: Vec<usize>)
    ensures
        positions@.map_values(|p: usize| p as int) == skipped_positions(chars@),
{
    let ghost is_skipped = |i: int| skipped(chars@[i]);
    let mut positions: Vec<usize> = Vec::new();
    let mut i: usize = 0;
    proof {
        reveal(Seq::filter);
        assert(Seq::new(0, |j: int| j).filter(is_skipped) =~= Seq::<int>::empty());
    }
    while i < chars.len()
        invariant
            i <= chars.len(),
            is_skipped == |i: int| skipped(chars@[i]),
            positions@.map_values(|p: usize| p as int) == Seq::new(i as nat, |j: int| j).filter(
                is_skipped,
            ),
        decreases chars.len() - i,
    {
        let ghost before = positions@.map_values(|p: usize| p as int);
        proof {
            let upto = Seq::new((i + 1) as nat, |j: int| j);
            reveal(Seq::filter);
            assert(upto.drop_last() =~= Seq::new(i as nat, |j: int| j));
            assert(upto.last() == i);
        }
        let c = chars[i];
        if !c.is_alphanumeric() && c != ';' {
            positions.push(i);
            assert(positions@.map_values(|p: usize| p as int) =~= before.push(i as int));
        }
        i += 1;
    }
    positions
}

/// The characters of `source`, in order.
fn source_chars(source: &str) -> (chars: Vec<char>)
    ensures
        chars@ == source@,
{
    let mut chars: Vec<char> = Vec::new();
    for c in it: source.chars()
        invariant
            it.seq() == source@,
            chars@ == source@.take(it.index()),
    {
        chars.push(c);
        assert(chars@ =~= source@.take(it.index() + 1));
    }
    assert(source@.take(source@.len() as int) =~= source@);
    chars
}

/// Tokenizes source text.
///
/// The scan never fails: a character that starts no token and is not a
/// semicolon is skipped, and a run that reaches the end of the input ends
/// there.
pub fn tokenize(source: &str) -> (tokens: Vec<Token>)
    ensures
        tokens.deep_view() == lex(source@),
{
    let chars = source_chars(source);
    tokenize_chars(chars.as_slice())
}

} // verus!

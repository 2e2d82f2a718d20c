//! Laws of the lexer: what holds of `lex` on every input.
//!
//! The laws are public proof functions. Each takes the inputs it speaks of
//! as parameters and states the law in its `ensures`.

use vstd::prelude::*;
use crate::charclass::{alphabetic, alphanumeric, numeric};
use crate::lexer::{
    lemma_run_len, lemma_step_len_bounds, lex, run_len, skipped, step_len, step_token, word,
};
use crate::token::{is_identifier, is_numeral, join, keyword, texts, TokenView};

verus! {

/// Filtering keeps nothing of a sequence in which nothing passes.
proof fn lemma_filter_none<A>(s: Seq<A>, pred: spec_fn(A) -> bool)
    requires
        forall|i: int| 0 <= i < s.len() ==> !pred(#[trigger] s[i]),
    ensures
        s.filter(pred).len() == 0,
    decreases s.len(),
{
    reveal(Seq::filter);
    if s.len() > 0 {
        let init = s.drop_last();
        assert forall|i: int| 0 <= i < init.len() implies !pred(#[trigger] init[i]) by {
            assert(init[i] == s[i]);
        }
        lemma_filter_none(init, pred);
    }
}

/// Filtering keeps all of a sequence in which everything passes.
proof fn lemma_filter_all<A>(s: Seq<A>, pred: spec_fn(A) -> bool)
    requires
        forall|i: int| 0 <= i < s.len() ==> pred(#[trigger] s[i]),
    ensures
        s.filter(pred) == s,
    decreases s.len(),
{
    reveal(Seq::filter);
    if s.len() > 0 {
        let init = s.drop_last();
        assert forall|i: int| 0 <= i < init.len() implies pred(#[trigger] init[i]) by {
            assert(init[i] == s[i]);
        }
        lemma_filter_all(init, pred);
        assert(init.push(s.last()) =~= s);
    }
}

/// Filtering a sequence of one element keeps it exactly when it passes.
proof fn lemma_filter_one<A>(a: A, pred: spec_fn(A) -> bool)
    ensures
        seq![a].filter(pred) == if pred(a) {
            seq![a]
        } else {
            Seq::empty()
        },
{
    if pred(a) {
        lemma_filter_all(seq![a], pred);
    } else {
        lemma_filter_none(seq![a], pred);
        assert(seq![a].filter(pred) =~= Seq::empty());
    }
}

/// A prefix of length `n` whose characters are all in `class` and which is
/// followed by no character of `class` is the run at the head of `s`.
pub proof fn lemma_run_len_unique(s: Seq<char>, class: spec_fn(char) -> bool, n: int)
    requires
        0 <= n <= s.len(),
        forall|i: int| 0 <= i < n ==> class(#[trigger] s[i]),
        n < s.len() ==> !class(s[n]),
    ensures
        run_len(s, class) == n,
    decreases s.len(),
{
    if n > 0 {
        let tail = s.drop_first();
        assert forall|i: int| 0 <= i < n - 1 implies class(#[trigger] tail[i]) by {
            assert(tail[i] == s[i + 1]);
        }
        lemma_run_len_unique(tail, class, n - 1);
    }
}

/// A run of `a` is not lengthened by appending `b` when `a` ends outside
/// the class or `b` does not start inside it.
pub proof fn lemma_run_len_concat(a: Seq<char>, b: Seq<char>, class: spec_fn(char) -> bool)
    requires
        (a.len() > 0 && !class(a.last())) || b.len() == 0 || !class(b[0]),
    ensures
        run_len(a + b, class) == run_len(a, class),
{
    let n = run_len(a, class) as int;
    lemma_run_len(a, class);
    assert forall|i: int| 0 <= i < n implies class(#[trigger] (a + b)[i]) by {
        assert((a + b)[i] == a[i]);
    }
    if n < a.len() {
        assert((a + b)[n] == a[n]);
    } else if a.len() > 0 && !class(a.last()) {
        assert(class(a[n - 1]));
    } else if b.len() > 0 {
        assert((a + b)[n] == b[0]);
    }
    lemma_run_len_unique(a + b, class, n);
}

/// Lexing distributes over concatenation at a run boundary: where `a` ends
/// with a character that continues no run, or `b` begins with one.
pub proof fn lemma_lex_concat(a: Seq<char>, b: Seq<char>)
    requires
        a.len() == 0 || b.len() == 0 || !alphanumeric(a.last()) || !alphanumeric(b[0]),
    ensures
        lex(a + b) == lex(a) + lex(b),
    decreases a.len(),
{
    if a.len() == 0 {
        assert(a + b =~= b);
        assert(lex(a) + lex(b) =~= lex(b));
    } else if b.len() == 0 {
        assert(a + b =~= a);
        assert(lex(a) + lex(b) =~= lex(a));
    } else {
        let s = a + b;
        let n = step_len(a) as int;
        lemma_step_len_bounds(a);
        lemma_run_len_concat(a, b, |c: char| alphanumeric(c));
        lemma_run_len_concat(a, b, |c: char| numeric(c));
        assert(s[0] == a[0]);
        assert(step_len(s) == n);
        assert(s.take(n) =~= a.take(n));
        assert(step_token(s) == step_token(a));
        assert(s.skip(n) =~= a.skip(n) + b);
        if a.skip(n).len() > 0 {
            assert(a.skip(n).last() == a.last());
        }
        lemma_lex_concat(a.skip(n), b);
        match step_token(a) {
            Some(token) => {
                assert(seq![token] + (lex(a.skip(n)) + lex(b)) =~= (seq![token] + lex(a.skip(n)))
                    + lex(b));
            },
            None => {},
        }
    }
}

/// Maximal munch for identifiers: an identifier at the head of the input,
/// followed by nothing or by a character that cannot continue it, becomes
/// one token, and lexing goes on after it.
pub proof fn lemma_identifier_run(w: Seq<char>, rest: Seq<char>)
    requires
        is_identifier(w),
        rest.len() > 0 ==> !alphanumeric(rest[0]),
    ensures
        lex(w + rest) == seq![word(w)] + lex(rest),
{
    let s = w + rest;
    let n = w.len() as int;
    assert forall|i: int| 0 <= i < n implies alphanumeric(#[trigger] s[i]) by {
        assert(s[i] == w[i]);
    }
    if rest.len() > 0 {
        assert(s[n] == rest[0]);
    }
    lemma_run_len_unique(s, |c: char| alphanumeric(c), n);
    assert(s[0] == w[0]);
    assert(s.take(n) =~= w);
    assert(s.skip(n) =~= rest);
}

/// Maximal munch for numerals: a numeral at the head of the input, followed
/// by nothing or by a character that is not numeric, becomes one `Literal`,
/// and lexing goes on after it.
pub proof fn lemma_numeral_run(w: Seq<char>, rest: Seq<char>)
    requires
        is_numeral(w),
        rest.len() > 0 ==> !numeric(rest[0]),
    ensures
        lex(w + rest) == seq![TokenView::Literal(w)] + lex(rest),
{
    let s = w + rest;
    let n = w.len() as int;
    assert forall|i: int| 0 <= i < n implies numeric(#[trigger] s[i]) by {
        assert(s[i] == w[i]);
    }
    if rest.len() > 0 {
        assert(s[n] == rest[0]);
    }
    lemma_run_len_unique(s, |c: char| numeric(c), n);
    assert(s[0] == w[0]);
    assert(s.take(n) =~= w);
    assert(s.skip(n) =~= rest);
}

/// An identifier on its own lexes to exactly one token: `Return` if it is
/// the keyword, a `Variable` carrying all of it otherwise.
pub proof fn lemma_identifier_is_one_token(w: Seq<char>)
    requires
        is_identifier(w),
    ensures
        lex(w) == seq![word(w)],
{
    let rest = Seq::<char>::empty();
    lemma_identifier_run(w, rest);
    assert(w + rest =~= w);
    assert(seq![word(w)] + lex(rest) =~= seq![word(w)]);
}

/// A numeral on its own lexes to exactly one `Literal` carrying all of it.
pub proof fn lemma_numeral_is_one_token(w: Seq<char>)
    requires
        is_numeral(w),
    ensures
        lex(w) == seq![TokenView::Literal(w)],
{
    let rest = Seq::<char>::empty();
    lemma_numeral_run(w, rest);
    assert(w + rest =~= w);
    assert(seq![TokenView::Literal(w)] + lex(rest) =~= seq![TokenView::Literal(w)]);
}

/// An input made of letters only is never split: it lexes to a single
/// token, `Return` on an exact match with the keyword and a `Variable`
/// otherwise. The empty input has no token.
pub proof fn lemma_letters_make_one_word(s: Seq<char>)
    requires
        forall|i: int| 0 <= i < s.len() ==> alphabetic(#[trigger] s[i]),
    ensures
        lex(s) == if s.len() == 0 {
            Seq::<TokenView>::empty()
        } else {
            seq![word(s)]
        },
{
    if s.len() > 0 {
        lemma_identifier_is_one_token(s);
    }
}

/// An input made of numeric characters only, the first of which is not
/// also a letter, lexes to a single `Literal`. The empty input has no token.
pub proof fn lemma_digits_make_one_literal(s: Seq<char>)
    requires
        forall|i: int| 0 <= i < s.len() ==> numeric(#[trigger] s[i]),
        s.len() > 0 ==> !alphabetic(s[0]),
    ensures
        lex(s) == if s.len() == 0 {
            Seq::<TokenView>::empty()
        } else {
            seq![TokenView::Literal(s)]
        },
{
    if s.len() > 0 {
        lemma_numeral_is_one_token(s);
    }
}

/// The keyword is matched exactly: an identifier lexes to `Return` if and
/// only if it is the keyword itself, and the keyword is an identifier.
pub proof fn lemma_keyword_is_exact(w: Seq<char>)
    requires
        is_identifier(w),
    ensures
        lex(w) == seq![TokenView::Return] <==> w == keyword(),
        is_identifier(keyword()),
        lex(keyword()) == seq![TokenView::Return],
{
    lemma_identifier_is_one_token(w);
    lemma_identifier_is_one_token(keyword());
    if w != keyword() {
        assert(lex(w)[0] == TokenView::Variable(w));
    }
}

/// A semicolon always yields its own token, whatever surrounds it.
pub proof fn lemma_semicolon_is_own_token(a: Seq<char>, b: Seq<char>)
    ensures
        lex(a + seq![';'] + b) == lex(a) + seq![TokenView::Semicolon] + lex(b),
{
    let tail = seq![';'] + b;
    assert(a + seq![';'] + b =~= a + tail);
    lemma_lex_concat(a, tail);
    assert(tail.skip(1) =~= b);
    assert(lex(tail) =~= seq![TokenView::Semicolon] + lex(b));
    assert(lex(a) + (seq![TokenView::Semicolon] + lex(b)) =~= lex(a) + seq![TokenView::Semicolon]
        + lex(b));
}

/// Number of semicolons among the characters of `s`.
pub open spec fn semicolon_count(s: Seq<char>) -> nat {
    s.filter(|c: char| c == ';').len()
}

/// Number of `Semicolon` tokens among `tokens`.
pub open spec fn semicolon_token_count(tokens: Seq<TokenView>) -> nat {
    tokens.filter(|t: TokenView| t is Semicolon).len()
}

/// The tokens of any input hold exactly one `Semicolon` for each semicolon
/// character.
pub proof fn lemma_one_token_per_semicolon(s: Seq<char>)
    ensures
        semicolon_token_count(lex(s)) == semicolon_count(s),
    decreases s.len(),
{
    let is_semicolon = |c: char| c == ';';
    let is_semicolon_token = |t: TokenView| t is Semicolon;
    if s.len() == 0 {
        lemma_filter_none(s, is_semicolon);
        lemma_filter_none(lex(s), is_semicolon_token);
    } else {
        lemma_step_len_bounds(s);
        let n = step_len(s) as int;
        let head = s.take(n);
        let rest = s.skip(n);
        lemma_one_token_per_semicolon(rest);
        assert(s =~= head + rest);
        Seq::filter_distributes_over_add(head, rest, is_semicolon);
        if alphabetic(s[0]) || numeric(s[0]) {
            lemma_run_len(s, |c: char| alphanumeric(c));
            lemma_run_len(s, |c: char| numeric(c));
            assert forall|i: int| 0 <= i < head.len() implies !is_semicolon(#[trigger] head[i]) by {
                assert(head[i] == s[i]);
            }
            lemma_filter_none(head, is_semicolon);
        } else {
            assert(head =~= seq![s[0]]);
            lemma_filter_one(s[0], is_semicolon);
        }
        match step_token(s) {
            Some(token) => {
                Seq::filter_distributes_over_add(seq![token], lex(rest), is_semicolon_token);
                lemma_filter_one(token, is_semicolon_token);
            },
            None => {},
        }
    }
}

/// Lexing loses nothing but the skipped characters, and keeps the order:
/// the texts of the tokens, one after the other, are the input without its
/// skipped characters.
pub proof fn lemma_lex_drops_only_skipped(s: Seq<char>)
    ensures
        texts(lex(s)).flatten() == s.filter(|c: char| !skipped(c)),
    decreases s.len(),
{
    let kept = |c: char| !skipped(c);
    if s.len() == 0 {
        lemma_filter_none(s, kept);
        assert(s.filter(kept) =~= Seq::empty());
        assert(texts(lex(s)) =~= Seq::empty());
    } else {
        lemma_step_len_bounds(s);
        let n = step_len(s) as int;
        let head = s.take(n);
        let rest = s.skip(n);
        lemma_lex_drops_only_skipped(rest);
        assert(s =~= head + rest);
        Seq::filter_distributes_over_add(head, rest, kept);
        if alphabetic(s[0]) || numeric(s[0]) {
            lemma_run_len(s, |c: char| alphanumeric(c));
            lemma_run_len(s, |c: char| numeric(c));
            assert forall|i: int| 0 <= i < head.len() implies kept(#[trigger] head[i]) by {
                assert(head[i] == s[i]);
            }
            lemma_filter_all(head, kept);
        } else {
            assert(head =~= seq![s[0]]);
            lemma_filter_one(s[0], kept);
        }
        match step_token(s) {
            Some(token) => {
                assert(token.text() == head.filter(kept));
                let words = texts(lex(s));
                assert(words.first() == token.text());
                assert(words.drop_first() =~= texts(lex(rest)));
            },
            None => {
                assert(head.filter(kept) =~= Seq::empty());
                assert(head.filter(kept) + rest.filter(kept) =~= rest.filter(kept));
            },
        }
    }
}

/// Every token that the lexer yields is well formed.
pub proof fn lemma_lex_well_formed(s: Seq<char>)
    ensures
        forall|i: int| 0 <= i < lex(s).len() ==> (#[trigger] lex(s)[i]).well_formed(),
    decreases s.len(),
{
    if s.len() > 0 {
        lemma_step_len_bounds(s);
        let n = step_len(s) as int;
        let head = s.take(n);
        let rest = s.skip(n);
        lemma_lex_well_formed(rest);
        lemma_run_len(s, |c: char| alphanumeric(c));
        lemma_run_len(s, |c: char| numeric(c));
        match step_token(s) {
            Some(token) => {
                assert(token.well_formed()) by {
                    assert forall|i: int| 0 <= i < head.len() implies head[i] == s[i] by {}
                }
                assert forall|i: int| 0 <= i < lex(s).len() implies (#[trigger] lex(
                    s,
                )[i]).well_formed() by {
                    if i > 0 {
                        assert(lex(s)[i] == lex(rest)[i - 1]);
                    }
                }
            },
            None => {},
        }
    }
}

/// The texts that tokens can have: a semicolon, an identifier (the keyword
/// among them) or a numeral.
pub open spec fn is_token_text(w: Seq<char>) -> bool {
    w == seq![';'] || is_identifier(w) || is_numeral(w)
}

/// The token whose text is `w`.
pub open spec fn token_of_text(w: Seq<char>) -> TokenView {
    if w == seq![';'] {
        TokenView::Semicolon
    } else if is_identifier(w) {
        word(w)
    } else {
        TokenView::Literal(w)
    }
}

/// A token text on its own lexes to the one token that has this text.
pub proof fn lemma_token_text_is_one_token(w: Seq<char>)
    requires
        is_token_text(w),
    ensures
        lex(w) == seq![token_of_text(w)],
        token_of_text(w).text() == w,
        token_of_text(w).well_formed(),
{
    if w == seq![';'] {
        assert(w[0] == ';');
        assert(lex(w.skip(1)) =~= Seq::empty());
        assert(lex(w) =~= seq![TokenView::Semicolon]);
    } else if is_identifier(w) {
        lemma_identifier_is_one_token(w);
    } else {
        lemma_numeral_is_one_token(w);
    }
}

/// The text of a well-formed token is a token text, and the token of that
/// text is the token itself.
pub proof fn lemma_text_of_token(t: TokenView)
    requires
        t.well_formed(),
    ensures
        is_token_text(t.text()),
        token_of_text(t.text()) == t,
{
    match t {
        TokenView::Return => {
            assert(keyword()[0] == 'r');
        },
        TokenView::Semicolon => {},
        TokenView::Literal(digits) => {
            assert(numeric(digits[0]));
        },
        TokenView::Variable(name) => {
            assert(name[0] != ';');
        },
    }
}

/// Token texts joined by single spaces lex to one token for each text, in
/// the same order.
pub proof fn lemma_lex_of_joined(words: Seq<Seq<char>>)
    requires
        forall|i: int| 0 <= i < words.len() ==> is_token_text(#[trigger] words[i]),
    ensures
        lex(join(words)) == words.map_values(|w: Seq<char>| token_of_text(w)),
    decreases words.len(),
{
    let tokens = words.map_values(|w: Seq<char>| token_of_text(w));
    if words.len() == 0 {
        assert(lex(join(words)) =~= tokens);
    } else if words.len() == 1 {
        lemma_token_text_is_one_token(words[0]);
        assert(lex(join(words)) =~= tokens);
    } else {
        let before = words.drop_last();
        let tail = seq![' '] + words.last();
        assert(join(words) =~= join(before) + tail);
        lemma_lex_concat(join(before), tail);
        assert(tail.skip(1) =~= words.last());
        assert(lex(tail) == lex(words.last()));
        lemma_token_text_is_one_token(words.last());
        lemma_lex_of_joined(before);
        assert(lex(join(words)) =~= tokens);
    }
}

/// Round trip over texts: lexing token texts joined by single spaces and
/// taking the texts of the tokens gives the same texts back, in order.
pub proof fn lemma_round_trip(words: Seq<Seq<char>>)
    requires
        forall|i: int| 0 <= i < words.len() ==> is_token_text(#[trigger] words[i]),
    ensures
        texts(lex(join(words))) == words,
{
    lemma_lex_of_joined(words);
    assert forall|i: int| 0 <= i < words.len() implies token_of_text(#[trigger] words[i]).text()
        == words[i] by {
        lemma_token_text_is_one_token(words[i]);
    }
    assert(texts(lex(join(words))) =~= words);
}

/// Round trip over tokens: lexing the texts of well-formed tokens joined by
/// single spaces gives the tokens back.
pub proof fn lemma_round_trip_tokens(tokens: Seq<TokenView>)
    requires
        forall|i: int| 0 <= i < tokens.len() ==> (#[trigger] tokens[i]).well_formed(),
    ensures
        lex(join(texts(tokens))) == tokens,
{
    let words = texts(tokens);
    assert forall|i: int| 0 <= i < words.len() implies is_token_text(#[trigger] words[i])
        && token_of_text(words[i]) == tokens[i] by {
        lemma_text_of_token(tokens[i]);
    }
    lemma_lex_of_joined(words);
    assert(lex(join(words)) =~= tokens);
}

/// Lexing is idempotent up to spacing: the texts of the tokens of any
/// input, joined by single spaces, lex to the same tokens.
pub proof fn lemma_lex_idempotent(s: Seq<char>)
    ensures
        lex(join(texts(lex(s)))) == lex(s),
{
    lemma_lex_well_formed(s);
    lemma_round_trip_tokens(lex(s));
}

/// A run that reaches the end of the input closes there: if the last
/// character continues a run, the last token is a word or a literal whose
/// text is the end of the input.
pub proof fn lemma_final_run_closes(s: Seq<char>)
    requires
        s.len() > 0,
        alphanumeric(s.last()),
    ensures
        lex(s).len() > 0,
        lex(s).last() !is Semicolon,
        lex(s).last().text().len() <= s.len(),
        s.skip(s.len() - lex(s).last().text().len()) == lex(s).last().text(),
    decreases s.len(),
{
    lemma_step_len_bounds(s);
    let n = step_len(s) as int;
    let rest = s.skip(n);
    if n == s.len() {
        assert(lex(rest) =~= Seq::empty());
        assert(s.take(n) =~= s);
        assert(s.skip(0) =~= s);
        if !alphabetic(s[0]) && !numeric(s[0]) {
            assert(s.last() == s[0]);
        }
        let token = step_token(s)->0;
        assert(lex(s) =~= seq![token]);
        assert(token.text() == s);
    } else {
        assert(rest.last() == s.last());
        lemma_final_run_closes(rest);
        let k = rest.len() - lex(rest).last().text().len();
        assert(rest.skip(k) =~= s.skip(n + k));
        match step_token(s) {
            Some(token) => {
                assert(lex(s).last() == lex(rest).last());
            },
            None => {},
        }
    }
}

} // verus!

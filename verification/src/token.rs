//! Tokens and their mathematical model.

use vstd::prelude::*;
use vstd::string::StringExecFns;
use crate::charclass::{alphabetic, alphanumeric, numeric};

verus! {

/// The four kinds of token.
#[derive(Debug, Clone, Copy, PartialEq, Eq, Structural)]
pub enum TokenKind {
    Return,
    Semicolon,
    Literal,
    Variable,
}

impl TokenKind {
    /// The tag that diagnostics show for a token of this kind.
    pub open spec fn label_text(self) -> Seq<char> {
        match self {
            TokenKind::Return => "Return!"@,
            TokenKind::Semicolon => "Semicolon!"@,
            TokenKind::Literal => "Literal!"@,
            TokenKind::Variable => "Variable!"@,
        }
    }

    /// The tag that diagnostics show for a token of this kind.
    pub fn label(self) -> (label: &'static str)
        ensures
            label@ == self.label_text(),
    {
        match self {
            TokenKind::Return => "Return!",
            TokenKind::Semicolon => "Semicolon!",
            TokenKind::Literal => "Literal!",
            TokenKind::Variable => "Variable!",
        }
    }
}

/// A lexical unit of the source text. `Literal` carries the numeral text and
/// `Variable` the identifier text.
#[derive(Debug, PartialEq, Eq)]
pub enum Token {
    Return,
    Semicolon,
    Literal(String),
    Variable(String),
}

/// The model of a [`Token`]: the same four variants over sequences of
/// characters.
pub enum TokenView {
    Return,
    Semicolon,
    Literal(Seq<char>),
    Variable(Seq<char>),
}

/// The reserved word `return`.
pub open spec fn keyword() -> Seq<char> {
    seq!['r', 'e', 't', 'u', 'r', 'n']
}

/// An identifier: a letter followed by any number of letters and digits.
pub open spec fn is_identifier(w: Seq<char>) -> bool {
    &&& w.len() > 0
    &&& alphabetic(w[0])
    &&& forall|i: int| 0 <= i < w.len() ==> alphanumeric(#[trigger] w[i])
}

/// A numeral: one or more numeric characters, the first of which starts no
/// identifier.
pub open spec fn is_numeral(w: Seq<char>) -> bool {
    &&& w.len() > 0
    &&& !alphabetic(w[0])
    &&& forall|i: int| 0 <= i < w.len() ==> numeric(#[trigger] w[i])
}

impl TokenView {
    /// What the lexer guarantees of a token's payload: a `Literal` carries a
    /// numeral, a `Variable` an identifier other than the keyword.
    pub open spec fn well_formed(self) -> bool {
        match self {
            TokenView::Return => true,
            TokenView::Semicolon => true,
            TokenView::Literal(digits) => is_numeral(digits),
            TokenView::Variable(name) => is_identifier(name) && name != keyword(),
        }
    }

    /// The kind of the token: its variant without the payload.
    pub open spec fn kind(self) -> TokenKind {
        match self {
            TokenView::Return => TokenKind::Return,
            TokenView::Semicolon => TokenKind::Semicolon,
            TokenView::Literal(_) => TokenKind::Literal,
            TokenView::Variable(_) => TokenKind::Variable,
        }
    }

    /// The source text that the token stands for.
    pub open spec fn text(self) -> Seq<char> {
        match self {
            TokenView::Return => keyword(),
            TokenView::Semicolon => seq![';'],
            TokenView::Literal(digits) => digits,
            TokenView::Variable(name) => name,
        }
    }
}

impl View for Token {
    type V = TokenView;

    open spec fn view(&self) -> TokenView {
        match self {
            Token::Return => TokenView::Return,
            Token::Semicolon => TokenView::Semicolon,
            Token::Literal(digits) => TokenView::Literal(digits@),
            Token::Variable(name) => TokenView::Variable(name@),
        }
    }
}

impl DeepView for Token {
    type V = TokenView;

    open spec fn deep_view(&self) -> TokenView {
        self@
    }
}

impl Token {
    /// The kind of the token: its variant without the payload.
    pub fn kind(&self) -> (kind: TokenKind)
        ensures
            kind == self@.kind(),
    {
        match self {
            Token::Return => TokenKind::Return,
            Token::Semicolon => TokenKind::Semicolon,
            Token::Literal(_) => TokenKind::Literal,
            Token::Variable(_) => TokenKind::Variable,
        }
    }

    /// The source text that the token stands for.
    pub fn text(&self) -> (text: String)
        ensures
            text@ == self@.text(),
    {
        match self {
            Token::Return => {
                proof {
                    reveal_strlit("return");
                }
                assert("return"@ =~= keyword());
                String::from_str("return")
            },
            Token::Semicolon => {
                proof {
                    reveal_strlit(";");
                }
                assert(";"@ =~= seq![';']);
                String::from_str(";")
            },
            Token::Literal(digits) => digits.clone(),
            Token::Variable(name) => name.clone(),
        }
    }
}

/// The texts of `tokens`, in order.
pub open spec fn texts(tokens: Seq<TokenView>) -> Seq<Seq<char>> {
    tokens.map_values(|t: TokenView| t.text())
}

/// The words of `words` joined by single spaces.
pub open spec fn join(words: Seq<Seq<char>>) -> Seq<char>
    decreases words.len(),
{
    if words.len() == 0 {
        Seq::empty()
    } else if words.len() == 1 {
        words[0]
    } else {
        join(words.drop_last()) + seq![' '] + words.last()
    }
}

/// Writes `tokens` back as source text: their texts, joined by single
/// spaces.
pub fn render(tokens: &[Token]) -> (source: String)
    ensures
        source@ == join(texts(tokens.deep_view())),
{
    let ghost words = texts(tokens.deep_view());
    let mut source = String::new();
    let mut i: usize = 0;
    assert(words.take(0) =~= Seq::empty());
    while i < tokens.len()
        invariant
            i <= tokens.len(),
            words == texts(tokens.deep_view()),
            source@ == join(words.take(i as int)),
        decreases tokens.len() - i,
    {
        proof {
            reveal_strlit(" ");
            assert(words.take(i + 1).drop_last() =~= words.take(i as int));
            assert(words.take(i + 1).last() == tokens[i as int]@.text());
        }
        if i > 0 {
            source.append(" ");
        }
        let text = tokens[i].text();
        source.append(text.as_str());
        assert(source@ =~= join(words.take(i + 1)));
        i += 1;
    }
    assert(words.take(i as int) =~= words);
    source
}

} // verus!

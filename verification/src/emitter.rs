//! The emitter: walks the tokens once, in order, and writes one exit
//! instruction for each `Return`.

use vstd::prelude::*;
use vstd::string::StringExecFns;
use crate::token::{Token, TokenView};

verus! {

/// The instruction that ends the program, as one line of assembly text.
pub open spec fn exit_instruction() -> Seq<char> {
    "mov eax 60\n"@
}

/// The text that a single token contributes to the output.
pub open spec fn instruction(token: TokenView) -> Seq<char> {
    match token {
        TokenView::Return => exit_instruction(),
        _ => Seq::empty(),
    }
}

/// The output for `tokens`: the instructions of the tokens, in order.
pub open spec fn assembly(tokens: Seq<TokenView>) -> Seq<char> {
    tokens.map_values(|t: TokenView| instruction(t)).flatten()
}

/// Whether `tokens` holds a `Return`.
pub open spec fn has_return(tokens: Seq<TokenView>) -> bool {
    exists|i: int| 0 <= i < tokens.len() && #[trigger] tokens[i] is Return
}

/// Number of `Return` tokens among `tokens`.
pub open spec fn return_count(tokens: Seq<TokenView>) -> nat {
    tokens.filter(|t: TokenView| t is Return).len()
}

/// The output holds one line for each `Return` and nothing else: it is as
/// long as that many exit instructions, and empty exactly when there is no
/// `Return`.
pub proof fn lemma_one_line_per_return(tokens: Seq<TokenView>)
    ensures
        exit_instruction().len() == 11,
        assembly(tokens).len() == 11 * return_count(tokens),
        has_return(tokens) <==> return_count(tokens) > 0,
    decreases tokens.len(),
{
    reveal_strlit("mov eax 60\n");
    reveal(Seq::filter);
    let is_return = |t: TokenView| t is Return;
    let lines = tokens.map_values(|t: TokenView| instruction(t));
    if tokens.len() == 0 {
        assert(lines.flatten() =~= Seq::<char>::empty());
    } else {
        let before = tokens.drop_last();
        lemma_one_line_per_return(before);
        let lines_before = before.map_values(|t: TokenView| instruction(t));
        assert(lines =~= lines_before.push(instruction(tokens.last())));
        lines_before.lemma_flatten_push(instruction(tokens.last()));
        if has_return(before) {
            let i = choose|i: int| 0 <= i < before.len() && #[trigger] before[i] is Return;
            assert(tokens[i] is Return);
        }
        if has_return(tokens) && !(tokens.last() is Return) {
            let i = choose|i: int| 0 <= i < tokens.len() && #[trigger] tokens[i] is Return;
            assert(before[i] is Return);
        }
        if tokens.last() is Return {
            assert(tokens[tokens.len() - 1] is Return);
        }
    }
}

/// Computes the assembly text for `tokens`.
///
/// Returns `None` when no token is a `Return`: there is nothing to write,
/// and no output is to be created. Otherwise returns the text to write: one
/// exit instruction for each `Return`, appended in order.
pub fn emit(tokens: &[Token]) -> (out: Option<String>)
    ensures
        out is Some <==> has_return(tokens.deep_view()),
        out matches Some(text) ==> text@ == assembly(tokens.deep_view()),
{
    let ghost views = tokens.deep_view();
    let ghost lines = views.map_values(|t: TokenView| instruction(t));
    let mut text = String::new();
    let mut seen = false;
    let mut i: usize = 0;
    assert(lines.take(0).flatten() =~= Seq::<char>::empty());
    while i < tokens.len()
        invariant
            i <= tokens.len(),
            views == tokens.deep_view(),
            lines == views.map_values(|t: TokenView| instruction(t)),
            text@ == lines.take(i as int).flatten(),
            seen <==> has_return(views.take(i as int)),
        decreases tokens.len() - i,
    {
        proof {
            assert(lines.take(i + 1) =~= lines.take(i as int).push(lines[i as int]));
            lines.take(i as int).lemma_flatten_push(lines[i as int]);
            assert(views[i as int] == tokens[i as int]@);
            assert(views.take(i + 1)[i as int] == views[i as int]);
            if has_return(views.take(i as int)) {
                let j = choose|j: int|
                    0 <= j < views.take(i as int).len() && #[trigger] views.take(i as int)[j]
                        is Return;
                assert(views.take(i + 1)[j] is Return);
            }
            if has_return(views.take(i + 1)) && !(views[i as int] is Return) {
                let j = choose|j: int|
                    0 <= j < views.take(i + 1).len() && #[trigger] views.take(i + 1)[j] is Return;
                assert(views.take(i as int)[j] is Return);
            }
        }
        match &tokens[i] {
            Token::Return => {
                text.append("mov eax 60\n");
                seen = true;
            },
            _ => {
                assert(text@ + Seq::<char>::empty() =~= text@);
            },
        }
        i += 1;
    }
    assert(lines.take(i as int) =~= lines);
    assert(views.take(i as int) =~= views);
    if seen {
        Some(text)
    } else {
        None
    }
}

} // verus!

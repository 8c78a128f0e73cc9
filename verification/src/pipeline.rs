use crate::brackets::{id_brackets, tagged};
use crate::chars::uppercase;
use crate::inliner::{
    call_end, call_of, definition_line, grouped, holds_no_call, inline_functions, inlined,
    lemma_call_is_expanded, minted, substitute,
};
use crate::lexer::{lexed, normalized, tokenize, LineData};
use crate::reducer::{combine_and_expand, reduced};
use crate::token::{copy_without, without, Token, TokenModel};
use vstd::prelude::*;

verus! {

/// One round of inlining followed by reduction.
pub open spec fn inline_round(s: Seq<TokenModel>) -> Seq<TokenModel> {
    reduced(inlined(s))
}

/// A round of inlining and reduction gives for a call what reduction gives
/// for the body with the argument written into it by hand: for a function
/// of one parameter, defined on one line and called once on a later one
/// with one argument, no other call standing anywhere.
pub proof fn lemma_call_reduces_as_written_out(
    name: Seq<char>,
    formal: Seq<char>,
    body: Seq<TokenModel>,
    between: Seq<TokenModel>,
    actual: Seq<TokenModel>,
    after: Seq<TokenModel>,
    b: i64,
    c: i64,
)
    requires
        forall|i: int| 0 <= i < body.len() ==> body[i] != TokenModel::Newline,
        forall|i: int|
            0 <= i < actual.len() ==> actual[i] != TokenModel::Comma && actual[i] != call_end(c),
        holds_no_call(body),
        holds_no_call(between),
        holds_no_call(actual),
        holds_no_call(after),
    ensures
        inline_round(
            definition_line(name, b, formal, body) + between + call_of(name, c, actual) + after,
        ) == reduced(
            definition_line(name, b, formal, body) + between + grouped(
                substitute(body, TokenModel::Identifier(formal), actual),
                minted(0),
            ) + after,
        ),
{
    lemma_call_is_expanded(name, formal, body, between, actual, after, b, c);
}

/// What becomes of lexed tokens: spaces are dropped, parentheses are
/// paired, the sequence is reduced, and three rounds of inlining and
/// reduction follow, so that a function may call a function that calls a
/// function.
pub open spec fn prepared(s: Seq<TokenModel>) -> Seq<TokenModel> {
    inline_round(inline_round(inline_round(reduced(tagged(without(s, TokenModel::Space))))))
}

/// The passes that follow the lexer.
pub fn prepare(tokens: &Vec<Token>) -> (r: Vec<Token>)
    ensures
        r.deep_view() == prepared(tokens.deep_view()),
{
    let mut out = copy_without(tokens, 0, tokens.len(), &Token::Space);
    assert(tokens.deep_view().subrange(0, tokens.len() as int) =~= tokens.deep_view());
    id_brackets(&mut out);
    combine_and_expand(&mut out);
    let mut round: usize = 0;
    while round < 3
        invariant
            round <= 3,
            round == 0 ==> out.deep_view() == reduced(
                tagged(without(tokens.deep_view(), TokenModel::Space)),
            ),
            round == 1 ==> out.deep_view() == inline_round(
                reduced(tagged(without(tokens.deep_view(), TokenModel::Space))),
            ),
            round == 2 ==> out.deep_view() == inline_round(
                inline_round(reduced(tagged(without(tokens.deep_view(), TokenModel::Space)))),
            ),
            round == 3 ==> out.deep_view() == prepared(tokens.deep_view()),
        decreases 3 - round,
    {
        inline_functions(&mut out);
        combine_and_expand(&mut out);
        round += 1;
    }
    out
}

/// The tokens of a program as the interpreter runs them: the source text
/// is lexed with the cards of its lines, and the passes that follow the
/// lexer are made.
pub fn process(str: String, line_data: Vec<LineData>) -> (r: Vec<Token>)
    ensures
        r.deep_view() == prepared(lexed(normalized(uppercase(str@)), line_data@)),
{
    let tokens = tokenize(str, line_data);
    prepare(&tokens)
}

} // verus!

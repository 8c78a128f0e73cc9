use crate::token::{Token, TokenModel};
use vstd::prelude::*;

verus! {

/// The distance between the ids of two top-level groups.
pub open spec fn group_stride() -> int {
    10_000_000
}

/// What tagging knows after some tokens: how deep the parentheses are
/// nested, the offset of the current top-level group, and the ids given to
/// call parentheses so far.
pub struct TagState {
    pub depth: int,
    pub offset: int,
    pub calls: Set<int>,
}

/// An opening parenthesis that has no id yet.
pub open spec fn is_untagged_open(t: TokenModel) -> bool {
    t matches TokenModel::OpenParen { id: None, .. }
}

/// A closing parenthesis that has no id yet.
pub open spec fn is_untagged_close(t: TokenModel) -> bool {
    t matches TokenModel::CloseParen { id: None, .. }
}

/// The token at position `i` follows an identifier.
pub open spec fn follows_identifier(s: Seq<TokenModel>, i: int) -> bool {
    0 < i <= s.len() && s[i - 1] is Identifier
}

/// The state after the token at position `i`, from the state before it.
/// An opening parenthesis goes one level deeper, and at the first level
/// starts a new top-level group; a closing one comes back up one level.
pub open spec fn tag_step(s: Seq<TokenModel>, i: int, st: TagState) -> TagState {
    if is_untagged_open(s[i]) {
        let depth = st.depth + 1;
        let offset = if depth == 1 {
            st.offset + group_stride()
        } else {
            st.offset
        };
        TagState {
            depth,
            offset,
            calls: if follows_identifier(s, i) {
                st.calls.insert(depth + offset)
            } else {
                st.calls
            },
        }
    } else if is_untagged_close(s[i]) {
        TagState { depth: st.depth - 1, ..st }
    } else {
        st
    }
}

/// The state before the token at position `i`.
pub open spec fn tag_state(s: Seq<TokenModel>, i: int) -> TagState
    decreases i,
{
    if i <= 0 {
        TagState { depth: 0, offset: 0, calls: Set::empty() }
    } else {
        tag_step(s, i - 1, tag_state(s, i - 1))
    }
}

/// The id as the tokens hold it, where it is small enough for them.
pub open spec fn as_pair_id(id: int) -> Option<i64> {
    if i64::MIN <= id <= i64::MAX {
        Some(id as i64)
    } else {
        None
    }
}

/// The token at position `i` after tagging. A parenthesis without an id
/// gets the sum of its depth and its group's offset; an opening one is a
/// call parenthesis where it follows an identifier, a closing one where
/// its id was given to a call parenthesis before. A parenthesis whose id
/// would not fit, and every other token, stays as it is.
pub open spec fn tagged_at(s: Seq<TokenModel>, i: int) -> TokenModel {
    let before = tag_state(s, i);
    let after = tag_step(s, i, before);
    if is_untagged_open(s[i]) {
        match as_pair_id(after.depth + after.offset) {
            Some(id) => TokenModel::OpenParen { id: Some(id), function: follows_identifier(s, i) },
            None => s[i],
        }
    } else if is_untagged_close(s[i]) {
        match as_pair_id(before.depth + before.offset) {
            Some(id) => TokenModel::CloseParen {
                id: Some(id),
                function: before.calls.contains(before.depth + before.offset),
            },
            None => s[i],
        }
    } else {
        s[i]
    }
}

/// The sequence with its parentheses paired.
pub open spec fn tagged(s: Seq<TokenModel>) -> Seq<TokenModel> {
    Seq::new(s.len(), |i: int| tagged_at(s, i))
}

/// Tokens that are no parentheses without an id leave the state as it was.
proof fn lemma_tag_state_rests(s: Seq<TokenModel>, i: int, j: int)
    requires
        0 <= i <= j <= s.len(),
        forall|k: int| i <= k < j ==> !is_untagged_open(s[k]) && !is_untagged_close(s[k]),
    ensures
        tag_state(s, j) == tag_state(s, i),
    decreases j - i,
{
    if i < j {
        lemma_tag_state_rests(s, i, j - 1);
    }
}

/// An opening and a closing parenthesis with no other parenthesis to tag
/// between them are a pair: tagging gives both the same id, or leaves both
/// as they are where the id does not fit; and the partner of a call
/// parenthesis is a call parenthesis.
pub proof fn lemma_pair_shares_id(s: Seq<TokenModel>, i: int, j: int)
    requires
        0 <= i < j < s.len(),
        is_untagged_open(s[i]),
        is_untagged_close(s[j]),
        forall|k: int| i < k < j ==> !is_untagged_open(s[k]) && !is_untagged_close(s[k]),
    ensures
        tagged(s)[i] is OpenParen,
        tagged(s)[j] is CloseParen,
        tagged(s)[i]->OpenParen_id == tagged(s)[j]->CloseParen_id,
        tagged(s)[i]->OpenParen_id is Some && tagged(s)[i]->OpenParen_function ==> tagged(
            s,
        )[j]->CloseParen_function,
{
    lemma_tag_state_rests(s, i + 1, j);
    assert(tag_state(s, i + 1) == tag_step(s, i, tag_state(s, i)));
}

proof fn lemma_tag_state_bounds(s: Seq<TokenModel>, i: int)
    requires
        0 <= i <= s.len(),
    ensures
        -i <= tag_state(s, i).depth <= i,
        0 <= tag_state(s, i).offset <= i * group_stride(),
    decreases i,
{
    if i > 0 {
        lemma_tag_state_bounds(s, i - 1);
    }
}

fn holds(ids: &Vec<i128>, id: i128) -> (r: bool)
    ensures
        r == exists|k: int| 0 <= k < ids.len() && ids[k] == id,
{
    let mut k: usize = 0;
    while k < ids.len()
        invariant
            k <= ids.len(),
            forall|j: int| 0 <= j < k ==> ids[j] != id,
        decreases ids.len() - k,
    {
        if ids[k] == id {
            return true;
        }
        k += 1;
    }
    false
}

fn pair_id(id: i128) -> (r: Option<i64>)
    ensures
        r == as_pair_id(id as int),
{
    if -0x8000_0000_0000_0000 <= id && id <= 0x7fff_ffff_ffff_ffff {
        Some(id as i64)
    } else {
        None
    }
}

/// Gives each parenthesis that has none the id of its pair, and tells call
/// parentheses from grouping ones, as [`tagged`] says.
pub fn id_brackets(tokens: &mut Vec<Token>)
    ensures
        final(tokens).deep_view() == tagged(old(tokens).deep_view()),
{
    let ghost s = tokens.deep_view();
    let n = tokens.len();
    let mut depth: i128 = 0;
    let mut offset: i128 = 0;
    let mut calls: Vec<i128> = Vec::new();
    let mut i: usize = 0;
    while i < n
        invariant
            i <= n,
            n == tokens.len(),
            s == old(tokens).deep_view(),
            tokens.deep_view().len() == s.len(),
            forall|k: int| 0 <= k < i ==> tokens.deep_view()[k] == tagged_at(s, k),
            forall|k: int| i <= k < n ==> tokens.deep_view()[k] == s[k],
            depth == tag_state(s, i as int).depth,
            offset == tag_state(s, i as int).offset,
            forall|id: int|
                tag_state(s, i as int).calls.contains(id) <==> exists|k: int|
                    0 <= k < calls.len() && calls[k] == id,
        decreases n - i,
    {
        let ghost before = tag_state(s, i as int);
        let ghost after = tag_step(s, i as int, before);
        let ghost buffer = tokens.deep_view();
        let ghost known = calls@;
        proof {
            lemma_tag_state_bounds(s, i as int);
            assert(i * group_stride() <= usize::MAX * group_stride()) by (nonlinear_arith)
                requires
                    i <= usize::MAX,
            ;
            assert(tag_state(s, i + 1) == after);
            assert(buffer[i as int] == s[i as int]);
        }
        let call = i > 0 && match &tokens[i - 1] {
            Token::Identifier(_) => true,
            _ => false,
        };
        proof {
            if i > 0 {
                assert(buffer[i - 1] == tagged_at(s, i - 1));
                assert(s[i - 1] is Identifier == buffer[i - 1] is Identifier);
            }
            assert(call == follows_identifier(s, i as int));
        }
        let mut replacement: Option<Token> = None;
        match &tokens[i] {
            Token::OpenParen { id: None, function: _ } => {
                depth = depth + 1;
                if depth == 1 {
                    offset = offset + 10_000_000;
                }
                let id = depth + offset;
                if call {
                    calls.push(id);
                }
                match pair_id(id) {
                    Some(short) => {
                        replacement = Some(Token::OpenParen { id: Some(short), function: call });
                    },
                    None => {},
                }
            },
            Token::CloseParen { id: None, function: _ } => {
                let id = depth + offset;
                match pair_id(id) {
                    Some(short) => {
                        replacement = Some(
                            Token::CloseParen { id: Some(short), function: holds(&calls, id) },
                        );
                    },
                    None => {},
                }
                depth = depth - 1;
            },
            _ => {},
        }
        match replacement {
            Some(t) => {
                tokens.set(i, t);
            },
            None => {},
        }
        proof {
            assert forall|id: int|
                after.calls.contains(id) <==> exists|k: int|
                    0 <= k < calls.len() && calls[k] == id by {
                if before.calls.contains(id) {
                    let k = choose|k: int| 0 <= k < known.len() && known[k] == id;
                    assert(calls[k] == id);
                }
                if after.calls.contains(id) && !before.calls.contains(id) {
                    assert(calls[calls.len() - 1] == id);
                }
                if exists|k: int| 0 <= k < calls.len() && calls[k] == id {
                    let k = choose|k: int| 0 <= k < calls.len() && calls[k] == id;
                    if k < known.len() {
                        assert(known[k] == id);
                    }
                }
            }
            assert(tokens.deep_view()[i as int] == tagged_at(s, i as int));
            assert forall|k: int| 0 <= k < i implies tokens.deep_view()[k] == tagged_at(s, k) by {
                assert(tokens.deep_view()[k] == buffer[k]);
            }
            assert forall|k: int| i < k < n implies tokens.deep_view()[k] == s[k] by {
                assert(tokens.deep_view()[k] == buffer[k]);
            }
        }
        i += 1;
    }
    assert(tokens.deep_view() =~= tagged(s));
}

} // verus!

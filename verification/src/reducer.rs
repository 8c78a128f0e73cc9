use crate::arith::{
    exponent_of, int_difference, int_power, int_product, int_quotient, int_sum, narrowed,
    truncated_quotient,
};
use crate::token::{FloatExpr, FloatModel, Token, TokenModel};
use vstd::arithmetic::power::pow;
use vstd::prelude::*;

verus! {

/// What two integers joined by an operator come to, at the priority at
/// which that operator is folded: powers first, then products and
/// quotients, then sums and differences. There is no value where the
/// operator is not folded at this priority, where the divisor is zero, or
/// where the result does not fit in 32 bits: such operands stay as they are.
pub open spec fn fold_ints(x: i32, op: TokenModel, y: i32, priority: int) -> Option<i32> {
    match op {
        TokenModel::Power => if priority == 0 {
            narrowed(pow(x as int, exponent_of(y)))
        } else {
            None
        },
        TokenModel::Multiply => if priority == 1 {
            narrowed(x * y)
        } else {
            None
        },
        TokenModel::Divide => if priority == 1 && y != 0 {
            narrowed(truncated_quotient(x as int, y as int))
        } else {
            None
        },
        TokenModel::Add => if priority == 2 {
            narrowed(x + y)
        } else {
            None
        },
        TokenModel::Subtract => if priority == 2 {
            narrowed(x - y)
        } else {
            None
        },
        _ => None,
    }
}

/// What two single-precision quantities joined by an operator come to, at
/// the priority at which that operator is folded.
pub open spec fn fold_floats(x: FloatModel, op: TokenModel, y: FloatModel, priority: int) -> Option<
    FloatModel,
> {
    match op {
        TokenModel::Multiply => if priority == 1 {
            Some(FloatModel::Product(Box::new(x), Box::new(y)))
        } else {
            None
        },
        TokenModel::Divide => if priority == 1 {
            Some(FloatModel::Quotient(Box::new(x), Box::new(y)))
        } else {
            None
        },
        TokenModel::Add => if priority == 2 {
            Some(FloatModel::Sum(Box::new(x), Box::new(y)))
        } else {
            None
        },
        TokenModel::Subtract => if priority == 2 {
            Some(FloatModel::Difference(Box::new(x), Box::new(y)))
        } else {
            None
        },
        _ => None,
    }
}

/// A grouping pair: an opening and a closing parenthesis with the same id,
/// neither of them a call parenthesis.
pub open spec fn encloses(left: TokenModel, right: TokenModel) -> bool {
    match (left, right) {
        (
            TokenModel::OpenParen { id: a, function: false },
            TokenModel::CloseParen { id: b, function: false },
        ) => a == b,
        _ => false,
    }
}

/// The token that three neighbours fold to at the given priority, if they fold.
pub open spec fn fold_triple(
    left: TokenModel,
    middle: TokenModel,
    right: TokenModel,
    priority: int,
) -> Option<TokenModel> {
    match (left, right) {
        (TokenModel::Int(x), TokenModel::Int(y)) => match fold_ints(x, middle, y, priority) {
            Some(v) => Some(TokenModel::Int(v)),
            None => None,
        },
        (TokenModel::Float(x), TokenModel::Int(n)) => if middle == TokenModel::E && priority == 0 {
            Some(TokenModel::Float(FloatModel::Scaled(Box::new(x), n as int)))
        } else {
            None
        },
        (TokenModel::Float(x), TokenModel::Float(y)) => match fold_floats(x, middle, y, priority) {
            Some(v) => Some(TokenModel::Float(v)),
            None => None,
        },
        _ => if encloses(left, right) {
            Some(middle)
        } else {
            None
        },
    }
}

/// The fold of the three tokens around position `i`, if there are three and they fold.
pub open spec fn triple_at(s: Seq<TokenModel>, i: int, priority: int) -> Option<TokenModel> {
    if 0 < i < s.len() - 1 {
        fold_triple(s[i - 1], s[i], s[i + 1], priority)
    } else {
        None
    }
}

/// Two multiplication signs in a row, the second at position `i`.
pub open spec fn pair_at(s: Seq<TokenModel>, i: int) -> bool {
    0 < i < s.len() && s[i - 1] == TokenModel::Multiply && s[i] == TokenModel::Multiply
}

/// Some rule applies at position `i`.
pub open spec fn redex_at(s: Seq<TokenModel>, i: int, priority: int) -> bool {
    triple_at(s, i, priority) is Some || pair_at(s, i)
}

/// The buffer after the rule that applies at position `i` has been applied:
/// a folded triple leaves its result in place of the three tokens, and two
/// multiplication signs leave one power sign.
pub open spec fn rewrite_at(s: Seq<TokenModel>, i: int, priority: int) -> Seq<TokenModel> {
    match triple_at(s, i, priority) {
        Some(t) => s.subrange(0, i - 1).push(t) + s.subrange(i + 2, s.len() as int),
        None => s.subrange(0, i - 1).push(TokenModel::Power) + s.subrange(i + 1, s.len() as int),
    }
}

/// The priority after the rule at position `i` has been applied: dissolving
/// a grouping pair starts again at the first priority.
pub open spec fn priority_after(s: Seq<TokenModel>, i: int, priority: int) -> int {
    if triple_at(s, i, priority) is Some && encloses(s[i - 1], s[i + 1]) {
        0
    } else {
        priority
    }
}

/// The first position at or after `from` where a rule applies.
pub open spec fn first_redex(s: Seq<TokenModel>, from: int, priority: int) -> Option<int>
    decreases s.len() - from,
{
    if from >= s.len() {
        None
    } else if redex_at(s, from, priority) {
        Some(from)
    } else {
        first_redex(s, from + 1, priority)
    }
}

pub proof fn lemma_first_redex(s: Seq<TokenModel>, from: int, priority: int)
    requires
        0 <= from,
    ensures
        match first_redex(s, from, priority) {
            Some(i) => from <= i < s.len() && redex_at(s, i, priority) && forall|k: int|
                from <= k < i ==> !redex_at(s, k, priority),
            None => forall|k: int| from <= k < s.len() ==> !redex_at(s, k, priority),
        },
    decreases s.len() - from,
{
    if from < s.len() && !redex_at(s, from, priority) {
        lemma_first_redex(s, from + 1, priority);
    }
}

/// The number of scans in a row that must change nothing before reduction stops.
pub open spec fn idle_limit() -> int {
    5
}

/// Reduction from a given state: the buffer, the current priority, and the
/// number of scans in a row that have changed nothing. Each scan applies
/// the leftmost rule of the current priority and starts again; a scan that
/// finds none moves on to the next priority, the third being followed by
/// the first.
pub open spec fn reduce_from(s: Seq<TokenModel>, priority: int, idle: int) -> Seq<TokenModel>
    decreases s.len(), idle_limit() - idle,
    via reduce_from_decreases
{
    if idle < 0 || idle >= idle_limit() {
        s
    } else {
        match first_redex(s, 0, priority) {
            Some(i) => reduce_from(rewrite_at(s, i, priority), priority_after(s, i, priority), 0),
            None => reduce_from(s, (priority + 1) % 3, idle + 1),
        }
    }
}

#[via_fn]
proof fn reduce_from_decreases(s: Seq<TokenModel>, priority: int, idle: int) {
    lemma_first_redex(s, 0, priority);
}

/// The reduced form of a token sequence.
pub open spec fn reduced(s: Seq<TokenModel>) -> Seq<TokenModel> {
    reduce_from(s, 0, 0)
}

/// No rule applies anywhere in the sequence, at any priority.
pub open spec fn fully_reduced(s: Seq<TokenModel>) -> bool {
    forall|i: int, priority: int|
        0 <= i < s.len() && 0 <= priority < 3 ==> !#[trigger] redex_at(s, i, priority)
}

/// No rule of the given priority applies anywhere in the sequence.
pub open spec fn quiet(s: Seq<TokenModel>, priority: int) -> bool {
    forall|i: int| 0 <= i < s.len() ==> !#[trigger] redex_at(s, i, priority)
}

proof fn lemma_fixed_from(s: Seq<TokenModel>, priority: int, idle: int)
    requires
        fully_reduced(s),
        0 <= priority < 3,
    ensures
        reduce_from(s, priority, idle) == s,
    decreases idle_limit() - idle,
{
    if 0 <= idle < idle_limit() {
        lemma_first_redex(s, 0, priority);
        lemma_fixed_from(s, (priority + 1) % 3, idle + 1);
    }
}

/// Reducing a sequence in which no rule applies changes nothing.
pub proof fn lemma_reduced_is_fixed(s: Seq<TokenModel>)
    requires
        fully_reduced(s),
    ensures
        reduced(s) == s,
{
    lemma_fixed_from(s, 0, 0);
}

proof fn lemma_completes_from(s: Seq<TokenModel>, priority: int, idle: int)
    requires
        0 <= priority < 3,
        0 <= idle <= idle_limit(),
        idle >= 1 ==> quiet(s, (priority + 2) % 3),
        idle >= 2 ==> quiet(s, (priority + 1) % 3),
        idle >= 3 ==> quiet(s, priority),
    ensures
        fully_reduced(reduce_from(s, priority, idle)),
    decreases s.len(), idle_limit() - idle,
{
    if idle >= idle_limit() {
        assert(quiet(s, 0) && quiet(s, 1) && quiet(s, 2));
    } else {
        lemma_first_redex(s, 0, priority);
        match first_redex(s, 0, priority) {
            Some(i) => {
                lemma_completes_from(rewrite_at(s, i, priority), priority_after(s, i, priority), 0);
            },
            None => {
                assert(quiet(s, priority));
                lemma_completes_from(s, (priority + 1) % 3, idle + 1);
            },
        }
    }
}

/// In a reduced sequence no rule applies any more.
pub proof fn lemma_reduction_completes(s: Seq<TokenModel>)
    ensures
        fully_reduced(reduced(s)),
{
    lemma_completes_from(s, 0, 0);
}

proof fn lemma_never_longer_from(s: Seq<TokenModel>, priority: int, idle: int)
    ensures
        reduce_from(s, priority, idle).len() <= s.len(),
    decreases s.len(), idle_limit() - idle,
{
    if 0 <= idle < idle_limit() {
        lemma_first_redex(s, 0, priority);
        match first_redex(s, 0, priority) {
            Some(i) => {
                lemma_never_longer_from(
                    rewrite_at(s, i, priority),
                    priority_after(s, i, priority),
                    0,
                );
            },
            None => {
                lemma_never_longer_from(s, (priority + 1) % 3, idle + 1);
            },
        }
    }
}

/// Reduction never makes a sequence longer.
pub proof fn lemma_reduction_never_lengthens(s: Seq<TokenModel>)
    ensures
        reduced(s).len() <= s.len(),
{
    lemma_never_longer_from(s, 0, 0);
}

/// Reducing twice gives what reducing once gives.
pub proof fn lemma_reduction_idempotent(s: Seq<TokenModel>)
    ensures
        reduced(reduced(s)) == reduced(s),
{
    lemma_reduction_completes(s);
    lemma_reduced_is_fixed(reduced(s));
}

fn fold_ints_exec(x: i32, op: &Token, y: i32, priority: u8) -> (out: Option<i32>)
    ensures
        out == fold_ints(x, op@, y, priority as int),
{
    match op {
        Token::Power => if priority == 0 {
            int_power(x, y)
        } else {
            None
        },
        Token::Multiply => if priority == 1 {
            int_product(x, y)
        } else {
            None
        },
        Token::Divide => if priority == 1 {
            int_quotient(x, y)
        } else {
            None
        },
        Token::Add => if priority == 2 {
            int_sum(x, y)
        } else {
            None
        },
        Token::Subtract => if priority == 2 {
            int_difference(x, y)
        } else {
            None
        },
        _ => None,
    }
}

fn fold_floats_exec(x: &FloatExpr, op: &Token, y: &FloatExpr, priority: u8) -> (out: Option<
    FloatExpr,
>)
    ensures
        match out {
            Some(v) => fold_floats(x@, op@, y@, priority as int) == Some(v@),
            None => fold_floats(x@, op@, y@, priority as int) is None,
        },
{
    match op {
        Token::Multiply => if priority == 1 {
            Some(FloatExpr::Product(Box::new(x.clone()), Box::new(y.clone())))
        } else {
            None
        },
        Token::Divide => if priority == 1 {
            Some(FloatExpr::Quotient(Box::new(x.clone()), Box::new(y.clone())))
        } else {
            None
        },
        Token::Add => if priority == 2 {
            Some(FloatExpr::Sum(Box::new(x.clone()), Box::new(y.clone())))
        } else {
            None
        },
        Token::Subtract => if priority == 2 {
            Some(FloatExpr::Difference(Box::new(x.clone()), Box::new(y.clone())))
        } else {
            None
        },
        _ => None,
    }
}

fn encloses_exec(left: &Token, right: &Token) -> (out: bool)
    ensures
        out == encloses(left@, right@),
{
    match (left, right) {
        (
            Token::OpenParen { id: a, function: false },
            Token::CloseParen { id: b, function: false },
        ) => match (a, b) {
            (Some(x), Some(y)) => *x == *y,
            (None, None) => true,
            _ => false,
        },
        _ => false,
    }
}

fn fold_triple_exec(left: &Token, middle: &Token, right: &Token, priority: u8) -> (out: Option<
    Token,
>)
    ensures
        match out {
            Some(t) => fold_triple(left@, middle@, right@, priority as int) == Some(t@),
            None => fold_triple(left@, middle@, right@, priority as int) is None,
        },
{
    match (left, right) {
        (Token::Int(x), Token::Int(y)) => match fold_ints_exec(*x, middle, *y, priority) {
            Some(v) => Some(Token::Int(v)),
            None => None,
        },
        (Token::Float(x), Token::Int(n)) => match middle {
            Token::E => if priority == 0 {
                Some(Token::Float(FloatExpr::Scaled(Box::new(x.clone()), *n)))
            } else {
                None
            },
            _ => None,
        },
        (Token::Float(x), Token::Float(y)) => match fold_floats_exec(x, middle, y, priority) {
            Some(v) => Some(Token::Float(v)),
            None => None,
        },
        _ => if encloses_exec(left, right) {
            Some(middle.clone())
        } else {
            None
        },
    }
}

fn is_multiply(t: &Token) -> (out: bool)
    ensures
        out == (t@ == TokenModel::Multiply),
{
    match t {
        Token::Multiply => true,
        _ => false,
    }
}

/// Folds the numeric sub-expressions of a token buffer in place, as
/// [`reduced`] says.
pub fn combine_and_expand(tokens: &mut Vec<Token>)
    ensures
        final(tokens).deep_view() == reduced(old(tokens).deep_view()),
{
    let mut i: usize = 0;
    let mut priority: u8 = 0;
    let mut idle: u8 = 0;
    while idle < 5
        invariant
            0 <= priority < 3,
            0 <= idle <= 5,
            i <= tokens.len(),
            reduce_from(tokens.deep_view(), priority as int, idle as int) == reduced(
                old(tokens).deep_view(),
            ),
            first_redex(tokens.deep_view(), 0, priority as int) == first_redex(
                tokens.deep_view(),
                i as int,
                priority as int,
            ),
        decreases tokens.len(), 5 - idle, tokens.len() - i,
    {
        let ghost s = tokens.deep_view();
        let n = tokens.len();
        if i >= n {
            priority = (priority + 1) % 3;
            idle = idle + 1;
            i = 0;
        } else {
            let folded = if 0 < i && i + 1 < n {
                fold_triple_exec(&tokens[i - 1], &tokens[i], &tokens[i + 1], priority)
            } else {
                None
            };
            assert(match folded {
                Some(t) => triple_at(s, i as int, priority as int) == Some(t@),
                None => triple_at(s, i as int, priority as int) is None,
            });
            match folded {
                Some(t) => {
                    let grouping = encloses_exec(&tokens[i - 1], &tokens[i + 1]);
                    tokens.remove(i + 1);
                    tokens.set(i, t);
                    tokens.remove(i - 1);
                    proof {
                        lemma_first_redex(s, i as int, priority as int);
                        assert(tokens.deep_view() =~= rewrite_at(s, i as int, priority as int));
                    }
                    if grouping {
                        priority = 0;
                    }
                    idle = 0;
                    i = 0;
                },
                None => {
                    if 0 < i && is_multiply(&tokens[i - 1]) && is_multiply(&tokens[i]) {
                        tokens.set(i, Token::Power);
                        tokens.remove(i - 1);
                        proof {
                            lemma_first_redex(s, i as int, priority as int);
                            assert(tokens.deep_view() =~= rewrite_at(
                                s,
                                i as int,
                                priority as int,
                            ));
                        }
                        idle = 0;
                        i = 0;
                    } else {
                        assert(!redex_at(s, i as int, priority as int));
                        i = i + 1;
                    }
                },
            }
        }
    }
}

} // verus!

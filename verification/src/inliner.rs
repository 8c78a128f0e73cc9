use crate::env::Environment;
use crate::token::{
    clone_tokens, copy_range, copy_without, extend_tokens, without, Token, TokenModel,
};
use vstd::prelude::*;

verus! {

/// A call: the name of what is called and the id of its parentheses.
pub struct CallSite {
    pub name: Seq<char>,
    pub id: i64,
}

/// The call whose opening parenthesis stands at position `i`: an
/// identifier followed at once by a call parenthesis that has an id.
pub open spec fn call_site(s: Seq<TokenModel>, i: int) -> Option<CallSite> {
    if 1 <= i < s.len() {
        match (s[i - 1], s[i]) {
            (
                TokenModel::Identifier(name),
                TokenModel::OpenParen { id: Some(id), function: true },
            ) => Some(CallSite { name, id }),
            _ => None,
        }
    } else {
        None
    }
}

/// The closing parenthesis of a call.
pub open spec fn call_end(id: i64) -> TokenModel {
    TokenModel::CloseParen { id: Some(id), function: true }
}

/// The first position at or after `from` that holds the given token; the
/// length of the sequence where none does.
pub open spec fn find_from(s: Seq<TokenModel>, wanted: TokenModel, from: int) -> int
    decreases s.len() - from,
{
    if from >= s.len() {
        s.len() as int
    } else if s[from] == wanted {
        from
    } else {
        find_from(s, wanted, from + 1)
    }
}

/// The pieces between the commas of a sequence: one more than it has commas.
pub open spec fn split_on_commas(s: Seq<TokenModel>) -> Seq<Seq<TokenModel>>
    decreases s.len(),
{
    if s.len() == 0 {
        seq![Seq::<TokenModel>::empty()]
    } else {
        let before = split_on_commas(s.drop_last());
        if s.last() == TokenModel::Comma {
            before.push(Seq::<TokenModel>::empty())
        } else {
            before.drop_last().push(before.last().push(s.last()))
        }
    }
}

/// The body with the actual tokens in place of each occurrence of the
/// formal parameter. Only an identifier counts as an occurrence.
pub open spec fn substitute(
    body: Seq<TokenModel>,
    formal: TokenModel,
    actual: Seq<TokenModel>,
) -> Seq<TokenModel>
    decreases body.len(),
{
    if body.len() == 0 {
        body
    } else {
        let head = substitute(body.drop_last(), formal, actual);
        if body.last() is Identifier && body.last() == formal {
            head + actual
        } else {
            head.push(body.last())
        }
    }
}

/// The body after the first `k` formal parameters have been replaced, one
/// after the other, by the arguments at their positions.
pub open spec fn bind(
    body: Seq<TokenModel>,
    formals: Seq<TokenModel>,
    arguments: Seq<Seq<TokenModel>>,
    k: nat,
) -> Seq<TokenModel>
    decreases k,
{
    if k == 0 {
        body
    } else {
        substitute(
            bind(body, formals, arguments, (k - 1) as nat),
            formals[k - 1],
            arguments[k - 1],
        )
    }
}

/// The number of parameters that have an argument.
pub open spec fn bound_count(formals: Seq<TokenModel>, arguments: Seq<Seq<TokenModel>>) -> nat {
    if formals.len() <= arguments.len() {
        formals.len()
    } else {
        arguments.len()
    }
}

/// The body of a function for a call with the given tokens between its
/// parentheses. A parameter without an argument stays as it is, and an
/// argument without a parameter is dropped.
pub open spec fn expansion(
    body: Seq<TokenModel>,
    formals: Seq<TokenModel>,
    between: Seq<TokenModel>,
) -> Seq<TokenModel> {
    let arguments = split_on_commas(between);
    bind(body, formals, arguments, bound_count(formals, arguments))
}

/// The id of the grouping parentheses put around the expansion made after
/// `count` others: negative, so that it is none of the ids that tagging
/// gives, and different for each expansion of one pass.
pub open spec fn minted(count: nat) -> i64 {
    (-2 - count) as i64
}

/// The tokens inside grouping parentheses of the given id.
pub open spec fn grouped(tokens: Seq<TokenModel>, id: i64) -> Seq<TokenModel> {
    seq![TokenModel::OpenParen { id: Some(id), function: false }] + tokens
        + seq![TokenModel::CloseParen { id: Some(id), function: false }]
}

/// Tokens to put in place of the positions from `start` to `end`, both included.
pub struct Splice {
    pub start: int,
    pub end: int,
    pub tokens: Seq<TokenModel>,
}

/// What a scan has gathered: the functions defined so far, each with its
/// parameters and its body, and the calls to replace.
pub struct ScanState {
    pub formals: Map<Seq<char>, Seq<TokenModel>>,
    pub bodies: Map<Seq<char>, Seq<TokenModel>>,
    pub splices: Seq<Splice>,
}

/// What examining position `i` adds to the state. A call of a function
/// defined so far is marked for replacement by its expansion; a call
/// followed by an equals sign defines the function, for the calls that
/// come later.
pub open spec fn scan_step(s: Seq<TokenModel>, i: int, st: ScanState) -> ScanState {
    match call_site(s, i) {
        None => st,
        Some(call) => {
            let j = find_from(s, call_end(call.id), i + 1);
            if j >= s.len() {
                st
            } else {
                let between = s.subrange(i + 1, j);
                let splices = if st.bodies.contains_key(call.name) && st.formals.contains_key(
                    call.name,
                ) {
                    st.splices.push(
                        Splice {
                            start: i - 1,
                            end: j,
                            tokens: grouped(
                                expansion(st.bodies[call.name], st.formals[call.name], between),
                                minted(st.splices.len()),
                            ),
                        },
                    )
                } else {
                    st.splices
                };
                if j + 1 < s.len() && s[j + 1] == TokenModel::Equals {
                    ScanState {
                        formals: st.formals.insert(call.name, without(between, TokenModel::Comma)),
                        bodies: st.bodies.insert(
                            call.name,
                            s.subrange(j + 2, find_from(s, TokenModel::Newline, j + 2)),
                        ),
                        splices,
                    }
                } else {
                    ScanState { splices, ..st }
                }
            }
        },
    }
}

/// The state after the positions before `i` have been examined.
pub open spec fn scan(s: Seq<TokenModel>, i: int) -> ScanState
    decreases i,
{
    if i <= 1 {
        ScanState { formals: Map::empty(), bodies: Map::empty(), splices: Seq::empty() }
    } else {
        scan_step(s, i - 1, scan(s, i - 1))
    }
}

/// The sequence with one splice made. A splice that reaches beyond the
/// end of the sequence is not made.
pub open spec fn splice_one(s: Seq<TokenModel>, p: Splice) -> Seq<TokenModel> {
    if 0 <= p.start <= p.end < s.len() {
        s.subrange(0, p.start) + p.tokens + s.subrange(p.end + 1, s.len() as int)
    } else {
        s
    }
}

/// The sequence with the splices made, the last one first.
pub open spec fn splice_all(s: Seq<TokenModel>, splices: Seq<Splice>) -> Seq<TokenModel>
    decreases splices.len(),
{
    if splices.len() == 0 {
        s
    } else {
        splice_all(splice_one(s, splices.last()), splices.drop_last())
    }
}

/// The sequence after one pass of inlining.
pub open spec fn inlined(s: Seq<TokenModel>) -> Seq<TokenModel> {
    splice_all(s, scan(s, s.len() as int).splices)
}

/// Positions at which no call begins leave the state of a scan as it was.
proof fn lemma_scan_passes(s: Seq<TokenModel>, i: int, j: int)
    requires
        1 <= i <= j,
        forall|k: int| i <= k < j ==> call_site(s, k) is None,
    ensures
        scan(s, j) == scan(s, i),
    decreases j - i,
{
    if i < j {
        lemma_scan_passes(s, i, j - 1);
    }
}

/// The first position that holds a token is where [`find_from`] stops.
proof fn lemma_found_at(s: Seq<TokenModel>, wanted: TokenModel, from: int, at: int)
    requires
        0 <= from <= at < s.len(),
        s[at] == wanted,
        forall|k: int| from <= k < at ==> s[k] != wanted,
    ensures
        find_from(s, wanted, from) == at,
    decreases at - from,
{
    if from < at {
        lemma_found_at(s, wanted, from + 1, at);
    }
}

/// Tokens without a comma are one argument.
proof fn lemma_one_argument(s: Seq<TokenModel>)
    requires
        forall|i: int| 0 <= i < s.len() ==> s[i] != TokenModel::Comma,
    ensures
        split_on_commas(s) == seq![s],
    decreases s.len(),
{
    if s.len() == 0 {
        assert(s =~= Seq::<TokenModel>::empty());
    } else {
        lemma_one_argument(s.drop_last());
        assert(s.drop_last().push(s.last()) =~= s);
        assert(split_on_commas(s) =~= seq![s]);
    }
}

/// The line that defines a function of one parameter.
pub open spec fn definition_line(
    name: Seq<char>,
    id: i64,
    formal: Seq<char>,
    body: Seq<TokenModel>,
) -> Seq<TokenModel> {
    seq![
        TokenModel::Identifier(name),
        TokenModel::OpenParen { id: Some(id), function: true },
        TokenModel::Identifier(formal),
        call_end(id),
        TokenModel::Equals,
    ] + body + seq![TokenModel::Newline]
}

/// A call of a function.
pub open spec fn call_of(name: Seq<char>, id: i64, between: Seq<TokenModel>) -> Seq<TokenModel> {
    seq![TokenModel::Identifier(name), TokenModel::OpenParen { id: Some(id), function: true }]
        + between + seq![call_end(id)]
}

/// No call begins inside the sequence.
pub open spec fn holds_no_call(s: Seq<TokenModel>) -> bool {
    forall|i: int| #[trigger] call_site(s, i) is None
}

/// A function of one parameter, defined on one line and called once on a
/// later one with one argument, no other call standing anywhere: inlining
/// leaves all else as it stands and puts in place of the call the body, in
/// grouping parentheses of a fresh id, with the argument's tokens in place
/// of each occurrence of the parameter. So the call reduces as the body
/// does once the argument is written into it by hand.
pub proof fn lemma_call_is_expanded(
    name: Seq<char>,
    formal: Seq<char>,
    body: Seq<TokenModel>,
    between: Seq<TokenModel>,
    actual: Seq<TokenModel>,
    after: Seq<TokenModel>,
    b: i64,
    c: i64,
)
    requires
        forall|i: int| 0 <= i < body.len() ==> body[i] != TokenModel::Newline,
        forall|i: int|
            0 <= i < actual.len() ==> actual[i] != TokenModel::Comma && actual[i] != call_end(c),
        holds_no_call(body),
        holds_no_call(between),
        holds_no_call(actual),
        holds_no_call(after),
    ensures
        inlined(
            definition_line(name, b, formal, body) + between + call_of(name, c, actual) + after,
        ) == definition_line(name, b, formal, body) + between + grouped(
            substitute(body, TokenModel::Identifier(formal), actual),
            minted(0),
        ) + after,
{
    let def = definition_line(name, b, formal, body);
    let call = call_of(name, c, actual);
    let s = def + between + call + after;
    let d = def.len() as int;
    let e = d + between.len();
    let f = e + call.len();
    let n = s.len() as int;
    let parameter = TokenModel::Identifier(formal);
    assert(d == body.len() + 6);
    assert(f == e + actual.len() + 3);
    assert(n == f + after.len());
    assert(s[0] == TokenModel::Identifier(name));
    assert(s[1] == TokenModel::OpenParen { id: Some(b), function: true });
    assert(s[2] == parameter);
    assert(s[3] == call_end(b));
    assert(s[4] == TokenModel::Equals);
    assert forall|k: int| 5 <= k < 5 + body.len() implies s[k] == body[k - 5] by {}
    assert(s[d - 1] == TokenModel::Newline);
    assert forall|k: int| d <= k < e implies s[k] == between[k - d] by {}
    assert(s[e] == TokenModel::Identifier(name));
    assert(s[e + 1] == TokenModel::OpenParen { id: Some(c), function: true });
    assert forall|k: int| e + 2 <= k < f - 1 implies s[k] == actual[k - e - 2] by {}
    assert(s[f - 1] == call_end(c));
    assert forall|k: int| f <= k < n implies s[k] == after[k - f] by {}

    // The definition.
    let start = scan(s, 1);
    assert(call_site(s, 1) == Some(CallSite { name, id: b }));
    lemma_found_at(s, call_end(b), 2, 3);
    lemma_found_at(s, TokenModel::Newline, 5, d - 1);
    assert(s.subrange(2, 3) =~= seq![parameter]);
    assert(without(seq![parameter], TokenModel::Comma) =~= seq![parameter]) by {
        reveal_with_fuel(without, 2);
        assert(seq![parameter].drop_last() =~= Seq::<TokenModel>::empty());
    }
    assert(s.subrange(5, d - 1) =~= body);
    let defined = scan(s, 2);
    assert(defined == scan_step(s, 1, start));
    assert(defined.formals == start.formals.insert(name, seq![parameter]));
    assert(defined.bodies == start.bodies.insert(name, body));
    assert(defined.splices =~= Seq::<Splice>::empty());

    // Up to the call.
    assert forall|k: int| 2 <= k < e + 1 implies call_site(s, k) is None by {
        if 5 < k < 5 + body.len() {
            assert(call_site(body, k - 5) is None);
        }
        if d < k < e {
            assert(call_site(between, k - d) is None);
        }
    }
    lemma_scan_passes(s, 2, e + 1);

    // The call.
    assert(call_site(s, e + 1) == Some(CallSite { name, id: c }));
    lemma_found_at(s, call_end(c), e + 2, f - 1);
    assert(s.subrange(e + 2, f - 1) =~= actual);
    lemma_one_argument(actual);
    let arguments = seq![actual];
    assert(bind(body, seq![parameter], arguments, 1) == substitute(body, parameter, actual)) by {
        reveal_with_fuel(bind, 2);
    }
    let put_in = grouped(substitute(body, parameter, actual), minted(0));
    let p = Splice { start: e, end: f - 1, tokens: put_in };
    let called = scan(s, e + 2);
    assert(called == scan_step(s, e + 1, defined));
    assert(called.splices =~= seq![p]);

    // After the call.
    assert forall|k: int| e + 2 <= k < n implies call_site(s, k) is None by {
        if e + 2 < k < f - 1 {
            assert(call_site(actual, k - e - 2) is None);
        }
        if f < k < n {
            assert(call_site(after, k - f) is None);
        }
    }
    lemma_scan_passes(s, e + 2, n);
    assert(scan(s, n).splices == seq![p]);
    assert(seq![p].drop_last() =~= Seq::<Splice>::empty());
    assert(splice_all(s, seq![p]) == splice_one(s, p)) by {
        reveal_with_fuel(splice_all, 2);
    }
    assert(splice_one(s, p) =~= def + between + put_in + after);
}

struct Pending {
    start: usize,
    end: usize,
    tokens: Vec<Token>,
}

impl View for Pending {
    type V = Splice;

    closed spec fn view(&self) -> Splice {
        Splice { start: self.start as int, end: self.end as int, tokens: self.tokens.deep_view() }
    }
}

impl DeepView for Pending {
    type V = Splice;

    closed spec fn deep_view(&self) -> Splice {
        self@
    }
}

fn find_token(tokens: &Vec<Token>, wanted: &Token, from: usize) -> (r: usize)
    requires
        from <= tokens.len(),
    ensures
        r == find_from(tokens.deep_view(), wanted@, from as int),
        from <= r <= tokens.len(),
{
    let ghost s = tokens.deep_view();
    let mut i: usize = from;
    while i < tokens.len()
        invariant
            from <= i <= tokens.len(),
            s == tokens.deep_view(),
            find_from(s, wanted@, from as int) == find_from(s, wanted@, i as int),
        decreases tokens.len() - i,
    {
        if tokens[i].same_as(wanted) {
            return i;
        }
        i += 1;
    }
    i
}

fn split_arguments(tokens: &Vec<Token>, from: usize, to: usize) -> (r: Vec<Vec<Token>>)
    requires
        from <= to <= tokens.len(),
    ensures
        r.deep_view() == split_on_commas(tokens.deep_view().subrange(from as int, to as int)),
{
    let ghost part = tokens.deep_view().subrange(from as int, to as int);
    let mut pieces: Vec<Vec<Token>> = Vec::new();
    let mut piece: Vec<Token> = Vec::new();
    let mut i: usize = from;
    proof {
        assert(piece.deep_view() =~= Seq::<TokenModel>::empty());
        assert(pieces.deep_view() =~= Seq::<Seq<TokenModel>>::empty());
        assert(part.take(0) =~= Seq::<TokenModel>::empty());
        assert(pieces.deep_view().push(piece.deep_view()) =~= seq![Seq::<TokenModel>::empty()]);
    }
    while i < to
        invariant
            from <= i <= to <= tokens.len(),
            part == tokens.deep_view().subrange(from as int, to as int),
            pieces.deep_view().push(piece.deep_view()) == split_on_commas(part.take(i - from)),
        decreases to - i,
    {
        let ghost done = pieces.deep_view();
        let ghost open_piece = piece.deep_view();
        proof {
            assert(part.take(i - from + 1).drop_last() =~= part.take(i - from));
            assert(part.take(i - from + 1).last() == tokens[i as int]@);
            assert(done.push(open_piece).last() == open_piece);
            assert(done.push(open_piece).drop_last() =~= done);
        }
        match &tokens[i] {
            Token::Comma => {
                pieces.push(piece);
                assert(pieces.deep_view() =~= done.push(open_piece));
                piece = Vec::new();
                assert(piece.deep_view() =~= Seq::<TokenModel>::empty());
            },
            t => {
                piece.push(t.clone());
                assert(piece.deep_view() =~= open_piece.push(tokens[i as int]@));
            },
        }
        i += 1;
    }
    assert(part.take(i - from) =~= part);
    let ghost done = pieces.deep_view();
    let ghost open_piece = piece.deep_view();
    pieces.push(piece);
    assert(pieces.deep_view() =~= done.push(open_piece));
    pieces
}

fn is_identifier(t: &Token) -> (r: bool)
    ensures
        r == (t@ is Identifier),
{
    match t {
        Token::Identifier(_) => true,
        _ => false,
    }
}

fn substitute_exec(body: &Vec<Token>, formal: &Token, actual: &Vec<Token>) -> (r: Vec<Token>)
    ensures
        r.deep_view() == substitute(body.deep_view(), formal@, actual.deep_view()),
{
    let ghost b = body.deep_view();
    let mut out: Vec<Token> = Vec::new();
    let mut i: usize = 0;
    assert(out.deep_view() =~= substitute(b.take(0), formal@, actual.deep_view()));
    while i < body.len()
        invariant
            i <= body.len(),
            b == body.deep_view(),
            out.deep_view() == substitute(b.take(i as int), formal@, actual.deep_view()),
        decreases body.len() - i,
    {
        let ghost before = out.deep_view();
        proof {
            assert(b.take(i + 1).drop_last() =~= b.take(i as int));
            assert(b.take(i + 1).last() == body[i as int]@);
        }
        if is_identifier(&body[i]) && body[i].same_as(formal) {
            extend_tokens(&mut out, actual);
        } else {
            out.push(body[i].clone());
            assert(out.deep_view() =~= before.push(body[i as int]@));
        }
        i += 1;
    }
    assert(b.take(i as int) =~= b);
    out
}

fn expand_call(
    body: &Vec<Token>,
    formals: &Vec<Token>,
    tokens: &Vec<Token>,
    from: usize,
    to: usize,
) -> (r: Vec<Token>)
    requires
        from <= to <= tokens.len(),
    ensures
        r.deep_view() == expansion(
            body.deep_view(),
            formals.deep_view(),
            tokens.deep_view().subrange(from as int, to as int),
        ),
{
    let arguments = split_arguments(tokens, from, to);
    let count = if formals.len() <= arguments.len() {
        formals.len()
    } else {
        arguments.len()
    };
    let mut out = clone_tokens(body);
    let mut k: usize = 0;
    while k < count
        invariant
            k <= count,
            count <= formals.len(),
            count <= arguments.len(),
            out.deep_view() == bind(
                body.deep_view(),
                formals.deep_view(),
                arguments.deep_view(),
                k as nat,
            ),
        decreases count - k,
    {
        out = substitute_exec(&out, &formals[k], &arguments[k]);
        k += 1;
    }
    out
}

fn call_site_exec(tokens: &Vec<Token>, i: usize) -> (r: Option<(&String, i64)>)
    requires
        1 <= i < tokens.len(),
    ensures
        match r {
            Some(c) => call_site(tokens.deep_view(), i as int) == Some(
                CallSite { name: c.0@, id: c.1 },
            ),
            None => call_site(tokens.deep_view(), i as int) is None,
        },
{
    match (&tokens[i - 1], &tokens[i]) {
        (Token::Identifier(name), Token::OpenParen { id: Some(id), function: true }) => Some(
            (name, *id),
        ),
        _ => None,
    }
}

fn apply_pending(tokens: &mut Vec<Token>, p: Pending)
    ensures
        final(tokens).deep_view() == splice_one(old(tokens).deep_view(), p@),
{
    if p.start <= p.end && p.end < tokens.len() {
        let ghost before = tokens.deep_view();
        let mut rest = tokens.split_off(p.end + 1);
        tokens.truncate(p.start);
        let mut middle = p.tokens;
        tokens.append(&mut middle);
        tokens.append(&mut rest);
        assert(tokens.deep_view() =~= before.subrange(0, p.start as int) + p@.tokens
            + before.subrange(p.end + 1, before.len() as int));
    }
}

/// Replaces the calls of functions defined earlier in the buffer by the
/// functions' bodies, as [`inlined`] says.
pub fn inline_functions(tokens: &mut Vec<Token>)
    ensures
        final(tokens).deep_view() == inlined(old(tokens).deep_view()),
{
    let ghost s = tokens.deep_view();
    let mut formals = Environment::new();
    let mut bodies = Environment::new();
    let mut pending: Vec<Pending> = Vec::new();
    let n = tokens.len();
    let mut i: usize = 1;
    assert(pending.deep_view() =~= scan(s, 1).splices);
    while i < n
        invariant
            1 <= i,
            i <= n || i == 1,
            n == tokens.len(),
            s == tokens.deep_view(),
            s == old(tokens).deep_view(),
            formals@ == scan(s, i as int).formals,
            bodies@ == scan(s, i as int).bodies,
            pending.deep_view() == scan(s, i as int).splices,
            2 * pending.len() <= i,
            call_site(s, i - 1) is None ==> 2 * pending.len() + 1 <= i,
        decreases n - i,
    {
        let ghost st = scan(s, i as int);
        match call_site_exec(tokens, i) {
            None => {},
            Some((name, id)) => {
                assert(call_site(s, i - 1) is None);
                let closing = Token::CloseParen { id: Some(id), function: true };
                let j = find_token(tokens, &closing, i + 1);
                if j < n {
                    match (bodies.get(name), formals.get(name)) {
                        (Some(body), Some(parameters)) => {
                            let expanded = expand_call(body, parameters, tokens, i + 1, j);
                            let fresh: i64 = -2 - (pending.len() as i64);
                            assert(fresh == minted(pending.len() as nat));
                            let mut group: Vec<Token> = Vec::new();
                            group.push(Token::OpenParen { id: Some(fresh), function: false });
                            let ghost opened = group.deep_view();
                            assert(opened =~= seq![
                                TokenModel::OpenParen { id: Some(fresh), function: false },
                            ]);
                            extend_tokens(&mut group, &expanded);
                            let ghost filled = group.deep_view();
                            group.push(Token::CloseParen { id: Some(fresh), function: false });
                            assert(group.deep_view() =~= filled.push(
                                TokenModel::CloseParen { id: Some(fresh), function: false },
                            ));
                            assert(group.deep_view() =~= grouped(expanded.deep_view(), fresh));
                            let ghost before = pending.deep_view();
                            let p = Pending { start: i - 1, end: j, tokens: group };
                            pending.push(p);
                            assert(pending.deep_view() =~= before.push(p@));
                        },
                        _ => {},
                    }
                    if j + 1 < n && tokens[j + 1].same_as(&Token::Equals) {
                        let parameters = copy_without(tokens, i + 1, j, &Token::Comma);
                        let line_end = find_token(tokens, &Token::Newline, j + 2);
                        let body = copy_range(tokens, j + 2, line_end);
                        formals.insert(name.clone(), parameters);
                        bodies.insert(name.clone(), body);
                    }
                }
            },
        }
        i += 1;
    }
    assert(scan(s, i as int) == scan(s, s.len() as int));
    let mut k: usize = pending.len();
    while k > 0
        invariant
            k <= pending.len(),
            pending.len() == k,
            splice_all(tokens.deep_view(), pending.deep_view()) == inlined(s),
        decreases k,
    {
        let ghost all = pending.deep_view();
        let p = pending.pop().unwrap();
        assert(pending.deep_view() =~= all.drop_last());
        assert(p@ == all.last());
        apply_pending(tokens, p);
        k -= 1;
    }
}

} // verus!

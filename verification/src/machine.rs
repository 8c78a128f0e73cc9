use crate::env::Environment;
use crate::reducer::{combine_and_expand, reduced};
use crate::token::{copy_without, extend_tokens, without, Token, TokenModel};
use std::collections::HashMap;
use vstd::prelude::*;

verus! {

broadcast use vstd::std_specs::hash::group_hash_axioms;

/// What the machine shows to its operator.
#[derive(Debug)]
pub struct IO704 {
    pub sense_switches: Vec<bool>,
    pub sense_lights: Vec<bool>,
    pub display: i32,
    pub stop_light: bool,
    pub print: String,
}

/// The mathematical model of an [`IO704`].
pub struct IoModel {
    pub sense_switches: Seq<bool>,
    pub sense_lights: Seq<bool>,
    pub display: i32,
    pub stop_light: bool,
    pub print: Seq<char>,
}

impl View for IO704 {
    type V = IoModel;

    open spec fn view(&self) -> IoModel {
        IoModel {
            sense_switches: self.sense_switches@,
            sense_lights: self.sense_lights@,
            display: self.display,
            stop_light: self.stop_light,
            print: self.print@,
        }
    }
}

impl IO704 {
    /// The machine has four sense lights.
    pub open spec fn well_formed(&self) -> bool {
        self.sense_lights@.len() == 4
    }
}

impl IO704 {
    /// The panel of a machine at rest: the switches as given, the four
    /// sense lights dark, the stop light on, nothing displayed or printed.
    pub fn new(sense_switches: Vec<bool>) -> (r: IO704)
        ensures
            r.well_formed(),
            r@ == (IoModel {
                sense_switches: sense_switches@,
                sense_lights: seq![false, false, false, false],
                display: 0,
                stop_light: true,
                print: Seq::empty(),
            }),
    {
        IO704 {
            sense_switches,
            sense_lights: four_dark(),
            display: 0,
            stop_light: true,
            print: String::new(),
        }
    }
}

impl Clone for IO704 {
    fn clone(&self) -> (r: IO704)
        ensures
            r@ == self@,
    {
        IO704 {
            sense_switches: self.sense_switches.clone(),
            sense_lights: self.sense_lights.clone(),
            display: self.display,
            stop_light: self.stop_light,
            print: self.print.clone(),
        }
    }
}

/// A counted loop that is being executed.
#[derive(Debug)]
pub struct DoStatement {
    start: usize,
    end: usize,
    max: i32,
    current: i32,
    variable: String,
    step: i32,
}

/// The mathematical model of a [`DoStatement`].
pub struct FrameModel {
    /// The line of the loop's header.
    pub start: nat,
    /// The line that closes the loop.
    pub end: nat,
    pub max: i32,
    pub current: i32,
    pub variable: Seq<char>,
    pub step: i32,
}

impl View for DoStatement {
    type V = FrameModel;

    closed spec fn view(&self) -> FrameModel {
        FrameModel {
            start: self.start as nat,
            end: self.end as nat,
            max: self.max,
            current: self.current,
            variable: self.variable@,
            step: self.step,
        }
    }
}

impl DeepView for DoStatement {
    type V = FrameModel;

    open spec fn deep_view(&self) -> FrameModel {
        self@
    }
}

impl DoStatement {
    /// A loop header is a line of a program, so another line can follow it.
    #[verifier::type_invariant]
    spec fn header_is_a_line(self) -> bool {
        self.start < usize::MAX
    }
}

impl DoStatement {
    /// The line of the loop's header.
    pub fn start(&self) -> (r: usize)
        ensures
            r == self@.start,
    {
        self.start
    }

    /// The line that closes the loop.
    pub fn end(&self) -> (r: usize)
        ensures
            r == self@.end,
    {
        self.end
    }

    /// The limit of the loop's variable.
    pub fn max(&self) -> (r: i32)
        ensures
            r == self@.max,
    {
        self.max
    }

    /// The value of the loop's variable.
    pub fn current(&self) -> (r: i32)
        ensures
            r == self@.current,
    {
        self.current
    }

    /// The name of the loop's variable.
    pub fn variable(&self) -> (r: &String)
        ensures
            r@ == self@.variable,
    {
        &self.variable
    }

    /// What is added to the variable each time round.
    pub fn step(&self) -> (r: i32)
        ensures
            r == self@.step,
    {
        self.step
    }
}

impl Clone for DoStatement {
    fn clone(&self) -> (r: DoStatement)
        ensures
            r@ == self@,
    {
        proof {
            use_type_invariant(self);
        }
        DoStatement {
            start: self.start,
            end: self.end,
            max: self.max,
            current: self.current,
            variable: self.variable.clone(),
            step: self.step,
        }
    }
}

/// The state of a running program.
pub struct MachineModel {
    /// The next line to execute.
    pub cursor: nat,
    pub variables: Map<Seq<char>, Seq<TokenModel>>,
    /// The loops being executed, the innermost last.
    pub frames: Seq<FrameModel>,
    pub io: IoModel,
}

/// A new state, with whether anything happened that the caller should see
/// before execution goes on, and whether the lights changed.
pub struct Effect {
    pub machine: MachineModel,
    pub acted: bool,
    pub refresh: bool,
}

/// The lines of a program: a line ends with its newline token, labels
/// belong to no line, and what follows the last newline is a line too.
pub open spec fn lines_of(s: Seq<TokenModel>) -> Seq<Seq<TokenModel>>
    decreases s.len(),
{
    if s.len() == 0 {
        seq![Seq::<TokenModel>::empty()]
    } else {
        let before = lines_of(s.drop_last());
        let open_line = before.last();
        match s.last() {
            TokenModel::Label(_) => before,
            TokenModel::Newline => before.drop_last().push(open_line.push(s.last())).push(
                Seq::<TokenModel>::empty(),
            ),
            _ => before.drop_last().push(open_line.push(s.last())),
        }
    }
}

/// The line that each label stands on. Where a label occurs twice, the
/// later occurrence counts.
pub open spec fn labels_of(s: Seq<TokenModel>) -> Map<i32, nat>
    decreases s.len(),
{
    if s.len() == 0 {
        Map::empty()
    } else {
        let before = labels_of(s.drop_last());
        match s.last() {
            TokenModel::Label(a) => before.insert(a, (lines_of(s.drop_last()).len() - 1) as nat),
            _ => before,
        }
    }
}

pub proof fn lemma_lines_of(s: Seq<TokenModel>)
    ensures
        1 <= lines_of(s).len() <= s.len() + 1,
        forall|a: i32| #[trigger]
            labels_of(s).contains_key(a) ==> labels_of(s)[a] < lines_of(s).len(),
    decreases s.len(),
{
    if s.len() > 0 {
        lemma_lines_of(s.drop_last());
        let before = labels_of(s.drop_last());
        assert forall|a: i32| #[trigger] labels_of(s).contains_key(a) implies labels_of(s)[a]
            < lines_of(s).len() by {
            if before.contains_key(a) {
                assert(before[a] < lines_of(s.drop_last()).len());
            }
        }
    }
}

/// An identifier that the environment binds.
pub open spec fn is_bound(t: TokenModel, variables: Map<Seq<char>, Seq<TokenModel>>) -> bool {
    match t {
        TokenModel::Identifier(a) => variables.contains_key(a),
        _ => false,
    }
}

/// Some token after the first is an identifier that the environment binds.
pub open spec fn mentions_bound(
    line: Seq<TokenModel>,
    variables: Map<Seq<char>, Seq<TokenModel>>,
) -> bool {
    exists|i: int| 1 <= i < line.len() && is_bound(#[trigger] line[i], variables)
}

/// The line with each bound identifier after the first token replaced by
/// the tokens bound to it.
pub open spec fn expand_bound(
    line: Seq<TokenModel>,
    variables: Map<Seq<char>, Seq<TokenModel>>,
) -> Seq<TokenModel>
    decreases line.len(),
{
    if line.len() == 0 {
        line
    } else {
        let head = expand_bound(line.drop_last(), variables);
        match line.last() {
            TokenModel::Identifier(a) => if line.len() > 1 && variables.contains_key(a) {
                head + variables[a]
            } else {
                head.push(line.last())
            },
            _ => head.push(line.last()),
        }
    }
}

/// The line as it is executed: where it mentions bound variables, their
/// values are put in and the line is reduced.
pub open spec fn resolved(
    line: Seq<TokenModel>,
    variables: Map<Seq<char>, Seq<TokenModel>>,
) -> Seq<TokenModel> {
    if mentions_bound(line, variables) {
        reduced(expand_bound(line, variables))
    } else {
        line
    }
}

/// The integer at a position of the line, if an integer stands there.
pub open spec fn int_at(line: Seq<TokenModel>, i: int) -> Option<i32> {
    if 0 <= i < line.len() {
        match line[i] {
            TokenModel::Int(v) => Some(v),
            _ => None,
        }
    } else {
        None
    }
}

/// The identifier at a position of the line, if one stands there.
pub open spec fn name_at(line: Seq<TokenModel>, i: int) -> Option<Seq<char>> {
    if 0 <= i < line.len() {
        match line[i] {
            TokenModel::Identifier(a) => Some(a),
            _ => None,
        }
    } else {
        None
    }
}

/// The header of a counted loop.
pub struct LoopHeader {
    pub label: i32,
    pub variable: Seq<char>,
    pub first: i32,
    pub limit: i32,
    pub step: i32,
}

/// The line begins `DO label variable = first , limit`.
pub open spec fn is_loop_header(line: Seq<TokenModel>) -> bool {
    &&& line.len() >= 7
    &&& line[0] == TokenModel::Do
    &&& int_at(line, 1) is Some
    &&& name_at(line, 2) is Some
    &&& line[3] == TokenModel::Equals
    &&& int_at(line, 4) is Some
    &&& line[5] == TokenModel::Comma
    &&& int_at(line, 6) is Some
}

/// The loop header goes on with `, step`.
pub open spec fn has_step(line: Seq<TokenModel>) -> bool {
    line.len() >= 9 && line[7] == TokenModel::Comma && int_at(line, 8) is Some
}

/// The loop header that a line holds, if it holds one. The step is 1
/// where the line gives none.
pub open spec fn loop_header(line: Seq<TokenModel>) -> Option<LoopHeader> {
    if is_loop_header(line) {
        Some(
            LoopHeader {
                label: int_at(line, 1)->0,
                variable: name_at(line, 2)->0,
                first: int_at(line, 4)->0,
                limit: int_at(line, 6)->0,
                step: if has_step(line) {
                    int_at(line, 8)->0
                } else {
                    1
                },
            },
        )
    } else {
        None
    }
}

/// The line begins `IF` and four integers.
pub open spec fn is_branch(line: Seq<TokenModel>) -> bool {
    &&& line.len() > 4
    &&& line[0] == TokenModel::If
    &&& int_at(line, 1) is Some
    &&& int_at(line, 2) is Some
    &&& int_at(line, 3) is Some
    &&& int_at(line, 4) is Some
}

/// The label that a three-way branch selects: the first for a negative
/// value, the second for zero, the third for a positive value.
pub open spec fn branch_target(line: Seq<TokenModel>) -> i32 {
    let value = int_at(line, 1)->0;
    if value < 0 {
        int_at(line, 2)->0
    } else if value == 0 {
        int_at(line, 3)->0
    } else {
        int_at(line, 4)->0
    }
}

/// The state in which nothing happened.
pub open spec fn unchanged(m: MachineModel) -> Effect {
    Effect { machine: m, acted: false, refresh: false }
}

/// The lights after `SENSE LIGHT n`: zero puts out all four, another
/// number toggles the light of that number.
pub open spec fn lights_after(lights: Seq<bool>, n: i32) -> Seq<bool> {
    if n == 0 {
        seq![false, false, false, false]
    } else {
        lights.update(n - 1, !lights[n - 1])
    }
}

/// What the statement on a line does to the machine. A line of no known
/// shape, or one that names a label that stands nowhere, does nothing.
pub open spec fn statement_effect(
    line: Seq<TokenModel>,
    labels: Map<i32, nat>,
    m: MachineModel,
) -> Effect {
    if line.len() <= 1 {
        unchanged(m)
    } else {
        match line[0] {
            TokenModel::Identifier(a) => if line[1] == TokenModel::Equals {
                Effect {
                    machine: MachineModel {
                        variables: m.variables.insert(a, without(line.skip(2), TokenModel::Newline)),
                        ..m
                    },
                    acted: true,
                    refresh: false,
                }
            } else {
                unchanged(m)
            },
            TokenModel::SenseLight => match int_at(line, 1) {
                Some(n) => if 0 <= n <= m.io.sense_lights.len() {
                    Effect {
                        machine: MachineModel {
                            io: IoModel {
                                sense_lights: lights_after(m.io.sense_lights, n),
                                ..m.io
                            },
                            ..m
                        },
                        acted: true,
                        refresh: true,
                    }
                } else {
                    unchanged(m)
                },
                None => unchanged(m),
            },
            TokenModel::GoTo => match int_at(line, 1) {
                Some(a) => if labels.contains_key(a) {
                    Effect {
                        machine: MachineModel { cursor: labels[a], ..m },
                        acted: true,
                        refresh: false,
                    }
                } else {
                    unchanged(m)
                },
                None => unchanged(m),
            },
            TokenModel::If => if is_branch(line) && labels.contains_key(int_at(line, 2)->0)
                && labels.contains_key(int_at(line, 3)->0) && labels.contains_key(
                int_at(line, 4)->0,
            ) {
                Effect {
                    machine: MachineModel { cursor: labels[branch_target(line)], ..m },
                    acted: true,
                    refresh: false,
                }
            } else {
                unchanged(m)
            },
            TokenModel::Do => match loop_header(line) {
                Some(h) => if labels.contains_key(h.label) {
                    Effect {
                        machine: MachineModel {
                            variables: m.variables.insert(
                                h.variable,
                                seq![TokenModel::Int(h.first)],
                            ),
                            frames: m.frames.push(
                                FrameModel {
                                    start: m.cursor,
                                    end: labels[h.label],
                                    max: h.limit,
                                    current: h.first,
                                    variable: h.variable,
                                    step: h.step,
                                },
                            ),
                            ..m
                        },
                        acted: true,
                        refresh: false,
                    }
                } else {
                    unchanged(m)
                },
                None => unchanged(m),
            },
            _ => unchanged(m),
        }
    }
}

/// What the end of a loop does. Where the cursor stands on the closing
/// line of the innermost loop, the loop's value advances by its step.
/// While the new value is a 32-bit integer not above the limit, the
/// variable is bound to it and the cursor goes back to the loop's header;
/// else the loop is over.
pub open spec fn loop_effect(m: MachineModel) -> Effect {
    if m.frames.len() > 0 && m.cursor == m.frames.last().end {
        let top = m.frames.last();
        let next = top.current + top.step;
        if i32::MIN <= next <= top.max {
            Effect {
                machine: MachineModel {
                    cursor: top.start,
                    variables: m.variables.insert(top.variable, seq![TokenModel::Int(next as i32)]),
                    frames: m.frames.drop_last().push(FrameModel { current: next as i32, ..top }),
                    ..m
                },
                acted: true,
                refresh: false,
            }
        } else {
            Effect {
                machine: MachineModel { frames: m.frames.drop_last(), ..m },
                acted: false,
                refresh: false,
            }
        }
    } else {
        unchanged(m)
    }
}

/// What executing a line does: bound variables are put in, the statement
/// takes effect, a loop that ends here is closed, and the cursor moves on
/// by one line.
pub open spec fn line_effect(line: Seq<TokenModel>, labels: Map<i32, nat>, m: MachineModel) -> Effect {
    let stated = statement_effect(resolved(line, m.variables), labels, m);
    let closed = loop_effect(stated.machine);
    Effect {
        machine: MachineModel { cursor: closed.machine.cursor + 1, ..closed.machine },
        acted: mentions_bound(line, m.variables) || stated.acted || closed.acted,
        refresh: stated.refresh,
    }
}

/// What a run gives back.
pub struct Outcome {
    /// The program has not ended.
    pub running: bool,
    pub machine: MachineModel,
    /// The caller should show the lights anew.
    pub refresh: bool,
}

/// Execution from a state: lines are executed until one of them does
/// something, or until the cursor has left the program.
pub open spec fn run_from(
    lines: Seq<Seq<TokenModel>>,
    labels: Map<i32, nat>,
    m: MachineModel,
) -> Outcome
    decreases lines.len() - m.cursor,
{
    if m.cursor >= lines.len() {
        Outcome { running: false, machine: m, refresh: true }
    } else {
        let e = line_effect(lines[m.cursor as int], labels, m);
        if e.acted {
            Outcome { running: true, machine: e.machine, refresh: e.refresh }
        } else {
            run_from(lines, labels, e.machine)
        }
    }
}

/// One run of a program from a state.
pub open spec fn run_model(tokens: Seq<TokenModel>, m: MachineModel) -> Outcome {
    run_from(lines_of(tokens), labels_of(tokens), m)
}

/// A jump to a label that stands on no line does nothing: the statement
/// leaves the machine as it was, and the cursor goes on to the next line as
/// it does after a line that holds no statement.
pub proof fn lemma_jump_to_missing_label(
    line: Seq<TokenModel>,
    labels: Map<i32, nat>,
    m: MachineModel,
    a: i32,
)
    requires
        resolved(line, m.variables).len() > 1,
        resolved(line, m.variables)[0] == TokenModel::GoTo,
        resolved(line, m.variables)[1] == TokenModel::Int(a),
        !labels.contains_key(a),
    ensures
        statement_effect(resolved(line, m.variables), labels, m) == unchanged(m),
        line_effect(line, labels, m).machine.cursor == loop_effect(m).machine.cursor + 1,
        m.frames.len() == 0 ==> line_effect(line, labels, m).machine == (MachineModel {
            cursor: m.cursor + 1,
            ..m
        }),
{
}

/// The closing line of a counted loop, where its statement neither jumps
/// nor opens a loop: while the loop's value and its step stay within the
/// limit, the variable is bound to their sum and the line after the
/// loop's header comes next; else the loop is over and the line after the
/// closing one comes next.
pub proof fn lemma_loop_goes_round_or_ends(
    line: Seq<TokenModel>,
    labels: Map<i32, nat>,
    m: MachineModel,
)
    requires
        m.frames.len() > 0,
        m.cursor == m.frames.last().end,
        statement_effect(resolved(line, m.variables), labels, m).machine.cursor == m.cursor,
        statement_effect(resolved(line, m.variables), labels, m).machine.frames == m.frames,
    ensures
        ({
            let top = m.frames.last();
            let next = top.current + top.step;
            let after = line_effect(line, labels, m);
            if i32::MIN <= next <= top.max {
                &&& after.acted
                &&& after.machine.cursor == top.start + 1
                &&& after.machine.variables.contains_key(top.variable)
                &&& after.machine.variables[top.variable] == seq![TokenModel::Int(next as i32)]
                &&& after.machine.frames == m.frames.drop_last().push(
                    FrameModel { current: next as i32, ..top },
                )
            } else {
                &&& after.machine.cursor == m.cursor + 1
                &&& after.machine.frames == m.frames.drop_last()
            }
        }),
{
}

/// No line changes the number of sense lights where there are four.
pub proof fn lemma_line_keeps_four_lights(
    line: Seq<TokenModel>,
    labels: Map<i32, nat>,
    m: MachineModel,
)
    requires
        m.io.sense_lights.len() == 4,
    ensures
        line_effect(line, labels, m).machine.io.sense_lights.len() == 4,
{
}

/// A machine with four sense lights has four after a run.
pub proof fn lemma_run_keeps_four_lights(
    lines: Seq<Seq<TokenModel>>,
    labels: Map<i32, nat>,
    m: MachineModel,
)
    requires
        m.io.sense_lights.len() == 4,
    ensures
        run_from(lines, labels, m).machine.io.sense_lights.len() == 4,
    decreases lines.len() - m.cursor,
{
    if m.cursor < lines.len() {
        let e = line_effect(lines[m.cursor as int], labels, m);
        lemma_line_keeps_four_lights(lines[m.cursor as int], labels, m);
        if !e.acted {
            lemma_run_keeps_four_lights(lines, labels, e.machine);
        }
    }
}

/// The state that the parts of a running program stand for.
pub open spec fn machine_of(
    cursor: usize,
    variables: Environment,
    frames: Vec<DoStatement>,
    io: IO704,
) -> MachineModel {
    MachineModel {
        cursor: cursor as nat,
        variables: variables@,
        frames: frames.deep_view(),
        io: io@,
    }
}

/// The table holds the labels of the model, each with its line.
spec fn labels_agree(table: Map<i32, usize>, labels: Map<i32, nat>) -> bool {
    forall|a: i32|
        #![trigger table.contains_key(a)]
        #![trigger labels.contains_key(a)]
        table.contains_key(a) == labels.contains_key(a) && (table.contains_key(a) ==> table[a]
            == labels[a])
}

fn split_lines(tokens: &Vec<Token>) -> (r: (Vec<Vec<Token>>, HashMap<i32, usize>))
    ensures
        r.0.deep_view() == lines_of(tokens.deep_view()),
        labels_agree(r.1@, labels_of(tokens.deep_view())),
{
    let ghost s = tokens.deep_view();
    let mut lines: Vec<Vec<Token>> = Vec::new();
    let mut line: Vec<Token> = Vec::new();
    let mut labels: HashMap<i32, usize> = HashMap::new();
    let mut i: usize = 0;
    proof {
        assert(line.deep_view() =~= Seq::<TokenModel>::empty());
        assert(lines.deep_view() =~= Seq::<Seq<TokenModel>>::empty());
        assert(s.take(0) =~= Seq::<TokenModel>::empty());
        assert(lines.deep_view().push(line.deep_view()) =~= seq![Seq::<TokenModel>::empty()]);
    }
    while i < tokens.len()
        invariant
            i <= tokens.len(),
            s == tokens.deep_view(),
            lines.deep_view().push(line.deep_view()) == lines_of(s.take(i as int)),
            labels_agree(labels@, labels_of(s.take(i as int))),
        decreases tokens.len() - i,
    {
        let ghost done = lines.deep_view();
        let ghost open_line = line.deep_view();
        proof {
            assert(s.take(i + 1).drop_last() =~= s.take(i as int));
            assert(s.take(i + 1).last() == tokens[i as int]@);
            assert(done.push(open_line).last() == open_line);
            assert(done.push(open_line).drop_last() =~= done);
            lemma_lines_of(s.take(i as int));
        }
        match &tokens[i] {
            Token::Label(a) => {
                assert(lines.len() == lines_of(s.take(i as int)).len() - 1);
                labels.insert(*a, lines.len());
                assert(s.take(i + 1).last() == TokenModel::Label(*a));
            },
            Token::Newline => {
                line.push(Token::Newline);
                assert(line.deep_view() =~= open_line.push(TokenModel::Newline));
                lines.push(line);
                assert(lines.deep_view() =~= done.push(open_line.push(TokenModel::Newline)));
                line = Vec::new();
                assert(line.deep_view() =~= Seq::<TokenModel>::empty());
            },
            t => {
                line.push(t.clone());
                assert(line.deep_view() =~= open_line.push(tokens[i as int]@));
            },
        }
        i += 1;
    }
    assert(s.take(i as int) =~= s);
    let ghost done = lines.deep_view();
    let ghost open_line = line.deep_view();
    lines.push(line);
    assert(lines.deep_view() =~= done.push(open_line));
    (lines, labels)
}

fn resolve_line(line: &Vec<Token>, variables: &Environment) -> (r: (Vec<Token>, bool))
    ensures
        r.1 == mentions_bound(line.deep_view(), variables@),
        r.0.deep_view() == resolved(line.deep_view(), variables@),
{
    let ghost l = line.deep_view();
    let mut out: Vec<Token> = Vec::new();
    let mut changed = false;
    let mut i: usize = 0;
    assert(out.deep_view() =~= l.take(0));
    while i < line.len()
        invariant
            i <= line.len(),
            l == line.deep_view(),
            out.deep_view() == expand_bound(l.take(i as int), variables@),
            changed == mentions_bound(l.take(i as int), variables@),
            !changed ==> out.deep_view() == l.take(i as int),
        decreases line.len() - i,
    {
        let ghost before = out.deep_view();
        let ghost prefix = l.take(i as int);
        let ghost next = l.take(i + 1);
        proof {
            assert(next.drop_last() =~= prefix);
            assert(next.last() == line[i as int]@);
        }
        let mut replaced = false;
        match &line[i] {
            Token::Identifier(a) => {
                if i > 0 {
                    match variables.get(a) {
                        Some(value) => {
                            extend_tokens(&mut out, value);
                            replaced = true;
                        },
                        None => {},
                    }
                }
            },
            _ => {},
        }
        if !replaced {
            out.push(line[i].clone());
            assert(out.deep_view() =~= before.push(line[i as int]@));
        }
        proof {
            if replaced {
                assert(is_bound(next[i as int], variables@));
                assert(mentions_bound(next, variables@));
            } else {
                if mentions_bound(next, variables@) {
                    let k = choose|k: int| 1 <= k < next.len() && is_bound(next[k], variables@);
                    assert(k < i);
                    assert(is_bound(prefix[k], variables@));
                }
                if changed {
                    let k = choose|k: int|
                        1 <= k < prefix.len() && is_bound(prefix[k], variables@);
                    assert(is_bound(next[k], variables@));
                }
            }
            if !changed && !replaced {
                assert(out.deep_view() =~= next);
            }
        }
        changed = changed || replaced;
        i += 1;
    }
    assert(l.take(i as int) =~= l);
    if changed {
        combine_and_expand(&mut out);
    }
    (out, changed)
}

fn int_at_exec(line: &Vec<Token>, i: usize) -> (r: Option<i32>)
    ensures
        r == int_at(line.deep_view(), i as int),
{
    if i < line.len() {
        match &line[i] {
            Token::Int(v) => Some(*v),
            _ => None,
        }
    } else {
        None
    }
}

fn is_equals(t: &Token) -> (r: bool)
    ensures
        r == (t@ == TokenModel::Equals),
{
    match t {
        Token::Equals => true,
        _ => false,
    }
}

fn is_comma(t: &Token) -> (r: bool)
    ensures
        r == (t@ == TokenModel::Comma),
{
    match t {
        Token::Comma => true,
        _ => false,
    }
}

fn loop_header_exec(line: &Vec<Token>) -> (r: Option<(i32, String, i32, i32, i32)>)
    ensures
        match r {
            Some(h) => loop_header(line.deep_view()) == Some(
                LoopHeader { label: h.0, variable: h.1@, first: h.2, limit: h.3, step: h.4 },
            ),
            None => loop_header(line.deep_view()) is None,
        },
{
    if line.len() < 7 {
        return None;
    }
    let name = match &line[2] {
        Token::Identifier(a) => a,
        _ => {
            return None;
        },
    };
    match (&line[0], int_at_exec(line, 1), int_at_exec(line, 4), int_at_exec(line, 6)) {
        (Token::Do, Some(label), Some(first), Some(limit)) => {
            if !is_equals(&line[3]) || !is_comma(&line[5]) {
                return None;
            }
            let step = if line.len() >= 9 && is_comma(&line[7]) {
                match int_at_exec(line, 8) {
                    Some(d) => d,
                    None => 1,
                }
            } else {
                1
            };
            Some((label, name.clone(), first, limit, step))
        },
        _ => None,
    }
}

fn four_dark() -> (r: Vec<bool>)
    ensures
        r@ == seq![false, false, false, false],
{
    let mut lights: Vec<bool> = Vec::new();
    lights.push(false);
    lights.push(false);
    lights.push(false);
    lights.push(false);
    assert(lights@ =~= seq![false, false, false, false]);
    lights
}

fn one_int(v: i32) -> (r: Vec<Token>)
    ensures
        r.deep_view() == seq![TokenModel::Int(v)],
{
    let mut value: Vec<Token> = Vec::new();
    value.push(Token::Int(v));
    assert(value.deep_view() =~= seq![TokenModel::Int(v)]);
    value
}

fn perform_statement(
    line: &Vec<Token>,
    labels: &HashMap<i32, usize>,
    Ghost(known): Ghost<Map<i32, nat>>,
    cursor: &mut usize,
    variables: &mut Environment,
    frames: &mut Vec<DoStatement>,
    io: &mut IO704,
) -> (r: (bool, bool))
    requires
        labels_agree(labels@, known),
        *old(cursor) < usize::MAX,
        forall|a: i32| labels@.contains_key(a) ==> labels@[a] < usize::MAX,
    ensures
        statement_effect(
            line.deep_view(),
            known,
            machine_of(*old(cursor), *old(variables), *old(frames), *old(io)),
        ) == (Effect {
            machine: machine_of(*final(cursor), *final(variables), *final(frames), *final(io)),
            acted: r.0,
            refresh: r.1,
        }),
        *final(cursor) < usize::MAX,
{
    let ghost l = line.deep_view();
    if line.len() <= 1 {
        return (false, false);
    }
    match &line[0] {
        Token::Identifier(a) => {
            if is_equals(&line[1]) {
                let value = copy_without(line, 2, line.len(), &Token::Newline);
                assert(l.skip(2) =~= l.subrange(2, l.len() as int));
                variables.insert(a.clone(), value);
                (true, false)
            } else {
                (false, false)
            }
        },
        Token::SenseLight => {
            match int_at_exec(line, 1) {
                Some(n) => {
                    if n >= 0 && (n as usize) <= io.sense_lights.len() {
                        if n == 0 {
                            io.sense_lights = four_dark();
                        } else {
                            let lit = io.sense_lights[(n - 1) as usize];
                            io.sense_lights.set((n - 1) as usize, !lit);
                        }
                        (true, true)
                    } else {
                        (false, false)
                    }
                },
                None => (false, false),
            }
        },
        Token::GoTo => {
            match int_at_exec(line, 1) {
                Some(a) => match labels.get(&a) {
                    Some(target) => {
                        *cursor = *target;
                        (true, false)
                    },
                    None => (false, false),
                },
                None => (false, false),
            }
        },
        Token::If => {
            if line.len() <= 4 {
                return (false, false);
            }
            match (
                int_at_exec(line, 1),
                int_at_exec(line, 2),
                int_at_exec(line, 3),
                int_at_exec(line, 4),
            ) {
                (Some(value), Some(a), Some(b), Some(c)) => {
                    let on_negative = labels.get(&a);
                    let on_zero = labels.get(&b);
                    let on_positive = labels.get(&c);
                    match (on_negative, on_zero, on_positive) {
                        (Some(negative), Some(zero), Some(positive)) => {
                            if value < 0 {
                                *cursor = *negative;
                            } else if value == 0 {
                                *cursor = *zero;
                            } else {
                                *cursor = *positive;
                            }
                            (true, false)
                        },
                        _ => (false, false),
                    }
                },
                _ => (false, false),
            }
        },
        Token::Do => {
            match loop_header_exec(line) {
                Some(h) => match labels.get(&h.0) {
                    Some(end) => {
                        let ghost before = frames.deep_view();
                        let frame = DoStatement {
                            start: *cursor,
                            end: *end,
                            max: h.3,
                            current: h.2,
                            variable: h.1.clone(),
                            step: h.4,
                        };
                        variables.insert(h.1, one_int(h.2));
                        frames.push(frame);
                        assert(frames.deep_view() =~= before.push(frame@));
                        (true, false)
                    },
                    None => (false, false),
                },
                None => (false, false),
            }
        },
        _ => (false, false),
    }
}

fn close_loop(cursor: &mut usize, variables: &mut Environment, frames: &mut Vec<DoStatement>) -> (r:
    bool)
    requires
        *old(cursor) < usize::MAX,
    ensures
        forall|io: IO704|
            loop_effect(machine_of(*old(cursor), *old(variables), *old(frames), io)) == (Effect {
                machine: machine_of(*final(cursor), *final(variables), *final(frames), io),
                acted: r,
                refresh: false,
            }),
        *final(cursor) < usize::MAX,
{
    let n = frames.len();
    if n == 0 {
        return false;
    }
    if frames[n - 1].end != *cursor {
        return false;
    }
    let ghost before = frames.deep_view();
    let top = frames.pop().unwrap();
    assert(frames.deep_view() =~= before.drop_last());
    assert(top@ == before.last());
    proof {
        use_type_invariant(&top);
    }
    let next: i64 = top.current as i64 + top.step as i64;
    if -0x8000_0000 <= next && next <= top.max as i64 {
        let value = next as i32;
        *cursor = top.start;
        variables.insert(top.variable.clone(), one_int(value));
        let frame = DoStatement {
            start: top.start,
            end: top.end,
            max: top.max,
            current: value,
            variable: top.variable,
            step: top.step,
        };
        let ghost rest = frames.deep_view();
        frames.push(frame);
        assert(frames.deep_view() =~= rest.push(frame@));
        true
    } else {
        false
    }
}

/// Executes a program from a state until a line does something that the
/// caller should see, or until the program is over.
///
/// The result holds, in this order: whether the program goes on, the
/// lights and switches, the next line, the loops being executed, the
/// variables, and whether the lights should be shown anew.
pub fn run(
    tokens: Vec<Token>,
    io: IO704,
    line_num: usize,
    variables: Environment,
    do_statements: Vec<DoStatement>,
) -> (r: (bool, IO704, usize, Vec<DoStatement>, Environment, bool))
    ensures
        run_model(tokens.deep_view(), machine_of(line_num, variables, do_statements, io)) == (
        Outcome { running: r.0, machine: machine_of(r.2, r.4, r.3, r.1), refresh: r.5 }),
        io.well_formed() ==> r.1.well_formed(),
{
    proof {
        if io.well_formed() {
            lemma_run_keeps_four_lights(
                lines_of(tokens.deep_view()),
                labels_of(tokens.deep_view()),
                machine_of(line_num, variables, do_statements, io),
            );
        }
    }
    let (lines, labels) = split_lines(&tokens);
    let ghost program = lines.deep_view();
    let ghost known = labels_of(tokens.deep_view());
    let ghost goal = run_model(
        tokens.deep_view(),
        machine_of(line_num, variables, do_statements, io),
    );
    proof {
        lemma_lines_of(tokens.deep_view());
    }
    let mut lights = io;
    let mut cursor = line_num;
    let mut bound = variables;
    let mut frames = do_statements;
    while cursor < lines.len()
        invariant
            program == lines.deep_view(),
            labels_agree(labels@, known),
            forall|a: i32| #[trigger] known.contains_key(a) ==> known[a] < program.len(),
            run_from(program, known, machine_of(cursor, bound, frames, lights)) == goal,
            io.well_formed() ==> goal.machine.io.sense_lights.len() == 4,
            goal == run_model(
                tokens.deep_view(),
                machine_of(line_num, variables, do_statements, io),
            ),
        decreases lines.len() - cursor,
    {
        let ghost m = machine_of(cursor, bound, frames, lights);
        let (line, changed) = resolve_line(&lines[cursor], &bound);
        assert(program[cursor as int] == lines[cursor as int].deep_view());
        let (acted, refresh) = perform_statement(
            &line,
            &labels,
            Ghost(known),
            &mut cursor,
            &mut bound,
            &mut frames,
            &mut lights,
        );
        let looped = close_loop(&mut cursor, &mut bound, &mut frames);
        cursor = cursor + 1;
        assert(line_effect(program[m.cursor as int], known, m) == (Effect {
            machine: machine_of(cursor, bound, frames, lights),
            acted: changed || acted || looped,
            refresh: refresh,
        }));
        if changed || acted || looped {
            return (true, lights, cursor, frames, bound, refresh);
        }
    }
    (false, lights, cursor, frames, bound, true)
}

} // verus!

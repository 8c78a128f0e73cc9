use fortran704::{process, run, DoStatement, Environment, LineData, Token, IO704};

fn cards(n: usize) -> Vec<LineData> {
    let mut out = Vec::new();
    for i in 0..n {
        out.push(LineData { number: i as i32, continuation: false, comment: false, label: 0 });
    }
    out
}

fn labelled(n: usize, labels: &[(usize, i32)]) -> Vec<LineData> {
    let mut out = cards(n);
    for (line, label) in labels {
        out[*line].label = *label;
    }
    out
}

fn panel() -> IO704 {
    IO704::new(vec![false; 20])
}

#[test]
fn new_panel_is_at_rest() {
    let io = IO704::new(vec![true, false]);
    assert_eq!(io.sense_switches, vec![true, false]);
    assert_eq!(io.sense_lights, vec![false; 4]);
    assert_eq!(io.display, 0);
    assert!(io.stop_light);
    assert_eq!(io.print, "");
}

#[test]
fn lights_of_another_number_are_kept() {
    let io = IO704 {
        sense_switches: Vec::new(),
        sense_lights: vec![false; 6],
        display: 3,
        stop_light: false,
        print: "X".to_string(),
    };
    let tokens = process("SENSE LIGHT 6\nSENSE LIGHT 7".to_string(), cards(2));
    let (running, io, cursor, _, _, refresh) =
        run(tokens.clone(), io, 0, Environment::new(), Vec::new());
    assert!(running && refresh);
    assert_eq!(cursor, 1);
    assert_eq!(io.sense_lights, vec![false, false, false, false, false, true]);
    assert_eq!(io.display, 3);
    assert!(!io.stop_light);
    assert_eq!(io.print, "X");
    let (running, io, cursor, _, _, refresh) = run(tokens, io, 1, Environment::new(), Vec::new());
    assert!(!running && refresh);
    assert_eq!(cursor, 2);
    assert_eq!(io.sense_lights.len(), 6);
}

fn name(text: &str) -> String {
    text.to_string()
}

fn ident(text: &str) -> Token {
    Token::Identifier(text.to_string())
}

struct State {
    running: bool,
    io: IO704,
    cursor: usize,
    frames: Vec<DoStatement>,
    variables: Environment,
    refresh: bool,
}

fn fresh() -> State {
    State {
        running: true,
        io: panel(),
        cursor: 0,
        frames: Vec::new(),
        variables: Environment::new(),
        refresh: false,
    }
}

fn step(tokens: &Vec<Token>, state: State) -> State {
    let (running, io, cursor, frames, variables, refresh) =
        run(tokens.clone(), state.io, state.cursor, state.variables, state.frames);
    State { running, io, cursor, frames, variables, refresh }
}

fn int_of(variables: &Environment, variable: &str) -> Option<i32> {
    match variables.get(&name(variable)) {
        Some(value) => match value.as_slice() {
            [Token::Int(v)] => Some(*v),
            _ => None,
        },
        None => None,
    }
}

#[test]
fn counted_loop_runs_its_body_three_times() {
    let text = "DO 10 I=1,3\nX=I\nY=X\nZ=1";
    let tokens = process(text.to_string(), labelled(4, &[(2, 10)]));
    let mut state = fresh();
    let mut executed: Vec<(usize, Option<i32>)> = Vec::new();
    let mut rounds = 0;
    loop {
        let line = state.cursor;
        state = step(&tokens, state);
        if !state.running {
            break;
        }
        executed.push((line, int_of(&state.variables, "X")));
        rounds += 1;
        assert!(rounds < 100);
    }
    assert_eq!(
        executed,
        vec![
            (0, None),
            (1, Some(1)),
            (2, Some(1)),
            (1, Some(2)),
            (2, Some(2)),
            (1, Some(3)),
            (2, Some(3)),
            (3, Some(3)),
        ]
    );
    assert_eq!(state.cursor, 4);
    assert!(state.frames.is_empty());
    assert!(state.refresh);
    assert_eq!(int_of(&state.variables, "Z"), Some(1));
    assert_eq!(int_of(&state.variables, "Y"), Some(3));
    assert_eq!(int_of(&state.variables, "I"), Some(3));
}

#[test]
fn loop_header_opens_a_frame() {
    let text = "A=0\nDO 7 K=2,9,3\nB=K\nC=0";
    let tokens = process(text.to_string(), labelled(4, &[(3, 7)]));
    let mut state = fresh();
    state = step(&tokens, state);
    assert_eq!(state.cursor, 1);
    state = step(&tokens, state);
    assert!(state.running);
    assert!(!state.refresh);
    assert_eq!(state.cursor, 2);
    assert_eq!(state.frames.len(), 1);
    let frame = &state.frames[0];
    assert_eq!(frame.start(), 1);
    assert_eq!(frame.end(), 3);
    assert_eq!(frame.max(), 9);
    assert_eq!(frame.current(), 2);
    assert_eq!(frame.step(), 3);
    assert_eq!(frame.variable(), "K");
    assert_eq!(int_of(&state.variables, "K"), Some(2));
    let copy = frame.clone();
    assert_eq!(copy.current(), 2);
    assert_eq!(copy.variable(), "K");
    let mut values = vec![2];
    for _ in 0..20 {
        let line = state.cursor;
        state = step(&tokens, state);
        if !state.running {
            break;
        }
        if line == 3 && !state.frames.is_empty() {
            values.push(state.frames[0].current());
        }
    }
    assert_eq!(values, vec![2, 5, 8]);
    assert!(state.frames.is_empty());
    assert_eq!(state.cursor, 4);
}

#[test]
fn loop_header_may_end_its_line() {
    let tokens = process("A=0\nDO 7 K=2,9".to_string(), labelled(2, &[(0, 7)]));
    assert_eq!(tokens.len(), 12);
    let mut state = step(&tokens, fresh());
    state = step(&tokens, state);
    assert!(state.running);
    assert_eq!(state.cursor, 2);
    assert_eq!(state.frames.len(), 1);
    assert_eq!(state.frames[0].start(), 1);
    assert_eq!(state.frames[0].end(), 0);
    assert_eq!(state.frames[0].current(), 2);
    assert_eq!(state.frames[0].max(), 9);
    assert_eq!(state.frames[0].step(), 1);
    assert_eq!(int_of(&state.variables, "K"), Some(2));

    let tokens = process("A=0\nDO 7 K=2,9,3".to_string(), labelled(2, &[(0, 7)]));
    assert_eq!(tokens.len(), 14);
    let mut state = step(&tokens, fresh());
    state = step(&tokens, state);
    assert_eq!(state.frames.len(), 1);
    assert_eq!(state.frames[0].step(), 3);
    assert_eq!(state.frames[0].max(), 9);

    let short = process("A=0\nDO 7 K=2,".to_string(), labelled(2, &[(0, 7)]));
    let mut state = step(&short, fresh());
    state = step(&short, state);
    assert!(!state.running);
    assert!(state.frames.is_empty());
}

#[test]
fn loop_header_with_a_broken_step_has_step_one() {
    let tokens = process("A=0\nDO 7 K=2,9,Z\n".to_string(), labelled(3, &[(0, 7)]));
    let mut state = step(&tokens, fresh());
    state = step(&tokens, state);
    assert_eq!(state.frames.len(), 1);
    assert_eq!(state.frames[0].step(), 1);
}

#[test]
fn loop_to_a_missing_label_is_not_opened() {
    let tokens = process("DO 10 I=1,3\nX=1".to_string(), cards(2));
    let state = step(&tokens, fresh());
    assert!(state.frames.is_empty());
    assert_eq!(state.cursor, 2);
    assert_eq!(int_of(&state.variables, "I"), None);
    assert_eq!(int_of(&state.variables, "X"), Some(1));
}

#[test]
fn loop_value_that_leaves_the_range_ends_the_loop() {
    let text = "DO 5 I=2147483647,2147483647\nX=I";
    let tokens = process(text.to_string(), labelled(2, &[(1, 5)]));
    let mut state = fresh();
    state = step(&tokens, state);
    assert_eq!(state.frames.len(), 1);
    state = step(&tokens, state);
    assert!(state.frames.is_empty());
    assert_eq!(state.cursor, 2);
    assert_eq!(int_of(&state.variables, "X"), Some(2147483647));
}

#[test]
fn jump_to_a_missing_label_goes_to_the_next_line() {
    let tokens = process("GO TO 99\nX=1".to_string(), labelled(2, &[(1, 5)]));
    let state = step(&tokens, fresh());
    assert!(state.running);
    assert_eq!(state.cursor, 2);
    assert_eq!(int_of(&state.variables, "X"), Some(1));
    let only = process("GO TO 99".to_string(), cards(1));
    let state = step(&only, fresh());
    assert!(!state.running);
    assert!(state.refresh);
    assert_eq!(state.cursor, 1);
    assert!(state.variables.names().is_empty());
}

#[test]
fn jump_goes_on_after_the_labelled_line() {
    let text = "GO TO 5\nX=1\nY=2\nZ=3";
    let tokens = process(text.to_string(), labelled(4, &[(2, 5)]));
    let mut state = step(&tokens, fresh());
    assert!(state.running);
    assert!(!state.refresh);
    assert_eq!(state.cursor, 3);
    state = step(&tokens, state);
    assert_eq!(state.cursor, 4);
    assert_eq!(int_of(&state.variables, "Z"), Some(3));
    assert_eq!(int_of(&state.variables, "X"), None);
    assert_eq!(int_of(&state.variables, "Y"), None);
}

#[test]
fn later_label_of_two_counts() {
    let text = "GO TO 5\nA=1\nB=2\nC=3";
    let tokens = process(text.to_string(), labelled(4, &[(1, 5), (2, 5)]));
    let state = step(&tokens, fresh());
    assert_eq!(state.cursor, 3);
}

#[test]
fn branch_goes_three_ways() {
    let lines = labelled(5, &[(1, 10), (2, 20), (3, 30)]);
    for (value, target) in [("0-4", 2), ("0", 3), ("4", 4)] {
        let text = format!("IF ({}) 10 20 30\nA=1\nB=2\nC=3\nD=4", value);
        let tokens = process(text, lines.clone());
        let state = step(&tokens, fresh());
        assert!(state.running);
        assert_eq!(state.cursor, target);
    }
    let tokens = process("IF (1) 10 20 31\nA=1\nB=2\nC=3\nD=4".to_string(), lines);
    let state = step(&tokens, fresh());
    assert_eq!(state.cursor, 2);
    assert_eq!(int_of(&state.variables, "A"), Some(1));
}

#[test]
fn sense_lights_go_on_and_out() {
    let text = "SENSE LIGHT 2\nSENSE LIGHT 4\nSENSE LIGHT 5\nSENSE LIGHT 0";
    let tokens = process(text.to_string(), cards(4));
    let mut state = step(&tokens, fresh());
    assert!(state.running);
    assert!(state.refresh);
    assert_eq!(state.cursor, 1);
    assert_eq!(state.io.sense_lights, vec![false, true, false, false]);
    state = step(&tokens, state);
    assert_eq!(state.io.sense_lights, vec![false, true, false, true]);
    assert_eq!(state.cursor, 2);
    state = step(&tokens, state);
    assert_eq!(state.io.sense_lights, vec![false, false, false, false]);
    assert_eq!(state.cursor, 4);
    assert!(state.refresh);
    assert_eq!(state.io.sense_switches.len(), 20);
    assert_eq!(state.io.display, 0);
    assert!(state.io.stop_light);
    state = step(&tokens, state);
    assert!(!state.running);
    assert!(state.refresh);
    assert_eq!(state.cursor, 4);
    let copy = state.io.clone();
    assert_eq!(copy.sense_lights, state.io.sense_lights);
    assert_eq!(copy.print, state.io.print);
}

#[test]
fn sense_light_toggles_its_light() {
    let tokens = process("SENSE LIGHT 1\nSENSE LIGHT 1".to_string(), cards(2));
    let mut state = step(&tokens, fresh());
    assert_eq!(state.io.sense_lights, vec![true, false, false, false]);
    state = step(&tokens, state);
    assert_eq!(state.io.sense_lights, vec![false, false, false, false]);
    assert!(state.refresh);
}

#[test]
fn assignment_binds_the_tokens_of_the_line() {
    let tokens = process("A=B+1\nB=2\nC=A*3".to_string(), cards(3));
    let mut state = step(&tokens, fresh());
    assert!(state.running);
    assert!(!state.refresh);
    assert_eq!(state.cursor, 1);
    assert_eq!(
        state.variables.get(&name("A")),
        Some(&vec![ident("B"), Token::Add, Token::Int(1)])
    );
    state = step(&tokens, state);
    state = step(&tokens, state);
    assert_eq!(
        state.variables.get(&name("C")),
        Some(&vec![ident("B"), Token::Add, Token::Int(3)])
    );
    assert_eq!(state.cursor, 3);
}

#[test]
fn variable_is_put_in_when_it_is_used() {
    let tokens = process("A=4\nB=A*A+1".to_string(), cards(2));
    let mut state = step(&tokens, fresh());
    state = step(&tokens, state);
    assert_eq!(int_of(&state.variables, "B"), Some(17));
}

#[test]
fn first_token_of_a_line_is_not_replaced() {
    let tokens = process("A=1\nA=A+1".to_string(), cards(2));
    let mut state = step(&tokens, fresh());
    state = step(&tokens, state);
    assert_eq!(int_of(&state.variables, "A"), Some(2));
}

#[test]
fn lines_that_do_nothing_are_passed() {
    let tokens = process("STOP\n\nFOO\nX=1\nY=2".to_string(), cards(5));
    let state = step(&tokens, fresh());
    assert!(state.running);
    assert_eq!(state.cursor, 4);
    assert_eq!(int_of(&state.variables, "X"), Some(1));
    assert_eq!(int_of(&state.variables, "Y"), None);
}

#[test]
fn run_past_the_end_is_over() {
    let tokens = process("X=1".to_string(), cards(1));
    let mut state = fresh();
    state.cursor = 7;
    let state = step(&tokens, state);
    assert!(!state.running);
    assert!(state.refresh);
    assert_eq!(state.cursor, 7);
    let state = step(&Vec::new(), fresh());
    assert!(!state.running);
    assert_eq!(state.cursor, 1);
}

#[test]
fn environment_keeps_the_last_binding() {
    let mut variables = Environment::new();
    assert!(!variables.contains_key(&name("A")));
    assert_eq!(variables.get(&name("A")), None);
    variables.insert(name("A"), vec![Token::Int(1)]);
    variables.insert(name("B"), vec![Token::Int(2)]);
    variables.insert(name("A"), vec![Token::Int(3), Token::Add]);
    assert!(variables.contains_key(&name("A")));
    assert_eq!(variables.get(&name("A")), Some(&vec![Token::Int(3), Token::Add]));
    assert_eq!(variables.get(&name("B")), Some(&vec![Token::Int(2)]));
    assert_eq!(variables.names(), vec![name("A"), name("B")]);
    let copy = variables.clone();
    variables.insert(name("B"), Vec::new());
    assert_eq!(copy.get(&name("B")), Some(&vec![Token::Int(2)]));
    assert_eq!(variables.get(&name("B")), Some(&Vec::new()));
}

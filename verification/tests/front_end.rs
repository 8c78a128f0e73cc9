use fortran704::{
    combine_and_expand, get_char_type, id_brackets, inline_functions, lex, normalize, prepare,
    process, tokenize, CharType, FloatExpr, LineData, Token,
};

fn cards(n: usize) -> Vec<LineData> {
    let mut out = Vec::new();
    for i in 0..n {
        out.push(LineData { number: i as i32, continuation: false, comment: false, label: 0 });
    }
    out
}

fn ident(name: &str) -> Token {
    Token::Identifier(name.to_string())
}

fn open(id: i64, function: bool) -> Token {
    Token::OpenParen { id: Some(id), function }
}

fn close(id: i64, function: bool) -> Token {
    Token::CloseParen { id: Some(id), function }
}

fn literal(text: &str) -> FloatExpr {
    FloatExpr::Literal(text.to_string())
}

fn value_of(e: &FloatExpr) -> f32 {
    match e {
        FloatExpr::Literal(text) => text.parse::<f32>().unwrap(),
        FloatExpr::Scaled(x, n) => value_of(x) * (10.0_f32).powi(*n),
        FloatExpr::Product(x, y) => value_of(x) * value_of(y),
        FloatExpr::Quotient(x, y) => value_of(x) / value_of(y),
        FloatExpr::Sum(x, y) => value_of(x) + value_of(y),
        FloatExpr::Difference(x, y) => value_of(x) - value_of(y),
    }
}

fn reduce(mut tokens: Vec<Token>) -> Vec<Token> {
    combine_and_expand(&mut tokens);
    tokens
}

#[test]
fn sum_is_lexed_and_reduced() {
    let mut tokens = tokenize("2+3".to_string(), cards(1));
    assert_eq!(tokens, vec![Token::Int(2), Token::Add, Token::Int(3)]);
    combine_and_expand(&mut tokens);
    assert_eq!(tokens, vec![Token::Int(5)]);
}

#[test]
fn two_stars_are_a_power() {
    let mut tokens = tokenize("2**3".to_string(), cards(1));
    assert_eq!(
        tokens,
        vec![Token::Int(2), Token::Multiply, Token::Multiply, Token::Int(3)]
    );
    combine_and_expand(&mut tokens);
    assert_eq!(tokens, vec![Token::Int(8)]);
}

#[test]
fn call_is_inlined_and_reduced() {
    let tokens = process("F(X)=X+1\nF(5)".to_string(), cards(2));
    assert_eq!(
        tokens,
        vec![
            ident("F"),
            open(10000001, true),
            ident("X"),
            close(10000001, true),
            Token::Equals,
            ident("X"),
            Token::Add,
            Token::Int(1),
            Token::Newline,
            Token::Int(6),
        ]
    );
}

#[test]
fn inlining_puts_the_argument_in_the_body() {
    let mut tokens = vec![
        ident("F"),
        open(1, true),
        ident("X"),
        close(1, true),
        Token::Equals,
        ident("X"),
        Token::Multiply,
        ident("X"),
        Token::Newline,
        ident("F"),
        open(2, true),
        ident("A"),
        Token::Add,
        Token::Int(1),
        close(2, true),
    ];
    inline_functions(&mut tokens);
    assert_eq!(
        tokens[9..],
        [
            open(-2, false),
            ident("A"),
            Token::Add,
            Token::Int(1),
            Token::Multiply,
            ident("A"),
            Token::Add,
            Token::Int(1),
            close(-2, false),
        ]
    );
    assert_eq!(tokens.len(), 18);
}

#[test]
fn each_expansion_of_a_pass_has_its_own_id() {
    let tokens = tokenize("F(X)=X\nF(A)\nF(B)".to_string(), cards(3));
    let mut tokens: Vec<Token> = tokens.into_iter().filter(|t| *t != Token::Space).collect();
    id_brackets(&mut tokens);
    inline_functions(&mut tokens);
    assert_eq!(
        tokens[7..],
        [
            open(-2, false),
            ident("A"),
            close(-2, false),
            Token::Newline,
            open(-3, false),
            ident("B"),
            close(-3, false),
        ]
    );
}

#[test]
fn call_reduces_as_the_body_written_out() {
    for (body, written) in [("X+1", "5+1"), ("X*X-2", "5*5-2"), ("2**X", "2**5"), ("(X+1)*3", "(5+1)*3")]
    {
        let called = process(format!("F(X)={}\nF(5)", body), cards(2));
        let by_hand = process(format!("({})", written), cards(1));
        assert_eq!(by_hand.len(), 1);
        assert_eq!(called.last(), by_hand.last());
    }
}

#[test]
fn definition_is_reduced_before_it_is_inlined() {
    let called = process("F(X)=X-1-1\nF(5)".to_string(), cards(2));
    assert_eq!(called.last(), Some(&Token::Int(5)));
    assert_eq!(process("(5-1-1)".to_string(), cards(1)), vec![Token::Int(3)]);
}

#[test]
fn arguments_are_bound_one_after_the_other() {
    let tokens = process("F(X,Y)=X-Y\nF(7,2)".to_string(), cards(2));
    assert_eq!(tokens.last(), Some(&Token::Int(5)));
    let tokens = process("F(X,Y)=X-Y\nF(Y,1)".to_string(), cards(2));
    assert_eq!(tokens.last(), Some(&Token::Int(0)));
}

#[test]
fn argument_without_parameter_is_dropped() {
    let tokens = process("F(X)=X+1\nF(2,9)".to_string(), cards(2));
    assert_eq!(tokens.last(), Some(&Token::Int(3)));
}

#[test]
fn function_may_call_function() {
    let tokens = process("F(X)=X+1\nG(Y)=F(Y)*2\nG(3)".to_string(), cards(3));
    assert_eq!(tokens.last(), Some(&Token::Int(8)));
}

#[test]
fn later_definition_replaces_earlier() {
    let mut tokens = vec![
        ident("F"),
        open(1, true),
        ident("X"),
        close(1, true),
        Token::Equals,
        Token::Int(1),
        Token::Newline,
        ident("G"),
        open(2, true),
        ident("X"),
        close(2, true),
        Token::Equals,
        Token::Int(2),
        Token::Newline,
        ident("G"),
        open(3, true),
        Token::Int(0),
        close(3, true),
    ];
    inline_functions(&mut tokens);
    assert_eq!(tokens[14..], [open(-2, false), Token::Int(2), close(-2, false)]);
}

#[test]
fn call_before_definition_stays() {
    let mut tokens = vec![
        ident("F"),
        open(1, true),
        Token::Int(5),
        close(1, true),
        Token::Newline,
        ident("F"),
        open(2, true),
        ident("X"),
        close(2, true),
        Token::Equals,
        ident("X"),
    ];
    let before = tokens.clone();
    inline_functions(&mut tokens);
    assert_eq!(tokens, before);
}

#[test]
fn comment_line_gives_no_token() {
    let mut data = cards(3);
    data[1].comment = true;
    data[1].label = 7;
    let with = tokenize("A=1\nTHIS ) IS * 3.4.5 NOISE\nB=2".to_string(), data.clone());
    let other = tokenize("A=1\n\nB=2".to_string(), data);
    let without = tokenize("A=1\nB=2".to_string(), cards(2));
    assert_eq!(with, other);
    assert_eq!(
        with,
        vec![
            ident("A"),
            Token::Equals,
            Token::Int(1),
            Token::Newline,
            ident("B"),
            Token::Equals,
            Token::Int(2),
        ]
    );
    assert_eq!(with, without);
}

#[test]
fn continuation_line_has_no_newline() {
    let mut data = cards(2);
    data[0].continuation = true;
    let tokens = tokenize("A=1+\n2\n".to_string(), data);
    assert_eq!(
        tokens,
        vec![
            ident("A"),
            Token::Equals,
            Token::Int(1),
            Token::Add,
            Token::Int(2),
            Token::Newline,
        ]
    );
}

#[test]
fn word_goes_on_over_a_continuation() {
    let mut data = cards(2);
    data[0].continuation = true;
    let tokens = tokenize("AB\nCD".to_string(), data);
    assert_eq!(tokens, vec![ident("ABCD")]);
}

#[test]
fn label_comes_once_before_its_line() {
    let mut data = cards(2);
    data[1].label = 10;
    let tokens = tokenize("A\nB+C".to_string(), data);
    assert_eq!(
        tokens,
        vec![
            ident("A"),
            Token::Newline,
            Token::Label(10),
            ident("B"),
            Token::Add,
            ident("C"),
        ]
    );
}

#[test]
fn line_without_card_is_not_read() {
    let tokens = tokenize("A\nB\nC".to_string(), cards(1));
    assert_eq!(tokens, vec![ident("A"), Token::Newline]);
    assert_eq!(tokenize("A".to_string(), Vec::new()), Vec::<Token>::new());
}

#[test]
fn keywords_are_recognised_in_any_case() {
    let tokens = tokenize("do if go to sense light stop dimension e print".to_string(), cards(1));
    let words: Vec<Token> = tokens.into_iter().filter(|t| *t != Token::Space).collect();
    assert_eq!(
        words,
        vec![
            Token::Do,
            Token::If,
            Token::GoTo,
            Token::SenseLight,
            Token::Stop,
            Token::Dimension,
            Token::E,
            ident("PRINT"),
        ]
    );
}

#[test]
fn keyword_tables() {
    assert_eq!(Token::identifier_builtin("\n".to_string()), Token::Newline);
    assert_eq!(Token::identifier_builtin("GoTo".to_string()), Token::GoTo);
    assert_eq!(Token::identifier_builtin("GOTO".to_string()), ident("GOTO"));
    assert_eq!(
        Token::tokenize_symbols("(".to_string()),
        Token::OpenParen { id: None, function: false }
    );
    assert_eq!(
        Token::tokenize_symbols(")".to_string()),
        Token::CloseParen { id: None, function: false }
    );
    assert_eq!(Token::tokenize_symbols("*".to_string()), Token::Multiply);
    assert_eq!(Token::tokenize_symbols("/".to_string()), Token::Divide);
    assert_eq!(Token::tokenize_symbols("+".to_string()), Token::Add);
    assert_eq!(Token::tokenize_symbols("-".to_string()), Token::Subtract);
    assert_eq!(Token::tokenize_symbols(",".to_string()), Token::Comma);
    assert_eq!(Token::tokenize_symbols(" ".to_string()), Token::Space);
    assert_eq!(Token::tokenize_symbols("=".to_string()), Token::Equals);
    assert_eq!(Token::tokenize_symbols("\n".to_string()), Token::Newline);
    assert_eq!(
        Token::tokenize_symbols("$".to_string()),
        Token::UnknownToken("$".to_string())
    );
    assert_eq!(
        Token::tokenize_symbols("((".to_string()),
        Token::UnknownToken("((".to_string())
    );
}

#[test]
fn numbers_are_read_as_the_standard_library_reads_them() {
    let samples = [
        "0", "7", "0012", "2147483647", "2147483648", "99999999999999999999", "1.5", "1.", ".5",
        ".", "1.2.3", "..", "00.10", "", "\u{0663}", "1\u{0663}", "\u{0663}.5",
        "340282350000000000000000000000000000000.0", "-5", "+5", "-0", "+", "-", "--5", "+-5",
        "5-", "-2147483648", "-2147483649", "+2147483647", "+2147483648", "-00012", " 5", "5 ",
        "1_000", "0x10", "1e3", "inf", "nan", "-1.5", "+1.5", "-.5", "+5.", "-.", "+.", "1.5e3",
        "1.5E3", "1.5e+3", "1.5e-3", "1.5e", "1.5e+", "1.5e3.", "1.5e3e4", "1.e5", ".5e5", ".e5",
        "e1.5", "1e.5", "1.5f", "1.5e99999999999", "-1.5E-07", "1.5 ", "inf.", "1..5", "-+1.5",
        "1.5e--3", "1.\u{0663}", "1.5e\u{0663}",
    ];
    for text in samples {
        let token = Token::number(text.to_string());
        if text.contains('.') {
            match text.parse::<f32>() {
                Ok(_) => assert_eq!(token, Token::Float(literal(text))),
                Err(_) => assert_eq!(token, Token::UnknownToken(text.to_string())),
            }
        } else {
            match text.parse::<i32>() {
                Ok(v) => assert_eq!(token, Token::Int(v)),
                Err(_) => assert_eq!(token, Token::UnknownToken(text.to_string())),
            }
        }
    }
    assert_eq!(Token::number("2147483647".to_string()), Token::Int(2147483647));
    assert_eq!(
        Token::number("2147483648".to_string()),
        Token::UnknownToken("2147483648".to_string())
    );
    assert_eq!(Token::number("1.2.3".to_string()), Token::UnknownToken("1.2.3".to_string()));
    assert_eq!(Token::number("-5".to_string()), Token::Int(-5));
    assert_eq!(Token::number("+5".to_string()), Token::Int(5));
    assert_eq!(Token::number("-2147483648".to_string()), Token::Int(-2147483648));
    assert_eq!(
        Token::number("-2147483649".to_string()),
        Token::UnknownToken("-2147483649".to_string())
    );
    assert_eq!(Token::number("-".to_string()), Token::UnknownToken("-".to_string()));
    assert_eq!(Token::number("-1.5".to_string()), Token::Float(literal("-1.5")));
    assert_eq!(Token::number("1.5e3".to_string()), Token::Float(literal("1.5e3")));
    assert_eq!(Token::number("1.5E-3".to_string()), Token::Float(literal("1.5E-3")));
    assert_eq!(Token::number("1.5e".to_string()), Token::UnknownToken("1.5e".to_string()));
    assert_eq!(Token::number(".e5".to_string()), Token::UnknownToken(".e5".to_string()));
    match Token::number("-2.5e1".to_string()) {
        Token::Float(e) => assert_eq!(value_of(&e), -25.0),
        other => panic!("not a single-precision token: {:?}", other),
    }
}

#[test]
fn line_ends_are_brought_to_one_form() {
    let chars: Vec<char> = "A\r\nGO TO 5\rSENSE LIGHT 2".chars().collect();
    let expected: Vec<char> = "A\nGoTo 5\rSenseLight 2".chars().collect();
    assert_eq!(normalize(&chars), expected);
    let tokens = tokenize("A\r\nB\r".to_string(), cards(2));
    assert_eq!(
        tokens,
        vec![ident("A"), Token::Newline, ident("B"), Token::UnknownToken("\r".to_string())]
    );
}

#[test]
fn lex_reads_text_as_it_stands() {
    let chars: Vec<char> = "do DO".chars().collect();
    assert_eq!(lex(&chars, &cards(1)), vec![ident("do"), Token::Space, Token::Do]);
}

#[test]
fn characters_are_of_three_kinds() {
    assert_eq!(get_char_type('A'), CharType::Letter);
    assert_eq!(get_char_type('z'), CharType::Letter);
    assert_eq!(get_char_type('\u{00e9}'), CharType::Letter);
    assert_eq!(get_char_type('7'), CharType::Digit);
    assert_eq!(get_char_type('.'), CharType::Digit);
    assert_eq!(get_char_type('\u{0663}'), CharType::Digit);
    assert_eq!(get_char_type('+'), CharType::Operator);
    assert_eq!(get_char_type(' '), CharType::Operator);
    assert_eq!(get_char_type('\n'), CharType::Operator);
}

#[test]
fn brackets_are_paired() {
    let mut tokens = tokenize("F(1)+(2)".to_string(), cards(1));
    id_brackets(&mut tokens);
    assert_eq!(
        tokens,
        vec![
            ident("F"),
            open(10000001, true),
            Token::Int(1),
            close(10000001, true),
            Token::Add,
            open(20000001, false),
            Token::Int(2),
            close(20000001, false),
        ]
    );
}

#[test]
fn nested_brackets_share_their_group() {
    let mut tokens = tokenize("((A)F(B))".to_string(), cards(1));
    id_brackets(&mut tokens);
    assert_eq!(
        tokens,
        vec![
            open(10000001, false),
            open(10000002, false),
            ident("A"),
            close(10000002, false),
            ident("F"),
            open(10000002, true),
            ident("B"),
            close(10000002, true),
            close(10000001, false),
        ]
    );
}

#[test]
fn tagged_brackets_are_left_alone() {
    let mut tokens = vec![open(5, true), Token::OpenParen { id: None, function: true }];
    id_brackets(&mut tokens);
    assert_eq!(tokens, vec![open(5, true), open(10000001, false)]);
    let mut tokens = vec![Token::CloseParen { id: None, function: false }];
    id_brackets(&mut tokens);
    assert_eq!(tokens, vec![close(0, false)]);
}

#[test]
fn priorities_are_kept() {
    assert_eq!(process("2+3*4".to_string(), cards(1)), vec![Token::Int(14)]);
    assert_eq!(process("(2+3)*4".to_string(), cards(1)), vec![Token::Int(20)]);
    assert_eq!(process("2*3**2".to_string(), cards(1)), vec![Token::Int(18)]);
    assert_eq!(process("2**(1+1)".to_string(), cards(1)), vec![Token::Int(4)]);
    assert_eq!(process("8/2/2".to_string(), cards(1)), vec![Token::Int(2)]);
    assert_eq!(process("10-4-3".to_string(), cards(1)), vec![Token::Int(3)]);
}

#[test]
fn integer_division_rounds_toward_zero() {
    assert_eq!(reduce(vec![Token::Int(-7), Token::Divide, Token::Int(2)]), vec![Token::Int(-3)]);
    assert_eq!(reduce(vec![Token::Int(7), Token::Divide, Token::Int(-2)]), vec![Token::Int(-3)]);
    assert_eq!(reduce(vec![Token::Int(-7), Token::Divide, Token::Int(-2)]), vec![Token::Int(3)]);
    assert_eq!(reduce(vec![Token::Int(7), Token::Divide, Token::Int(2)]), vec![Token::Int(3)]);
}

#[test]
fn what_cannot_be_computed_stays() {
    let by_zero = vec![Token::Int(1), Token::Divide, Token::Int(0)];
    assert_eq!(reduce(by_zero.clone()), by_zero);
    let too_large = vec![Token::Int(2147483647), Token::Add, Token::Int(1)];
    assert_eq!(reduce(too_large.clone()), too_large);
    let too_small = vec![Token::Int(-2147483648), Token::Subtract, Token::Int(1)];
    assert_eq!(reduce(too_small.clone()), too_small);
    let product = vec![Token::Int(65536), Token::Multiply, Token::Int(65536)];
    assert_eq!(reduce(product.clone()), product);
    let quotient = vec![Token::Int(-2147483648), Token::Divide, Token::Int(-1)];
    assert_eq!(reduce(quotient.clone()), quotient);
    let power = vec![Token::Int(2), Token::Power, Token::Int(31)];
    assert_eq!(reduce(power.clone()), power);
    let mixed = vec![Token::Int(1), Token::Add, Token::Float(literal("1.0"))];
    assert_eq!(reduce(mixed.clone()), mixed);
}

#[test]
fn powers() {
    assert_eq!(reduce(vec![Token::Int(2), Token::Power, Token::Int(30)]), vec![Token::Int(1073741824)]);
    assert_eq!(
        reduce(vec![Token::Int(-2), Token::Power, Token::Int(31)]),
        vec![Token::Int(-2147483648)]
    );
    assert_eq!(reduce(vec![Token::Int(5), Token::Power, Token::Int(0)]), vec![Token::Int(1)]);
    assert_eq!(reduce(vec![Token::Int(0), Token::Power, Token::Int(0)]), vec![Token::Int(1)]);
    assert_eq!(reduce(vec![Token::Int(0), Token::Power, Token::Int(-1)]), vec![Token::Int(0)]);
    assert_eq!(reduce(vec![Token::Int(1), Token::Power, Token::Int(-5)]), vec![Token::Int(1)]);
    assert_eq!(reduce(vec![Token::Int(-1), Token::Power, Token::Int(-1)]), vec![Token::Int(-1)]);
    assert_eq!(reduce(vec![Token::Int(-1), Token::Power, Token::Int(-2)]), vec![Token::Int(1)]);
    assert_eq!(
        reduce(vec![Token::Int(-1), Token::Power, Token::Int(2147483647)]),
        vec![Token::Int(-1)]
    );
    let negative = vec![Token::Int(2), Token::Power, Token::Int(-1)];
    assert_eq!(reduce(negative.clone()), negative);
    for (x, y) in [(3, 4), (-3, 3), (7, 11), (46341, 2), (46340, 2), (-1, 7), (0, 9), (2, 32)] {
        let expected = match (x as i32).checked_pow(y as u32) {
            Some(v) => vec![Token::Int(v)],
            None => vec![Token::Int(x), Token::Power, Token::Int(y)],
        };
        assert_eq!(reduce(vec![Token::Int(x), Token::Power, Token::Int(y)]), expected);
    }
}

#[test]
fn single_precision_folds_to_an_expression() {
    let tokens = process("1.5*2.0+0.25".to_string(), cards(1));
    assert_eq!(
        tokens,
        vec![Token::Float(FloatExpr::Sum(
            Box::new(FloatExpr::Product(Box::new(literal("1.5")), Box::new(literal("2.0")))),
            Box::new(literal("0.25")),
        ))]
    );
    match &tokens[0] {
        Token::Float(e) => assert_eq!(value_of(e), 3.25),
        other => panic!("not a single-precision token: {:?}", other),
    }
    let tokens = process("1.5E2".to_string(), cards(1));
    assert_eq!(tokens, vec![Token::Float(FloatExpr::Scaled(Box::new(literal("1.5")), 2))]);
    match &tokens[0] {
        Token::Float(e) => assert_eq!(value_of(e), 150.0),
        other => panic!("not a single-precision token: {:?}", other),
    }
    let tokens = process("7.0/2.0-1.0".to_string(), cards(1));
    match &tokens[0] {
        Token::Float(e) => assert_eq!(value_of(e), 2.5),
        other => panic!("not a single-precision token: {:?}", other),
    }
}

#[test]
fn grouping_pair_dissolves_and_call_pair_stays() {
    let group = vec![open(1, false), ident("A"), close(1, false)];
    assert_eq!(reduce(group), vec![ident("A")]);
    let call = vec![open(1, true), ident("A"), close(1, true)];
    assert_eq!(reduce(call.clone()), call);
    let unlike = vec![open(1, false), ident("A"), close(2, false)];
    assert_eq!(reduce(unlike.clone()), unlike);
    let untagged = vec![
        Token::OpenParen { id: None, function: false },
        Token::Add,
        Token::CloseParen { id: None, function: false },
    ];
    assert_eq!(reduce(untagged), vec![Token::Add]);
}

#[test]
fn reduction_goes_round_the_priorities() {
    let tokens = vec![
        Token::Int(6),
        Token::Divide,
        Token::Int(0),
        Token::Add,
        Token::Int(2),
    ];
    assert_eq!(reduce(tokens), vec![Token::Int(3)]);
}

#[test]
fn reducing_twice_is_reducing_once() {
    let samples = [
        "2+3*4", "A+1*2", "(1+2)*(3+4)", "1/0+5", "2**3**2", "F(1)+2*3", "1.5+2.5*A", ")(1+1)(",
        "", "7",
    ];
    for text in samples {
        let mut tokens = tokenize(text.to_string(), cards(1));
        id_brackets(&mut tokens);
        combine_and_expand(&mut tokens);
        let once = tokens.clone();
        combine_and_expand(&mut tokens);
        assert_eq!(tokens, once);
    }
}

#[test]
fn empty_buffer_stays_empty() {
    assert_eq!(reduce(Vec::new()), Vec::<Token>::new());
    assert_eq!(process(String::new(), Vec::new()), Vec::<Token>::new());
    assert_eq!(prepare(&Vec::new()), Vec::<Token>::new());
}

#[test]
fn spaces_are_dropped_before_the_passes() {
    let tokens = process("A = 2 + 3".to_string(), cards(1));
    assert_eq!(tokens, vec![ident("A"), Token::Equals, Token::Int(5)]);
}

#[test]
fn tokens_compare_by_kind_and_contents() {
    assert!(ident("A").same_as(&ident("A")));
    assert!(!ident("A").same_as(&ident("B")));
    assert!(!ident("A").same_as(&Token::UnknownToken("A".to_string())));
    assert!(open(3, true).same_as(&open(3, true)));
    assert!(!open(3, true).same_as(&open(3, false)));
    assert!(!open(3, true).same_as(&close(3, true)));
    let sum = FloatExpr::Sum(Box::new(literal("1.0")), Box::new(literal("2.0")));
    assert!(Token::Float(sum.clone()).same_as(&Token::Float(sum.clone())));
    assert!(!Token::Float(sum.clone()).same_as(&Token::Float(literal("3.0"))));
    assert_eq!(sum.clone(), sum);
    let f = Token::Function { id: "F".to_string(), args: vec!["X".to_string()], definition: true };
    assert!(f.same_as(&f.clone()));
    assert_eq!(f.clone(), f);
}

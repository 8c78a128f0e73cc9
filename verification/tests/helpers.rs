use fortran704::arith::{int_difference, int_power, int_product, int_quotient, int_sum};
use fortran704::chars::{chars_of, replace_all};
use fortran704::token::{clone_tokens, copy_range, copy_without, extend_tokens};
use fortran704::{classify, lex_classified, CharType, FloatExpr, LineData, Token};

fn text(s: &str) -> Vec<char> {
    s.chars().collect()
}

#[test]
fn integer_arithmetic_has_no_result_out_of_range() {
    assert_eq!(int_sum(2, 3), Some(5));
    assert_eq!(int_sum(i32::MAX, 1), None);
    assert_eq!(int_sum(i32::MIN, -1), None);
    assert_eq!(int_difference(2, 3), Some(-1));
    assert_eq!(int_difference(i32::MIN, 1), None);
    assert_eq!(int_difference(-1, i32::MIN), Some(i32::MAX));
    assert_eq!(int_product(-4, 5), Some(-20));
    assert_eq!(int_product(46341, 46341), None);
    assert_eq!(int_product(46340, 46340), Some(2147395600));
    assert_eq!(int_product(i32::MIN, -1), None);
    assert_eq!(int_quotient(9, 4), Some(2));
    assert_eq!(int_quotient(-9, 4), Some(-2));
    assert_eq!(int_quotient(9, 0), None);
    assert_eq!(int_quotient(i32::MIN, -1), None);
    assert_eq!(int_quotient(i32::MIN, 1), Some(i32::MIN));
    assert_eq!(int_power(3, 4), Some(81));
    assert_eq!(int_power(2, 31), None);
    assert_eq!(int_power(-2, 31), Some(i32::MIN));
    assert_eq!(int_power(10, 9), Some(1000000000));
    assert_eq!(int_power(10, 10), None);
    assert_eq!(int_power(0, 0), Some(1));
    assert_eq!(int_power(0, -3), Some(0));
    assert_eq!(int_power(-1, -3), Some(-1));
    assert_eq!(int_power(-1, -4), Some(1));
    assert_eq!(int_power(1, i32::MIN), Some(1));
    assert_eq!(int_power(2, -1), None);
}

#[test]
fn replacement_goes_from_the_left() {
    assert_eq!(replace_all(&text("aaaa"), &text("aa"), &text("b")), text("bb"));
    assert_eq!(replace_all(&text("aaa"), &text("aa"), &text("b")), text("ba"));
    assert_eq!(replace_all(&text("xyz"), &text(""), &text("b")), text("xyz"));
    assert_eq!(replace_all(&text("xyz"), &text("xyzw"), &text("b")), text("xyz"));
    assert_eq!(replace_all(&text("GO TOGO TO"), &text("GO TO"), &text("GoTo")), text("GoToGoTo"));
    assert_eq!(replace_all(&text("abc"), &text("b"), &text("")), text("ac"));
    assert_eq!(replace_all(&text(""), &text("b"), &text("c")), text(""));
    for (s, from, to) in [("a.b.c", ".", "--"), ("abab", "ab", "ba"), ("xxx", "xx", "xxx")] {
        assert_eq!(
            replace_all(&text(s), &text(from), &text(to)),
            text(&s.replace(from, to))
        );
    }
    assert_eq!(chars_of("a\u{00e9}"), vec!['a', '\u{00e9}']);
}

#[test]
fn characters_are_classified_before_they_are_lexed() {
    assert_eq!(
        classify(&text("A1+")),
        vec![('A', CharType::Letter), ('1', CharType::Digit), ('+', CharType::Operator)]
    );
    let card = vec![LineData { number: 0, continuation: false, comment: false, label: 4 }];
    let given = vec![('1', CharType::Letter), ('A', CharType::Digit), ('B', CharType::Operator)];
    assert_eq!(
        lex_classified(&given, &card),
        vec![
            Token::Label(4),
            Token::Identifier("1".to_string()),
            Token::UnknownToken("A".to_string()),
            Token::UnknownToken("B".to_string()),
        ]
    );
}

#[test]
fn token_lists_are_copied() {
    let tokens = vec![
        Token::Int(1),
        Token::Space,
        Token::Identifier("A".to_string()),
        Token::Space,
        Token::Float(FloatExpr::Literal("2.5".to_string())),
    ];
    assert_eq!(clone_tokens(&tokens), tokens);
    assert_eq!(copy_range(&tokens, 1, 3), tokens[1..3].to_vec());
    assert_eq!(copy_range(&tokens, 2, 2), Vec::<Token>::new());
    assert_eq!(
        copy_without(&tokens, 0, 5, &Token::Space),
        vec![tokens[0].clone(), tokens[2].clone(), tokens[4].clone()]
    );
    assert_eq!(copy_without(&tokens, 1, 2, &Token::Space), Vec::<Token>::new());
    let mut out = vec![Token::Add];
    extend_tokens(&mut out, &tokens);
    assert_eq!(out.len(), 6);
    assert_eq!(out[0], Token::Add);
    assert_eq!(out[1..], tokens[..]);
}

use crate::chars::{
    char_type, chars_of, get_char_type, replace_all, replaced, uppercase, CharType,
};
use crate::arith::narrowed;
use crate::token::{FloatExpr, FloatModel, Token, TokenModel};
use vstd::prelude::*;

verus! {

/// What the card of one source line carries beside its text.
#[derive(Clone, Debug, PartialEq, Copy, Hash, Eq)]
pub struct LineData {
    pub number: i32,
    /// The line goes on in the next one: its newline is left out.
    pub continuation: bool,
    /// The line is a comment: nothing of it is read.
    pub comment: bool,
    /// The line's label; zero where it has none.
    pub label: i32,
}

/// The token that a run of letters stands for: a keyword, or an identifier.
pub open spec fn keyword_token(text: Seq<char>) -> TokenModel {
    if text == "\n"@ {
        TokenModel::Newline
    } else if text == "DO"@ {
        TokenModel::Do
    } else if text == "IF"@ {
        TokenModel::If
    } else if text == "GoTo"@ {
        TokenModel::GoTo
    } else if text == "DIMENSION"@ {
        TokenModel::Dimension
    } else if text == "SenseLight"@ {
        TokenModel::SenseLight
    } else if text == "E"@ {
        TokenModel::E
    } else if text == "STOP"@ {
        TokenModel::Stop
    } else {
        TokenModel::Identifier(text)
    }
}

/// The token that a text of one punctuation character stands for.
pub open spec fn symbol_token(text: Seq<char>) -> TokenModel {
    if text == "("@ {
        TokenModel::OpenParen { id: None, function: false }
    } else if text == ")"@ {
        TokenModel::CloseParen { id: None, function: false }
    } else if text == "*"@ {
        TokenModel::Multiply
    } else if text == "\n"@ {
        TokenModel::Newline
    } else if text == "/"@ {
        TokenModel::Divide
    } else if text == "+"@ {
        TokenModel::Add
    } else if text == ","@ {
        TokenModel::Comma
    } else if text == " "@ {
        TokenModel::Space
    } else if text == "-"@ {
        TokenModel::Subtract
    } else if text == "="@ {
        TokenModel::Equals
    } else {
        TokenModel::UnknownToken(text)
    }
}

/// One of the ten decimal digits.
pub open spec fn is_decimal_digit(c: char) -> bool {
    '0' <= c <= '9'
}

/// Every character is one of the ten decimal digits.
pub open spec fn digits_only(s: Seq<char>) -> bool {
    forall|i: int| 0 <= i < s.len() ==> is_decimal_digit(#[trigger] s[i])
}

/// The number that a text of decimal digits denotes.
pub open spec fn decimal_value(s: Seq<char>) -> nat
    decreases s.len(),
{
    if s.len() == 0 {
        0
    } else {
        (decimal_value(s.drop_last()) * 10 + (s.last() as u32 - '0' as u32)) as nat
    }
}

/// The text has a decimal point.
pub open spec fn has_point(s: Seq<char>) -> bool {
    exists|i: int| 0 <= i < s.len() && #[trigger] s[i] == '.'
}

/// The text begins with a plus or a minus sign.
pub open spec fn has_sign(s: Seq<char>) -> bool {
    s.len() > 0 && (s[0] == '+' || s[0] == '-')
}

/// The text without its sign, where it has one.
pub open spec fn unsigned_part(s: Seq<char>) -> Seq<char> {
    if has_sign(s) {
        s.skip(1)
    } else {
        s
    }
}

/// The integer that a text denotes: a sign or none, then decimal digits,
/// at least one. There is none where the text has another form or the
/// number does not fit in 32 bits.
pub open spec fn integer_of_text(s: Seq<char>) -> Option<i32> {
    let digits = unsigned_part(s);
    if digits.len() > 0 && digits_only(digits) {
        if s[0] == '-' {
            narrowed(-decimal_value(digits))
        } else {
            narrowed(decimal_value(digits) as int)
        }
    } else {
        None
    }
}

/// Digits around one decimal point, at least one digit in all.
pub open spec fn is_mantissa(s: Seq<char>) -> bool {
    exists|p: int|
        0 <= p < s.len() && #[trigger] s[p] == '.' && digits_only(s.take(p)) && digits_only(
            s.skip(p + 1),
        ) && s.len() >= 2
}

/// The letter that begins an exponent.
pub open spec fn is_exponent_mark(c: char) -> bool {
    c == 'e' || c == 'E'
}

/// A sign or none, then decimal digits, at least one.
pub open spec fn is_exponent(s: Seq<char>) -> bool {
    unsigned_part(s).len() > 0 && digits_only(unsigned_part(s))
}

/// The mantissa is followed by an exponent whose mark stands at position `k`.
pub open spec fn splits_at(s: Seq<char>, k: int) -> bool {
    0 <= k < s.len() && is_exponent_mark(s[k]) && is_mantissa(s.take(k)) && is_exponent(
        s.skip(k + 1),
    )
}

/// The text is a literal with a decimal point: a sign or none; then digits
/// around one point, at least one digit in all; then an exponent or none.
pub open spec fn is_float_literal(s: Seq<char>) -> bool {
    let u = unsigned_part(s);
    is_mantissa(u) || exists|k: int| #[trigger] splits_at(u, k)
}

/// The token that a text stands for as a number. With a point it is a
/// single-precision literal, without one a 32-bit integer; a text that is
/// neither is kept as an unknown token.
pub open spec fn number_token(text: Seq<char>) -> TokenModel {
    if has_point(text) {
        if is_float_literal(text) {
            TokenModel::Float(FloatModel::Literal(text))
        } else {
            TokenModel::UnknownToken(text)
        }
    } else {
        match integer_of_text(text) {
            Some(v) => TokenModel::Int(v),
            None => TokenModel::UnknownToken(text),
        }
    }
}

/// `str::parse` of the standard library at the type `i32`: the integer
/// that the text denotes in decimal digits after a plus or a minus sign or
/// none, and an error, given here as `None`, where the text is empty, holds
/// anything else, or denotes a number outside the 32-bit range.
#[verifier::external_body]
fn parse_integer(text: &str) -> (r: Option<i32>)
    ensures
        r == integer_of_text(text@),
{
    match text.parse::<i32>() {
        Ok(v) => Some(v),
        Err(_) => None,
    }
}

/// A mantissa holds digits and a point, nothing else.
proof fn lemma_mantissa_characters(s: Seq<char>)
    requires
        is_mantissa(s),
    ensures
        forall|i: int| 0 <= i < s.len() ==> is_decimal_digit(#[trigger] s[i]) || s[i] == '.',
{
    let p = choose|p: int|
        0 <= p < s.len() && #[trigger] s[p] == '.' && digits_only(s.take(p)) && digits_only(
            s.skip(p + 1),
        ) && s.len() >= 2;
    assert forall|i: int| 0 <= i < s.len() implies is_decimal_digit(#[trigger] s[i]) || s[i]
        == '.' by {
        if i < p {
            assert(is_decimal_digit(s.take(p)[i]));
        } else if i > p {
            assert(is_decimal_digit(s.skip(p + 1)[i - p - 1]));
        }
    }
}

fn is_word(text: &String, word: &str) -> (r: bool)
    ensures
        r == (text@ == word@),
{
    let w = String::from_str(word);
    *text == w
}

/// The first position from `from` up to `to` that holds a decimal point;
/// `to` where none does.
fn first_point(chars: &Vec<char>, from: usize, to: usize) -> (r: usize)
    requires
        from <= to <= chars.len(),
    ensures
        from <= r <= to,
        r < to ==> chars[r as int] == '.',
        forall|i: int| from <= i < r ==> chars[i] != '.',
{
    let mut i: usize = from;
    while i < to
        invariant
            from <= i <= to <= chars.len(),
            forall|k: int| from <= k < i ==> chars[k] != '.',
        decreases to - i,
    {
        if chars[i] == '.' {
            return i;
        }
        i += 1;
    }
    i
}

/// The first position from `from` on that holds an exponent mark; the
/// length of the text where none does.
fn first_mark(chars: &Vec<char>, from: usize) -> (r: usize)
    requires
        from <= chars.len(),
    ensures
        from <= r <= chars.len(),
        r < chars.len() ==> is_exponent_mark(chars[r as int]),
        forall|i: int| from <= i < r ==> !is_exponent_mark(chars[i]),
{
    let mut i: usize = from;
    while i < chars.len()
        invariant
            from <= i <= chars.len(),
            forall|k: int| from <= k < i ==> !is_exponent_mark(chars[k]),
        decreases chars.len() - i,
    {
        if chars[i] == 'e' || chars[i] == 'E' {
            return i;
        }
        i += 1;
    }
    i
}

fn all_digits(chars: &Vec<char>, from: usize, to: usize) -> (r: bool)
    requires
        from <= to <= chars.len(),
    ensures
        r == digits_only(chars@.subrange(from as int, to as int)),
{
    let mut i: usize = from;
    while i < to
        invariant
            from <= i <= to <= chars.len(),
            forall|k: int| from <= k < i ==> is_decimal_digit(chars[k]),
        decreases to - i,
    {
        if !('0' <= chars[i] && chars[i] <= '9') {
            assert(!is_decimal_digit(chars@.subrange(from as int, to as int)[i - from]));
            return false;
        }
        i += 1;
    }
    true
}

fn begins_with_sign(chars: &Vec<char>, from: usize, to: usize) -> (r: bool)
    requires
        from <= to <= chars.len(),
    ensures
        r == has_sign(chars@.subrange(from as int, to as int)),
{
    from < to && (chars[from] == '+' || chars[from] == '-')
}

fn is_mantissa_exec(chars: &Vec<char>, from: usize, to: usize) -> (r: bool)
    requires
        from <= to <= chars.len(),
    ensures
        r == is_mantissa(chars@.subrange(from as int, to as int)),
{
    let ghost m = chars@.subrange(from as int, to as int);
    let p = first_point(chars, from, to);
    if p >= to {
        assert(!is_mantissa(m)) by {
            if is_mantissa(m) {
                let q = choose|q: int| 0 <= q < m.len() && #[trigger] m[q] == '.';
                assert(chars[from + q] == '.');
            }
        }
        return false;
    }
    let r = to - from >= 2 && all_digits(chars, from, p) && all_digits(chars, p + 1, to);
    proof {
        assert(m.take(p - from) =~= chars@.subrange(from as int, p as int));
        assert(m.skip(p - from + 1) =~= chars@.subrange(p + 1, to as int));
        assert(m[p - from] == '.');
        if is_mantissa(m) {
            let q = choose|q: int|
                0 <= q < m.len() && #[trigger] m[q] == '.' && digits_only(m.take(q))
                    && digits_only(m.skip(q + 1)) && m.len() >= 2;
            if q < p - from {
                assert(chars[from + q] == '.');
            }
            if p - from < q {
                assert(is_decimal_digit(m.take(q)[p - from]));
            }
            assert(q == p - from);
        }
    }
    r
}

fn is_exponent_exec(chars: &Vec<char>, from: usize, to: usize) -> (r: bool)
    requires
        from <= to <= chars.len(),
    ensures
        r == is_exponent(chars@.subrange(from as int, to as int)),
{
    let ghost e = chars@.subrange(from as int, to as int);
    let start = if begins_with_sign(chars, from, to) {
        from + 1
    } else {
        from
    };
    assert(unsigned_part(e) =~= chars@.subrange(start as int, to as int));
    start < to && all_digits(chars, start, to)
}

fn is_float_literal_exec(chars: &Vec<char>) -> (r: bool)
    ensures
        r == is_float_literal(chars@),
{
    let n = chars.len();
    assert(chars@.subrange(0, n as int) =~= chars@);
    let start = if begins_with_sign(chars, 0, n) {
        1
    } else {
        0
    };
    let ghost u = unsigned_part(chars@);
    assert(u =~= chars@.subrange(start as int, n as int));
    let k = first_mark(chars, start);
    if k >= n {
        let r = is_mantissa_exec(chars, start, n);
        proof {
            assert forall|j: int| !#[trigger] splits_at(u, j) by {
                if splits_at(u, j) {
                    assert(is_exponent_mark(chars[start + j]));
                }
            }
        }
        r
    } else {
        let r = is_mantissa_exec(chars, start, k) && is_exponent_exec(chars, k + 1, n);
        proof {
            let at = k - start;
            assert(u.take(at) =~= chars@.subrange(start as int, k as int));
            assert(u.skip(at + 1) =~= chars@.subrange(k + 1, n as int));
            assert(u[at] == chars[k as int]);
            assert(r == splits_at(u, at));
            if is_mantissa(u) {
                lemma_mantissa_characters(u);
                assert(is_decimal_digit(u[at]) || u[at] == '.');
            }
            assert forall|j: int| j != at implies !#[trigger] splits_at(u, j) by {
                if splits_at(u, j) {
                    if j < at {
                        assert(is_exponent_mark(chars[start + j]));
                    } else {
                        lemma_mantissa_characters(u.take(j));
                        assert(u.take(j)[at] == u[at]);
                    }
                }
            }
        }
        r
    }
}

impl Token {
    /// The token that a run of letters stands for.
    pub fn identifier_builtin(str: String) -> (r: Token)
        ensures
            r@ == keyword_token(str@),
    {
        if is_word(&str, "\n") {
            Token::Newline
        } else if is_word(&str, "DO") {
            Token::Do
        } else if is_word(&str, "IF") {
            Token::If
        } else if is_word(&str, "GoTo") {
            Token::GoTo
        } else if is_word(&str, "DIMENSION") {
            Token::Dimension
        } else if is_word(&str, "SenseLight") {
            Token::SenseLight
        } else if is_word(&str, "E") {
            Token::E
        } else if is_word(&str, "STOP") {
            Token::Stop
        } else {
            Token::Identifier(str)
        }
    }

    /// The token that a text stands for as a number.
    pub fn number(str: String) -> (r: Token)
        ensures
            r@ == number_token(str@),
    {
        let chars = chars_of(str.as_str());
        let n = chars.len();
        let p = first_point(&chars, 0, n);
        if p < n {
            assert(has_point(str@));
            if is_float_literal_exec(&chars) {
                Token::Float(FloatExpr::Literal(str))
            } else {
                Token::UnknownToken(str)
            }
        } else {
            assert(!has_point(str@));
            match parse_integer(str.as_str()) {
                Some(v) => Token::Int(v),
                None => Token::UnknownToken(str),
            }
        }
    }

    /// The token that a text of one punctuation character stands for.
    pub fn tokenize_symbols(str: String) -> (r: Token)
        ensures
            r@ == symbol_token(str@),
    {
        if is_word(&str, "(") {
            Token::OpenParen { id: None, function: false }
        } else if is_word(&str, ")") {
            Token::CloseParen { id: None, function: false }
        } else if is_word(&str, "*") {
            Token::Multiply
        } else if is_word(&str, "\n") {
            Token::Newline
        } else if is_word(&str, "/") {
            Token::Divide
        } else if is_word(&str, "+") {
            Token::Add
        } else if is_word(&str, ",") {
            Token::Comma
        } else if is_word(&str, " ") {
            Token::Space
        } else if is_word(&str, "-") {
            Token::Subtract
        } else if is_word(&str, "=") {
            Token::Equals
        } else {
            Token::UnknownToken(str)
        }
    }
}

/// What the lexer holds between two characters.
pub struct LexState {
    /// The number of the source line that the next character stands on.
    pub line: nat,
    /// The label of that line has been given out.
    pub labeled: bool,
    /// The letters of the word being read.
    pub word: Seq<char>,
    /// The digits of the number being read.
    pub digits: Seq<char>,
    /// The tokens given out so far.
    pub out: Seq<TokenModel>,
}

/// The lexer before the first character.
pub open spec fn lex_start() -> LexState {
    LexState {
        line: 0,
        labeled: false,
        word: Seq::empty(),
        digits: Seq::empty(),
        out: Seq::empty(),
    }
}

/// A character with its kind.
pub struct Classified {
    pub c: char,
    pub kind: CharType,
}

/// A character with the kind that it has.
pub open spec fn with_kind(c: char) -> Classified {
    Classified { c, kind: char_type(c) }
}

/// Each character of a text with its kind.
pub open spec fn classified(text: Seq<char>) -> Seq<Classified> {
    Seq::new(text.len(), |i: int| with_kind(text[i]))
}

/// The character is not read: it stands on a line without a card or on a
/// comment line, or it is the newline of a line that goes on.
pub open spec fn is_skipped(st: LexState, c: char, cards: Seq<LineData>) -> bool {
    st.line >= cards.len() || cards[st.line as int].comment || (c == '\n'
        && cards[st.line as int].continuation)
}

/// The state after a character that is read. The label of its line comes
/// first, once. A run of letters or of digits goes on with the character or
/// ends before it and gives its token; a character that is neither gives a
/// token of its own.
pub open spec fn lex_read(st: LexState, c: char, kind: CharType, cards: Seq<LineData>) -> LexState {
    let label = cards[st.line as int].label;
    let labeled = if label != 0 && !st.labeled {
        st.out.push(TokenModel::Label(label))
    } else {
        st.out
    };
    let worded = if kind != CharType::Letter && st.word.len() > 0 {
        labeled.push(keyword_token(st.word))
    } else {
        labeled
    };
    let numbered = if kind != CharType::Digit && st.digits.len() > 0 {
        worded.push(number_token(st.digits))
    } else {
        worded
    };
    LexState {
        line: st.line,
        labeled: true,
        word: if kind == CharType::Letter {
            st.word.push(c)
        } else {
            Seq::empty()
        },
        digits: if kind == CharType::Digit {
            st.digits.push(c)
        } else {
            Seq::empty()
        },
        out: if kind == CharType::Operator {
            numbered.push(symbol_token(seq![c]))
        } else {
            numbered
        },
    }
}

/// The state after one character. A newline, read or not, begins the next line.
pub open spec fn lex_step(st: LexState, next: Classified, cards: Seq<LineData>) -> LexState {
    let after = if is_skipped(st, next.c, cards) {
        st
    } else {
        lex_read(st, next.c, next.kind, cards)
    };
    if next.c == '\n' {
        LexState { line: st.line + 1, labeled: false, ..after }
    } else {
        after
    }
}

/// The state after a text.
pub open spec fn lex_feed(st: LexState, text: Seq<Classified>, cards: Seq<LineData>) -> LexState
    decreases text.len(),
{
    if text.len() == 0 {
        st
    } else {
        lex_step(lex_feed(st, text.drop_last(), cards), text.last(), cards)
    }
}

/// The tokens at the end of the text: a number or a word still being read
/// gives its token.
pub open spec fn lex_finish(st: LexState) -> Seq<TokenModel> {
    let numbered = if st.digits.len() > 0 {
        st.out.push(number_token(st.digits))
    } else {
        st.out
    };
    if st.word.len() > 0 {
        numbered.push(keyword_token(st.word))
    } else {
        numbered
    }
}

/// The tokens of a text of which the kind of each character is given.
pub open spec fn lexed_kinds(text: Seq<Classified>, cards: Seq<LineData>) -> Seq<TokenModel> {
    lex_finish(lex_feed(lex_start(), text, cards))
}

/// The tokens of a text whose letters are in upper case and whose
/// keywords of two words are written as one.
pub open spec fn lexed(text: Seq<char>, cards: Seq<LineData>) -> Seq<TokenModel> {
    lexed_kinds(classified(text), cards)
}

/// The text with its line ends in one form and each keyword of two words
/// written as one word.
pub open spec fn normalized(text: Seq<char>) -> Seq<char> {
    replaced(
        replaced(replaced(text, "\r\n"@, "\n"@), "SENSE LIGHT"@, "SenseLight"@),
        "GO TO"@,
        "GoTo"@,
    )
}

/// The text holds no newline.
pub open spec fn on_one_line(text: Seq<Classified>) -> bool {
    forall|i: int| 0 <= i < text.len() ==> (#[trigger] text[i]).c != '\n'
}

/// The number of newlines in a text.
pub open spec fn newlines(text: Seq<Classified>) -> nat
    decreases text.len(),
{
    if text.len() == 0 {
        0
    } else if text.last().c == '\n' {
        newlines(text.drop_last()) + 1
    } else {
        newlines(text.drop_last())
    }
}

/// Feeding a text is feeding its first part and then the rest.
pub proof fn lemma_feed_in_parts(
    st: LexState,
    first: Seq<Classified>,
    rest: Seq<Classified>,
    cards: Seq<LineData>,
)
    ensures
        lex_feed(st, first + rest, cards) == lex_feed(lex_feed(st, first, cards), rest, cards),
    decreases rest.len(),
{
    if rest.len() == 0 {
        assert(first + rest =~= first);
    } else {
        assert((first + rest).drop_last() =~= first + rest.drop_last());
        assert((first + rest).last() == rest.last());
        lemma_feed_in_parts(st, first, rest.drop_last(), cards);
    }
}

/// The lexer counts lines by the newlines it has passed.
pub proof fn lemma_feed_counts_lines(st: LexState, text: Seq<Classified>, cards: Seq<LineData>)
    ensures
        lex_feed(st, text, cards).line == st.line + newlines(text),
    decreases text.len(),
{
    if text.len() > 0 {
        lemma_feed_counts_lines(st, text.drop_last(), cards);
    }
}

/// A comment line gives no token, whatever it holds: what stands on it
/// leaves the lexer as it was, and its newline only begins the next line.
pub proof fn lemma_comment_line_is_silent(
    st: LexState,
    content: Seq<Classified>,
    end: Classified,
    cards: Seq<LineData>,
)
    requires
        st.line < cards.len(),
        cards[st.line as int].comment,
        on_one_line(content),
        end.c == '\n',
    ensures
        lex_feed(st, content, cards) == st,
        lex_feed(st, content.push(end), cards) == (LexState {
            line: st.line + 1,
            labeled: false,
            ..st
        }),
    decreases content.len(),
{
    if content.len() > 0 {
        assert(on_one_line(content.drop_last())) by {
            assert forall|i: int| 0 <= i < content.drop_last().len() implies (
            #[trigger] content.drop_last()[i]).c != '\n' by {
                assert(content[i].c != '\n');
            }
        }
        lemma_comment_line_is_silent(st, content.drop_last(), end, cards);
        assert(content[content.len() - 1].c != '\n');
    }
    assert(lex_feed(st, content, cards) == st);
    assert(content.push(end).drop_last() =~= content);
    assert(content.push(end).last() == end);
    assert(lex_feed(st, content.push(end), cards) == lex_step(st, end, cards));
}

/// The tokens of a text do not depend on what stands on a comment line:
/// any part of such a line may be exchanged for any other text without a
/// newline, or left out.
pub proof fn lemma_comment_text_is_ignored(
    before: Seq<Classified>,
    content: Seq<Classified>,
    other: Seq<Classified>,
    after: Seq<Classified>,
    cards: Seq<LineData>,
)
    requires
        newlines(before) < cards.len(),
        cards[newlines(before) as int].comment,
        on_one_line(content),
        on_one_line(other),
    ensures
        lexed_kinds(before + content + after, cards) == lexed_kinds(
            before + other + after,
            cards,
        ),
        lexed_kinds(before + content + after, cards) == lexed_kinds(before + after, cards),
{
    let st = lex_feed(lex_start(), before, cards);
    let end = Classified { c: '\n', kind: CharType::Operator };
    lemma_feed_counts_lines(lex_start(), before, cards);
    lemma_comment_line_is_silent(st, content, end, cards);
    lemma_comment_line_is_silent(st, other, end, cards);
    lemma_feed_in_parts(lex_start(), before, content, cards);
    lemma_feed_in_parts(lex_start(), before, other, cards);
    lemma_feed_in_parts(lex_start(), before + content, after, cards);
    lemma_feed_in_parts(lex_start(), before + other, after, cards);
    lemma_feed_in_parts(lex_start(), before, after, cards);
}

/// The same for a text of characters: what stands on a comment line may
/// be exchanged or left out.
pub proof fn lemma_comment_characters_are_ignored(
    before: Seq<char>,
    content: Seq<char>,
    other: Seq<char>,
    after: Seq<char>,
    cards: Seq<LineData>,
)
    requires
        newlines(classified(before)) < cards.len(),
        cards[newlines(classified(before)) as int].comment,
        forall|i: int| 0 <= i < content.len() ==> content[i] != '\n',
        forall|i: int| 0 <= i < other.len() ==> other[i] != '\n',
    ensures
        lexed(before + content + after, cards) == lexed(before + other + after, cards),
        lexed(before + content + after, cards) == lexed(before + after, cards),
{
    assert(classified(before + content + after) =~= classified(before) + classified(content)
        + classified(after));
    assert(classified(before + other + after) =~= classified(before) + classified(other)
        + classified(after));
    assert(classified(before + after) =~= classified(before) + classified(after));
    lemma_comment_text_is_ignored(
        classified(before),
        classified(content),
        classified(other),
        classified(after),
        cards,
    );
}

/// Brings a text into the form that [`lex`] reads.
pub fn normalize(text: &Vec<char>) -> (r: Vec<char>)
    ensures
        r@ == normalized(text@),
{
    let ends = replace_all(text, &chars_of("\r\n"), &chars_of("\n"));
    let lights = replace_all(&ends, &chars_of("SENSE LIGHT"), &chars_of("SenseLight"));
    replace_all(&lights, &chars_of("GO TO"), &chars_of("GoTo"))
}

/// Each character of a text with its kind.
pub fn classify(text: &Vec<char>) -> (r: Vec<(char, CharType)>)
    ensures
        kinds_model(r@) == classified(text@),
{
    let mut out: Vec<(char, CharType)> = Vec::new();
    let mut i: usize = 0;
    while i < text.len()
        invariant
            i <= text.len(),
            out.len() == i,
            forall|k: int|
                0 <= k < i ==> out[k].0 == text[k] && out[k].1 == char_type(text[k]),
        decreases text.len() - i,
    {
        out.push((text[i], get_char_type(text[i])));
        i += 1;
    }
    assert(kinds_model(out@) =~= classified(text@));
    out
}

/// The character and the kind that a pair holds.
pub open spec fn pair_model(pair: (char, CharType)) -> Classified {
    Classified { c: pair.0, kind: pair.1 }
}

/// The characters and kinds that a list of pairs holds.
pub open spec fn kinds_model(text: Seq<(char, CharType)>) -> Seq<Classified> {
    Seq::new(text.len(), |i: int| pair_model(text[i]))
}

/// The tokens of a text of which the kind of each character is given, with
/// the card of each of its lines.
pub fn lex_classified(text: &Vec<(char, CharType)>, line_data: &Vec<LineData>) -> (r: Vec<Token>)
    ensures
        r.deep_view() == lexed_kinds(kinds_model(text@), line_data@),
{
    let ghost cards = line_data@;
    let ghost whole = kinds_model(text@);
    let mut line: usize = 0;
    let mut labeled = false;
    let mut word = String::new();
    let mut digits = String::new();
    let mut out: Vec<Token> = Vec::new();
    let mut i: usize = 0;
    assert(out.deep_view() =~= Seq::<TokenModel>::empty());
    while i < text.len()
        invariant
            i <= text.len(),
            line <= i,
            cards == line_data@,
            whole == kinds_model(text@),
            lex_feed(lex_start(), whole.take(i as int), cards) == (LexState {
                line: line as nat,
                labeled,
                word: word@,
                digits: digits@,
                out: out.deep_view(),
            }),
        decreases text.len() - i,
    {
        let c = text[i].0;
        let kind = text[i].1;
        let ghost st = lex_feed(lex_start(), whole.take(i as int), cards);
        proof {
            assert(whole.take(i + 1).drop_last() =~= whole.take(i as int));
            assert(whole.take(i + 1).last() == Classified { c, kind });
        }
        let skipped = line >= line_data.len() || line_data[line].comment || (c == '\n'
            && line_data[line].continuation);
        assert(skipped == is_skipped(st, c, cards));
        if !skipped {
            let label = line_data[line].label;
            if label != 0 && !labeled {
                let ghost before = out.deep_view();
                out.push(Token::Label(label));
                assert(out.deep_view() =~= before.push(TokenModel::Label(label)));
            }
            labeled = true;
            if kind != CharType::Letter {
                if !word.as_str().is_empty() {
                    let ghost before = out.deep_view();
                    let finished = word;
                    word = String::new();
                    out.push(Token::identifier_builtin(finished));
                    assert(out.deep_view() =~= before.push(keyword_token(st.word)));
                }
            } else {
                word.push(c);
            }
            if kind != CharType::Digit {
                if !digits.as_str().is_empty() {
                    let ghost before = out.deep_view();
                    let finished = digits;
                    digits = String::new();
                    out.push(Token::number(finished));
                    assert(out.deep_view() =~= before.push(number_token(st.digits)));
                }
            } else {
                digits.push(c);
            }
            if kind == CharType::Operator {
                let ghost before = out.deep_view();
                let mut text_of_c = String::new();
                text_of_c.push(c);
                assert(text_of_c@ =~= seq![c]);
                out.push(Token::tokenize_symbols(text_of_c));
                assert(out.deep_view() =~= before.push(symbol_token(seq![c])));
            }
            assert(word@ =~= lex_read(st, c, kind, cards).word);
            assert(digits@ =~= lex_read(st, c, kind, cards).digits);
        }
        if c == '\n' {
            line = line + 1;
            labeled = false;
        }
        i += 1;
    }
    assert(whole.take(i as int) =~= whole);
    if !digits.as_str().is_empty() {
        let ghost before = out.deep_view();
        out.push(Token::number(digits));
        assert(out.deep_view() =~= before.push(number_token(digits@)));
    }
    if !word.as_str().is_empty() {
        let ghost before = out.deep_view();
        out.push(Token::identifier_builtin(word));
        assert(out.deep_view() =~= before.push(keyword_token(word@)));
    }
    out
}

/// The tokens of a text whose letters are in upper case and whose keywords
/// of two words are written as one, with the card of each of its lines.
pub fn lex(text: &Vec<char>, line_data: &Vec<LineData>) -> (r: Vec<Token>)
    ensures
        r.deep_view() == lexed(text@, line_data@),
{
    lex_classified(&classify(text), line_data)
}

/// The tokens of a source text, with the card of each of its lines.
///
/// The text is first put in upper case and brought into the form that
/// [`lex`] reads.
pub fn tokenize(in_string: String, line_data: Vec<LineData>) -> (r: Vec<Token>)
    ensures
        r.deep_view() == lexed(normalized(uppercase(in_string@)), line_data@),
{
    let upper = in_string.as_str().to_uppercase();
    let text = normalize(&chars_of(upper.as_str()));
    lex(&text, &line_data)
}

} // verus!

use vstd::prelude::*;

verus! {

/// Whether a character is alphabetic, as `char::is_alphabetic` decides it.
pub uninterp spec fn alphabetic(c: char) -> bool;

/// Whether a character is numeric, as `char::is_numeric` decides it.
pub uninterp spec fn numeric(c: char) -> bool;

/// The upper-case form of a text, as `str::to_uppercase` gives it.
pub uninterp spec fn uppercase(s: Seq<char>) -> Seq<char>;

/// `char::is_alphabetic` of the standard library: whether the character
/// has the Unicode property Alphabetic. The answer depends on the
/// character alone; it is known here only by its name.
pub assume_specification[ char::is_alphabetic ](c: char) -> (r: bool)
    ensures
        r == alphabetic(c),
;

/// `char::is_numeric` of the standard library: whether the character is
/// in one of the Unicode categories of numbers. The answer depends on the
/// character alone; it is known here only by its name.
pub assume_specification[ char::is_numeric ](c: char) -> (r: bool)
    ensures
        r == numeric(c),
;

/// `str::to_uppercase` of the standard library: a new string that holds
/// the upper-case form of the text. The result depends on the text alone;
/// it is known here only by its name.
pub assume_specification[ str::to_uppercase ](s: &str) -> (r: String)
    ensures
        r@ == uppercase(s@),
;

/// `String::push` of the standard library: appends one character to the
/// end of the string.
pub assume_specification[ String::push ](s: &mut String, c: char)
    ensures
        final(s)@ == old(s)@.push(c),
;

/// The three kinds of character that the lexer tells apart.
#[derive(PartialEq, Eq, Structural, Copy, Clone, Debug)]
pub enum CharType {
    Letter,
    Digit,
    Operator,
}

/// The kind of a character: a letter where it is alphabetic, else a digit
/// where it is numeric or the decimal point, else an operator.
pub open spec fn char_type(c: char) -> CharType {
    if alphabetic(c) {
        CharType::Letter
    } else if numeric(c) || c == '.' {
        CharType::Digit
    } else {
        CharType::Operator
    }
}

/// The kind of a character.
pub fn get_char_type(c: char) -> (r: CharType)
    ensures
        r == char_type(c),
{
    if c.is_alphabetic() {
        CharType::Letter
    } else if c.is_numeric() || c == '.' {
        CharType::Digit
    } else {
        CharType::Operator
    }
}

/// The characters of a text.
pub fn chars_of(text: &str) -> (r: Vec<char>)
    ensures
        r@ == text@,
{
    let mut out: Vec<char> = Vec::new();
    for c in it: text.chars()
        invariant
            out@ == it.seq().take(it.index() as int),
    {
        out.push(c);
    }
    out
}

/// The text with each occurrence of the pattern replaced, the occurrences
/// being found from the left and not overlapping. An empty pattern occurs
/// nowhere.
pub open spec fn replaced(s: Seq<char>, pattern: Seq<char>, with: Seq<char>) -> Seq<char>
    decreases s.len(),
{
    if pattern.len() == 0 || s.len() < pattern.len() {
        s
    } else if s.subrange(0, pattern.len() as int) == pattern {
        with + replaced(s.skip(pattern.len() as int), pattern, with)
    } else {
        seq![s[0]] + replaced(s.skip(1), pattern, with)
    }
}

fn occurs_at(s: &Vec<char>, pattern: &Vec<char>, i: usize) -> (r: bool)
    requires
        i <= s.len(),
    ensures
        r == (i + pattern.len() <= s.len() && s@.subrange(i as int, i + pattern.len())
            == pattern@),
{
    if pattern.len() > s.len() - i {
        return false;
    }
    let mut k: usize = 0;
    while k < pattern.len()
        invariant
            k <= pattern.len(),
            i + pattern.len() <= s.len(),
            forall|j: int| 0 <= j < k ==> s[i + j] == pattern[j],
        decreases pattern.len() - k,
    {
        if s[i + k] != pattern[k] {
            assert(s@.subrange(i as int, i + pattern.len())[k as int] != pattern@[k as int]);
            return false;
        }
        k += 1;
    }
    assert(s@.subrange(i as int, i + pattern.len()) =~= pattern@);
    true
}

/// Replaces each occurrence of the pattern in the text.
pub fn replace_all(s: &Vec<char>, pattern: &Vec<char>, with: &Vec<char>) -> (r: Vec<char>)
    ensures
        r@ == replaced(s@, pattern@, with@),
{
    let mut out: Vec<char> = Vec::new();
    let mut i: usize = 0;
    assert(s@.skip(0) =~= s@);
    while i < s.len()
        invariant
            i <= s.len(),
            out@ + replaced(s@.skip(i as int), pattern@, with@) == replaced(
                s@,
                pattern@,
                with@,
            ),
        decreases s.len() - i,
    {
        let ghost rest = s@.skip(i as int);
        let ghost before = out@;
        if pattern.len() > 0 && occurs_at(s, pattern, i) {
            let mut k: usize = 0;
            while k < with.len()
                invariant
                    k <= with.len(),
                    out@ == before + with@.take(k as int),
                decreases with.len() - k,
            {
                out.push(with[k]);
                assert(with@.take(k + 1) =~= with@.take(k as int).push(with[k as int]));
                k += 1;
            }
            proof {
                assert(with@.take(k as int) =~= with@);
                assert(rest.subrange(0, pattern.len() as int) =~= s@.subrange(
                    i as int,
                    i + pattern.len(),
                ));
                assert(rest.skip(pattern.len() as int) =~= s@.skip(i + pattern.len()));
                assert(out@ + replaced(s@.skip(i + pattern.len()), pattern@, with@) =~= before
                    + replaced(rest, pattern@, with@));
            }
            i += pattern.len();
        } else {
            out.push(s[i]);
            proof {
                assert(rest.skip(1) =~= s@.skip(i + 1));
                if pattern.len() > 0 && rest.len() >= pattern.len() {
                    assert(rest.subrange(0, pattern.len() as int) =~= s@.subrange(
                        i as int,
                        i + pattern.len(),
                    ));
                    assert(replaced(rest, pattern@, with@) == seq![rest[0]] + replaced(
                        rest.skip(1),
                        pattern@,
                        with@,
                    ));
                } else {
                    lemma_short_text_stays(rest, pattern@, with@);
                    lemma_short_text_stays(rest.skip(1), pattern@, with@);
                    assert(rest =~= seq![rest[0]] + rest.skip(1));
                }
                assert(out@ + replaced(s@.skip(i + 1), pattern@, with@) =~= before + replaced(
                    rest,
                    pattern@,
                    with@,
                ));
            }
            i += 1;
        }
    }
    assert(s@.skip(i as int) =~= Seq::<char>::empty());
    assert(out@ + Seq::<char>::empty() =~= out@);
    out
}

proof fn lemma_short_text_stays(s: Seq<char>, pattern: Seq<char>, with: Seq<char>)
    requires
        pattern.len() == 0 || s.len() < pattern.len(),
    ensures
        replaced(s, pattern, with) == s,
{
}

} // verus!

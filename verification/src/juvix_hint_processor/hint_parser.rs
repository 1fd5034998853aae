use crate::felt::{is_digit_of, is_numeral, lemma_numeral_prefix, numeral_value};
use crate::juvix_hint_processor::hint::{Hint, HintView};
use crate::text::chars_of;
use vstd::prelude::*;
use vstd::string::StringExecFns;

verus! {

/// A text that is no hint, with the reason in words.
#[derive(Debug)]
pub struct ParseHintError {
    pub message: String,
}

/// Why a text is no hint.
#[derive(Clone, Copy, Debug, PartialEq, Eq, Structural)]
pub enum ParseFailure {
    /// The text starts with neither `Alloc` nor `Input`.
    UnknownHint,
    /// No `(` follows the name of the hint.
    ExpectedOpen,
    /// No digit stands where the size is expected.
    ExpectedNumber,
    /// The size is too large for the machine.
    NumberTooLarge,
    /// No `"` stands where the name is expected.
    ExpectedQuote,
    /// The text ends inside the name.
    UnterminatedString,
    /// A `\` in the name is followed by something other than `\` or `"`.
    InvalidEscape,
    /// No `)` follows the argument.
    ExpectedClose,
    /// Something other than white space follows the `)`.
    TrailingCharacters,
}

/// White space: a blank, a tab, a line feed or a carriage return.
pub open spec fn is_space(c: char) -> bool {
    c == ' ' || c == '\t' || c == '\n' || c == '\r'
}

/// A text without the white space that it starts with.
pub open spec fn trim(s: Seq<char>) -> Seq<char>
    decreases s.len(),
{
    if s.len() > 0 && is_space(s[0]) {
        trim(s.skip(1))
    } else {
        s
    }
}

/// The word `Alloc`.
pub open spec fn alloc_word() -> Seq<char> {
    seq!['A', 'l', 'l', 'o', 'c']
}

/// The word `Input`.
pub open spec fn input_word() -> Seq<char> {
    seq!['I', 'n', 'p', 'u', 't']
}

/// The number of decimal digits that a text starts with.
pub open spec fn digits_len(s: Seq<char>) -> nat
    decreases s.len(),
{
    if s.len() > 0 && is_digit_of(s[0], 10) {
        1 + digits_len(s.skip(1))
    } else {
        0
    }
}

/// What follows the argument of a hint: white space, `)`, white space, and
/// the end of the text.
pub open spec fn parse_end(s: Seq<char>, hint: HintView) -> Result<HintView, ParseFailure> {
    let s1 = trim(s);
    if !(s1.len() > 0 && s1[0] == ')') {
        Err(ParseFailure::ExpectedClose)
    } else if trim(s1.skip(1)).len() != 0 {
        Err(ParseFailure::TrailingCharacters)
    } else {
        Ok(hint)
    }
}

/// What follows the word `Alloc`: `(`, a size in decimal digits that the
/// machine can hold, and `)`, with white space between them at will.
pub open spec fn parse_alloc(s: Seq<char>) -> Result<HintView, ParseFailure> {
    let s1 = trim(s);
    if !(s1.len() > 0 && s1[0] == '(') {
        Err(ParseFailure::ExpectedOpen)
    } else {
        let s2 = trim(s1.skip(1));
        let k = digits_len(s2) as int;
        if k == 0 {
            Err(ParseFailure::ExpectedNumber)
        } else if numeral_value(s2.take(k), 10) > usize::MAX {
            Err(ParseFailure::NumberTooLarge)
        } else {
            parse_end(s2.skip(k), HintView::Alloc(numeral_value(s2.take(k), 10)))
        }
    }
}

/// The name that a quoted string writes and what follows the string, for a
/// text that starts after the opening `"`. In the string `\\` writes `\`
/// and `\"` writes `"`; any other character but these two writes itself.
pub open spec fn parse_quoted(s: Seq<char>) -> Result<(Seq<char>, Seq<char>), ParseFailure>
    decreases s.len(),
{
    if s.len() == 0 {
        Err(ParseFailure::UnterminatedString)
    } else if s[0] == '"' {
        Ok((Seq::empty(), s.skip(1)))
    } else if s[0] == '\\' {
        if s.len() > 1 && (s[1] == '\\' || s[1] == '"') {
            with_first(s[1], parse_quoted(s.skip(2)))
        } else if s.len() > 1 {
            Err(ParseFailure::InvalidEscape)
        } else {
            Err(ParseFailure::UnterminatedString)
        }
    } else {
        with_first(s[0], parse_quoted(s.skip(1)))
    }
}

/// The result of reading a string, with one more character before the name.
pub open spec fn with_first(
    c: char,
    r: Result<(Seq<char>, Seq<char>), ParseFailure>,
) -> Result<(Seq<char>, Seq<char>), ParseFailure> {
    match r {
        Ok((name, rest)) => Ok((seq![c] + name, rest)),
        Err(e) => Err(e),
    }
}

/// What follows the word `Input`: `(`, a name in double quotes, and `)`,
/// with white space between them at will.
pub open spec fn parse_input(s: Seq<char>) -> Result<HintView, ParseFailure> {
    let s1 = trim(s);
    if !(s1.len() > 0 && s1[0] == '(') {
        Err(ParseFailure::ExpectedOpen)
    } else {
        let s2 = trim(s1.skip(1));
        if !(s2.len() > 0 && s2[0] == '"') {
            Err(ParseFailure::ExpectedQuote)
        } else {
            match parse_quoted(s2.skip(1)) {
                Ok((name, rest)) => parse_end(rest, HintView::Input(name)),
                Err(e) => Err(e),
            }
        }
    }
}

/// The hint that a text writes: white space, `Alloc` or `Input` with its
/// argument in round brackets, white space, and nothing more.
pub open spec fn parse_text(s: Seq<char>) -> Result<HintView, ParseFailure> {
    let s0 = trim(s);
    if alloc_word().is_prefix_of(s0) {
        parse_alloc(s0.skip(5))
    } else if input_word().is_prefix_of(s0) {
        parse_input(s0.skip(5))
    } else {
        Err(ParseFailure::UnknownHint)
    }
}

/// What the message of a failure starts with.
pub open spec fn message_prefix() -> Seq<char> {
    "Error parsing hint "@
}

/// A failure in words.
pub open spec fn describe(failure: ParseFailure) -> Seq<char> {
    match failure {
        ParseFailure::UnknownHint => "expected Alloc or Input"@,
        ParseFailure::ExpectedOpen => "expected ( after the name of the hint"@,
        ParseFailure::ExpectedNumber => "expected a size in decimal digits"@,
        ParseFailure::NumberTooLarge => "the size is too large"@,
        ParseFailure::ExpectedQuote => "expected a name in double quotes"@,
        ParseFailure::UnterminatedString => "the name is not closed"@,
        ParseFailure::InvalidEscape => "a backslash in the name escapes nothing"@,
        ParseFailure::ExpectedClose => "expected ) after the argument"@,
        ParseFailure::TrailingCharacters => "unexpected characters after the hint"@,
    }
}

/// The message for a text that is no hint: the prefix, the text, a colon and
/// the failure in words.
pub open spec fn error_message(text: Seq<char>, failure: ParseFailure) -> Seq<char> {
    message_prefix() + text + ": "@ + describe(failure)
}

/// Every message starts with the prefix.
pub proof fn lemma_message_prefix(text: Seq<char>, failure: ParseFailure)
    ensures
        message_prefix().is_prefix_of(error_message(text, failure)),
{
    assert(error_message(text, failure).subrange(0, message_prefix().len() as int)
        =~= message_prefix());
}

/// `String::push`: one more character at the end.
pub assume_specification[ std::string::String::push ](s: &mut std::string::String, c: char)
    ensures
        final(s)@ == old(s)@.push(c),
;

/// A text starts with no more digits than it has characters.
pub proof fn lemma_digits_len_bound(s: Seq<char>)
    ensures
        digits_len(s) <= s.len(),
    decreases s.len(),
{
    if s.len() > 0 && is_digit_of(s[0], 10) {
        lemma_digits_len_bound(s.skip(1));
    }
}

/// A run of digits is counted digit by digit.
pub proof fn lemma_digits_len(s: Seq<char>, m: int)
    requires
        0 <= m <= s.len(),
        forall|k: int| 0 <= k < m ==> is_digit_of(#[trigger] s[k], 10),
    ensures
        digits_len(s) == m + digits_len(s.skip(m)),
    decreases m,
{
    if m == 0 {
        assert(s.skip(0) == s);
    } else {
        let rest = s.skip(1);
        assert forall|k: int| 0 <= k < m - 1 implies is_digit_of(#[trigger] rest[k], 10) by {
            assert(rest[k] == s[k + 1]);
        }
        lemma_digits_len(rest, m - 1);
        assert(rest.skip(m - 1) == s.skip(m));
    }
}

fn is_space_char(c: char) -> (r: bool)
    ensures
        r == is_space(c),
{
    c == ' ' || c == '\t' || c == '\n' || c == '\r'
}

/// The place of the first character from `i` on that is no white space.
fn skip_spaces(chars: &Vec<char>, i: usize) -> (j: usize)
    requires
        i <= chars.len(),
    ensures
        i <= j <= chars.len(),
        chars@.skip(j as int) == trim(chars@.skip(i as int)),
{
    let mut j = i;
    while j < chars.len() && is_space_char(chars[j])
        invariant
            i <= j <= chars.len(),
            trim(chars@.skip(j as int)) == trim(chars@.skip(i as int)),
        decreases chars.len() - j,
    {
        proof {
            assert(chars@.skip(j as int).skip(1) == chars@.skip(j + 1));
        }
        j += 1;
    }
    j
}

/// Whether the word `Alloc` stands at `i`.
fn at_alloc(chars: &Vec<char>, i: usize) -> (r: bool)
    requires
        i <= chars.len(),
    ensures
        r == alloc_word().is_prefix_of(chars@.skip(i as int)),
{
    let found = chars.len() - i >= 5 && chars[i] == 'A' && chars[i + 1] == 'l' && chars[i + 2]
        == 'l' && chars[i + 3] == 'o' && chars[i + 4] == 'c';
    proof {
        let s = chars@.skip(i as int);
        if found {
            assert(alloc_word() =~= s.subrange(0, 5));
        } else if s.len() >= 5 {
            let w = s.subrange(0, 5);
            assert(w[0] == s[0] && w[1] == s[1] && w[2] == s[2] && w[3] == s[3] && w[4] == s[4]);
        }
    }
    found
}

/// Whether the word `Input` stands at `i`.
fn at_input(chars: &Vec<char>, i: usize) -> (r: bool)
    requires
        i <= chars.len(),
    ensures
        r == input_word().is_prefix_of(chars@.skip(i as int)),
{
    let found = chars.len() - i >= 5 && chars[i] == 'I' && chars[i + 1] == 'n' && chars[i + 2]
        == 'p' && chars[i + 3] == 'u' && chars[i + 4] == 't';
    proof {
        let s = chars@.skip(i as int);
        if found {
            assert(input_word() =~= s.subrange(0, 5));
        } else if s.len() >= 5 {
            let w = s.subrange(0, 5);
            assert(w[0] == s[0] && w[1] == s[1] && w[2] == s[2] && w[3] == s[3] && w[4] == s[4]);
        }
    }
    found
}

/// Reads the size that starts at `i`: the number and the place after it.
fn read_size(chars: &Vec<char>, i: usize) -> (r: Result<(usize, usize), ParseFailure>)
    requires
        i <= chars.len(),
    ensures
        ({
            let s = chars@.skip(i as int);
            let k = digits_len(s) as int;
            match r {
                Ok((n, j)) => k > 0 && j == i + k && j <= chars.len() && n == numeral_value(
                    s.take(k),
                    10,
                ),
                Err(ParseFailure::ExpectedNumber) => k == 0,
                Err(ParseFailure::NumberTooLarge) => k > 0 && numeral_value(s.take(k), 10)
                    > usize::MAX,
                Err(_) => false,
            }
        }),
{
    let ghost s = chars@.skip(i as int);
    let mut n: usize = 0;
    let mut j = i;
    while j < chars.len() && '0' <= chars[j] && chars[j] <= '9'
        invariant
            i <= j <= chars.len(),
            s == chars@.skip(i as int),
            forall|k: int| 0 <= k < j - i ==> is_digit_of(#[trigger] s[k], 10),
            n == numeral_value(s.take(j - i), 10),
        decreases chars.len() - j,
    {
        let d = (chars[j] as u32 - '0' as u32) as usize;
        let ghost m = j - i;
        proof {
            assert(s[m] == chars[j as int]);
            assert(is_digit_of(s[m], 10));
            assert(s.take(m + 1).drop_last() == s.take(m));
            assert(s.take(m + 1).last() == s[m]);
        }
        let next = match n.checked_mul(10) {
            Some(t) => t.checked_add(d),
            None => None,
        };
        match next {
            Some(v) => {
                n = v;
            },
            None => {
                proof {
                    lemma_digits_len(s, m + 1);
                    lemma_digits_len_bound(s);
                    let k = digits_len(s) as int;
                    assert(s.take(k).take(m + 1) == s.take(m + 1));
                    lemma_numeral_prefix(s.take(k), m + 1, 10);
                }
                return Err(ParseFailure::NumberTooLarge);
            },
        }
        j += 1;
    }
    proof {
        lemma_digits_len(s, j - i);
        if j < chars.len() {
            assert(s.skip(j - i)[0] == chars[j as int]);
        }
    }
    if j == i {
        Err(ParseFailure::ExpectedNumber)
    } else {
        Ok((n, j))
    }
}

/// Reads the quoted string whose opening `"` stands before `i`: the name
/// that it writes and the place after its closing `"`.
fn read_quoted(chars: &Vec<char>, i: usize) -> (r: Result<(String, usize), ParseFailure>)
    requires
        i <= chars.len(),
    ensures
        match r {
            Ok((name, j)) => j <= chars.len() && parse_quoted(chars@.skip(i as int)) == Ok::<
                (Seq<char>, Seq<char>),
                ParseFailure,
            >((name@, chars@.skip(j as int))),
            Err(e) => parse_quoted(chars@.skip(i as int)) == Err::<
                (Seq<char>, Seq<char>),
                ParseFailure,
            >(e),
        },
{
    let mut name = String::new();
    let mut j = i;
    while j < chars.len()
        invariant
            i <= j <= chars.len(),
            parse_quoted(chars@.skip(i as int)) == with_name(
                name@,
                parse_quoted(chars@.skip(j as int)),
            ),
        decreases chars.len() - j,
    {
        let ghost here = chars@.skip(j as int);
        let ghost before = name@;
        let c = chars[j];
        proof {
            assert(here[0] == c);
            assert(here.skip(1) == chars@.skip(j + 1));
        }
        if c == '"' {
            proof {
                assert(before + Seq::<char>::empty() == before);
            }
            return Ok((name, j + 1));
        } else if c == '\\' {
            if j + 1 < chars.len() {
                let e = chars[j + 1];
                proof {
                    assert(here[1] == e);
                    assert(here.skip(2) == chars@.skip(j + 2));
                }
                if e == '\\' || e == '"' {
                    name.push(e);
                    proof {
                        lemma_with_name(before, e, parse_quoted(chars@.skip(j + 2)));
                    }
                    j += 2;
                } else {
                    return Err(ParseFailure::InvalidEscape);
                }
            } else {
                return Err(ParseFailure::UnterminatedString);
            }
        } else {
            name.push(c);
            proof {
                lemma_with_name(before, c, parse_quoted(chars@.skip(j + 1)));
            }
            j += 1;
        }
    }
    Err(ParseFailure::UnterminatedString)
}

/// The result of reading a string, with more characters before the name.
pub open spec fn with_name(
    start: Seq<char>,
    r: Result<(Seq<char>, Seq<char>), ParseFailure>,
) -> Result<(Seq<char>, Seq<char>), ParseFailure> {
    match r {
        Ok((name, rest)) => Ok((start + name, rest)),
        Err(e) => Err(e),
    }
}

/// Characters before the name may be put there one by one.
pub proof fn lemma_with_name(
    start: Seq<char>,
    c: char,
    r: Result<(Seq<char>, Seq<char>), ParseFailure>,
)
    ensures
        with_name(start, with_first(c, r)) == with_name(start.push(c), r),
{
    match r {
        Ok((name, rest)) => {
            assert(start + (seq![c] + name) == start.push(c) + name);
        },
        Err(_) => {},
    }
}

/// Reads what follows the argument of a hint, from `i` on.
fn read_end(chars: &Vec<char>, i: usize, hint: Hint) -> (r: Result<Hint, ParseFailure>)
    requires
        i <= chars.len(),
    ensures
        match r {
            Ok(h) => parse_end(chars@.skip(i as int), hint@) == Ok::<HintView, ParseFailure>(h@),
            Err(e) => parse_end(chars@.skip(i as int), hint@) == Err::<HintView, ParseFailure>(e),
        },
{
    let j = skip_spaces(chars, i);
    if !(j < chars.len() && chars[j] == ')') {
        proof {
            if j < chars.len() {
                assert(chars@.skip(j as int)[0] == chars[j as int]);
            }
        }
        return Err(ParseFailure::ExpectedClose);
    }
    proof {
        assert(chars@.skip(j as int)[0] == chars[j as int]);
        assert(chars@.skip(j as int).skip(1) == chars@.skip(j + 1));
    }
    let k = skip_spaces(chars, j + 1);
    if k != chars.len() {
        Err(ParseFailure::TrailingCharacters)
    } else {
        Ok(hint)
    }
}

/// Reads the `(` that follows the name of a hint, from `i` on, and the white
/// space after it: the place of the argument.
fn read_open(chars: &Vec<char>, i: usize) -> (r: Option<usize>)
    requires
        i <= chars.len(),
    ensures
        ({
            let s1 = trim(chars@.skip(i as int));
            match r {
                Some(j) => j <= chars.len() && s1.len() > 0 && s1[0] == '(' && chars@.skip(
                    j as int,
                ) == trim(s1.skip(1)),
                None => !(s1.len() > 0 && s1[0] == '('),
            }
        }),
{
    let j = skip_spaces(chars, i);
    if !(j < chars.len() && chars[j] == '(') {
        proof {
            if j < chars.len() {
                assert(chars@.skip(j as int)[0] == chars[j as int]);
            }
        }
        return None;
    }
    proof {
        assert(chars@.skip(j as int)[0] == chars[j as int]);
        assert(chars@.skip(j as int).skip(1) == chars@.skip(j + 1));
    }
    Some(skip_spaces(chars, j + 1))
}

/// Reads a hint from its characters.
fn read_hint(chars: &Vec<char>) -> (r: Result<Hint, ParseFailure>)
    ensures
        match r {
            Ok(h) => parse_text(chars@) == Ok::<HintView, ParseFailure>(h@),
            Err(e) => parse_text(chars@) == Err::<HintView, ParseFailure>(e),
        },
{
    proof {
        assert(chars@.skip(0) == chars@);
    }
    let start = skip_spaces(chars, 0);
    let ghost s0 = chars@.skip(start as int);
    if at_alloc(chars, start) {
        proof {
            assert(s0.skip(5) == chars@.skip(start + 5));
        }
        let at = match read_open(chars, start + 5) {
            Some(j) => j,
            None => {
                return Err(ParseFailure::ExpectedOpen);
            },
        };
        let ghost s2 = chars@.skip(at as int);
        match read_size(chars, at) {
            Ok((n, j)) => {
                proof {
                    assert(s2.skip(j - at) == chars@.skip(j as int));
                }
                read_end(chars, j, Hint::Alloc(n))
            },
            Err(e) => Err(e),
        }
    } else if at_input(chars, start) {
        proof {
            assert(s0.skip(5) == chars@.skip(start + 5));
        }
        let at = match read_open(chars, start + 5) {
            Some(j) => j,
            None => {
                return Err(ParseFailure::ExpectedOpen);
            },
        };
        if !(at < chars.len() && chars[at] == '"') {
            proof {
                if at < chars.len() {
                    assert(chars@.skip(at as int)[0] == chars[at as int]);
                }
            }
            return Err(ParseFailure::ExpectedQuote);
        }
        proof {
            assert(chars@.skip(at as int)[0] == chars[at as int]);
            assert(chars@.skip(at as int).skip(1) == chars@.skip(at + 1));
        }
        match read_quoted(chars, at + 1) {
            Ok((name, j)) => read_end(chars, j, Hint::Input(name)),
            Err(e) => Err(e),
        }
    } else {
        Err(ParseFailure::UnknownHint)
    }
}

/// A failure in words.
fn description(failure: ParseFailure) -> (r: &'static str)
    ensures
        r@ == describe(failure),
{
    match failure {
        ParseFailure::UnknownHint => "expected Alloc or Input",
        ParseFailure::ExpectedOpen => "expected ( after the name of the hint",
        ParseFailure::ExpectedNumber => "expected a size in decimal digits",
        ParseFailure::NumberTooLarge => "the size is too large",
        ParseFailure::ExpectedQuote => "expected a name in double quotes",
        ParseFailure::UnterminatedString => "the name is not closed",
        ParseFailure::InvalidEscape => "a backslash in the name escapes nothing",
        ParseFailure::ExpectedClose => "expected ) after the argument",
        ParseFailure::TrailingCharacters => "unexpected characters after the hint",
    }
}

/// Reads a hint from a text. A text that is no hint gives a message that
/// starts with `Error parsing hint`, goes on with the text and ends with the
/// failure in words.
pub fn parse_hint(input: &str) -> (r: Result<Hint, ParseHintError>)
    ensures
        match r {
            Ok(h) => parse_text(input@) == Ok::<HintView, ParseFailure>(h@),
            Err(e) => parse_text(input@) matches Err(failure) && e.message@ == error_message(
                input@,
                failure,
            ) && message_prefix().is_prefix_of(e.message@),
        },
{
    let chars = chars_of(input);
    match read_hint(&chars) {
        Ok(h) => Ok(h),
        Err(failure) => {
            let mut message = String::from_str("Error parsing hint ");
            message.append(input);
            message.append(": ");
            message.append(description(failure));
            proof {
                lemma_message_prefix(input@, failure);
            }
            Err(ParseHintError { message })
        },
    }
}

impl core::str::FromStr for Hint {
    type Err = ParseHintError;

    fn from_str(input: &str) -> (r: Result<Self, Self::Err>)
        ensures
            match r {
                Ok(h) => parse_text(input@) == Ok::<HintView, ParseFailure>(h@),
                Err(e) => parse_text(input@) matches Err(failure) && e.message@ == error_message(
                    input@,
                    failure,
                ),
            },
    {
        parse_hint(input)
    }
}

/// Whether a text is white space only.
pub open spec fn is_spaces(w: Seq<char>) -> bool {
    forall|i: int| 0 <= i < w.len() ==> is_space(#[trigger] w[i])
}

/// A name as a quoted string writes it, without the quotes: `\` before each
/// `\` and each `"`.
pub open spec fn escape(name: Seq<char>) -> Seq<char>
    decreases name.len(),
{
    if name.len() == 0 {
        Seq::empty()
    } else if name[0] == '"' || name[0] == '\\' {
        seq!['\\', name[0]] + escape(name.skip(1))
    } else {
        seq![name[0]] + escape(name.skip(1))
    }
}

/// A rendering of `Alloc` with a size in decimal digits, with white space at
/// will before and after each of its parts.
pub open spec fn alloc_text(
    w0: Seq<char>,
    w1: Seq<char>,
    w2: Seq<char>,
    digits: Seq<char>,
    w3: Seq<char>,
    w4: Seq<char>,
) -> Seq<char> {
    w0 + (alloc_word() + (w1 + (seq!['('] + (w2 + (digits + (w3 + (seq![')'] + w4)))))))
}

/// A rendering of `Input` with a name, with white space at will before and
/// after each of its parts.
pub open spec fn input_text(
    w0: Seq<char>,
    w1: Seq<char>,
    w2: Seq<char>,
    name: Seq<char>,
    w3: Seq<char>,
    w4: Seq<char>,
) -> Seq<char> {
    w0 + (input_word() + (w1 + (seq!['('] + (w2 + (seq!['"'] + (escape(name) + (seq!['"'] + (w3
        + (seq![')'] + w4)))))))))
}

/// White space before a text that starts with something else is all that
/// trimming takes away.
pub proof fn lemma_trim(w: Seq<char>, rest: Seq<char>)
    requires
        is_spaces(w),
        rest.len() == 0 || !is_space(rest[0]),
    ensures
        trim(w + rest) == rest,
    decreases w.len(),
{
    if w.len() == 0 {
        assert(w + rest == rest);
    } else {
        assert((w + rest)[0] == w[0]);
        assert((w + rest).skip(1) == w.skip(1) + rest);
        assert forall|i: int| 0 <= i < w.skip(1).len() implies is_space(#[trigger] w.skip(1)[i]) by {
            assert(w.skip(1)[i] == w[i + 1]);
        }
        lemma_trim(w.skip(1), rest);
    }
}

/// A numeral before a text that starts with no digit is the run of digits
/// that the whole starts with.
pub proof fn lemma_digits_run(digits: Seq<char>, rest: Seq<char>)
    requires
        forall|i: int| 0 <= i < digits.len() ==> is_digit_of(#[trigger] digits[i], 10),
        rest.len() == 0 || !is_digit_of(rest[0], 10),
    ensures
        digits_len(digits + rest) == digits.len(),
{
    let s = digits + rest;
    assert forall|k: int| 0 <= k < digits.len() implies is_digit_of(#[trigger] s[k], 10) by {
        assert(s[k] == digits[k]);
    }
    lemma_digits_len(s, digits.len() as int);
    assert(s.skip(digits.len() as int) == rest);
}

/// A quoted string writes the name that was escaped into it.
pub proof fn lemma_parse_quoted(name: Seq<char>, rest: Seq<char>)
    ensures
        parse_quoted(escape(name) + (seq!['"'] + rest)) == Ok::<
            (Seq<char>, Seq<char>),
            ParseFailure,
        >((name, rest)),
    decreases name.len(),
{
    let s = escape(name) + (seq!['"'] + rest);
    if name.len() == 0 {
        assert(s == seq!['"'] + rest);
        assert(s[0] == '"');
        assert(s.skip(1) == rest);
        assert(name == Seq::<char>::empty());
    } else {
        let tail = escape(name.skip(1)) + (seq!['"'] + rest);
        lemma_parse_quoted(name.skip(1), rest);
        if name[0] == '"' || name[0] == '\\' {
            assert(s == seq!['\\', name[0]] + tail);
            assert(s[0] == '\\');
            assert(s[1] == name[0]);
            assert(s.skip(2) == tail);
        } else {
            assert(s == seq![name[0]] + tail);
            assert(s[0] == name[0]);
            assert(s.skip(1) == tail);
        }
        assert(seq![name[0]] + name.skip(1) == name);
    }
}

/// What follows the argument of a hint is read whatever white space stands
/// around the `)`.
pub proof fn lemma_parse_end(w3: Seq<char>, w4: Seq<char>, hint: HintView)
    requires
        is_spaces(w3),
        is_spaces(w4),
    ensures
        parse_end(w3 + (seq![')'] + w4), hint) == Ok::<HintView, ParseFailure>(hint),
{
    let t5 = seq![')'] + w4;
    assert(t5[0] == ')');
    lemma_trim(w3, t5);
    assert(t5.skip(1) == w4);
    lemma_trim(w4, Seq::empty());
    assert(w4 + Seq::<char>::empty() == w4);
}

/// Every rendering of `Alloc` with a size that the machine can hold, with
/// white space at will, reads as the allocation of that size.
pub proof fn lemma_parse_alloc_text(
    w0: Seq<char>,
    w1: Seq<char>,
    w2: Seq<char>,
    digits: Seq<char>,
    w3: Seq<char>,
    w4: Seq<char>,
)
    requires
        is_spaces(w0),
        is_spaces(w1),
        is_spaces(w2),
        is_spaces(w3),
        is_spaces(w4),
        is_numeral(digits, 10),
        numeral_value(digits, 10) <= usize::MAX,
    ensures
        parse_text(alloc_text(w0, w1, w2, digits, w3, w4)) == Ok::<HintView, ParseFailure>(
            HintView::Alloc(numeral_value(digits, 10)),
        ),
{
    let hint = HintView::Alloc(numeral_value(digits, 10));
    let t4 = w3 + (seq![')'] + w4);
    let t3 = digits + t4;
    let t2 = w2 + t3;
    let t1 = seq!['('] + t2;
    let t0 = w1 + t1;
    let x = alloc_word() + t0;
    assert(x[0] == 'A');
    lemma_trim(w0, x);
    assert(x.subrange(0, 5) == alloc_word());
    assert(x.skip(5) == t0);
    assert(t1[0] == '(');
    lemma_trim(w1, t1);
    assert(t1.skip(1) == t2);
    assert(t3[0] == digits[0]);
    assert(is_digit_of(digits[0], 10));
    lemma_trim(w2, t3);
    assert(t4[0] == if w3.len() > 0 {
        w3[0]
    } else {
        ')'
    });
    lemma_digits_run(digits, t4);
    assert(t3.take(digits.len() as int) == digits);
    assert(t3.skip(digits.len() as int) == t4);
    lemma_parse_end(w3, w4, hint);
}

/// Every rendering of `Input` with a name, with white space at will, reads
/// as the hint for the input of that name.
pub proof fn lemma_parse_input_text(
    w0: Seq<char>,
    w1: Seq<char>,
    w2: Seq<char>,
    name: Seq<char>,
    w3: Seq<char>,
    w4: Seq<char>,
)
    requires
        is_spaces(w0),
        is_spaces(w1),
        is_spaces(w2),
        is_spaces(w3),
        is_spaces(w4),
    ensures
        parse_text(input_text(w0, w1, w2, name, w3, w4)) == Ok::<HintView, ParseFailure>(
            HintView::Input(name),
        ),
{
    let hint = HintView::Input(name);
    let t4 = w3 + (seq![')'] + w4);
    let t3 = escape(name) + (seq!['"'] + t4);
    let t2 = seq!['"'] + t3;
    let t1 = w2 + t2;
    let t0 = seq!['('] + t1;
    let y = w1 + t0;
    let x = input_word() + y;
    assert(x[0] == 'I');
    lemma_trim(w0, x);
    assert(x.subrange(0, 5) == input_word());
    assert(!alloc_word().is_prefix_of(x)) by {
        assert(x.subrange(0, 5)[0] == 'I');
    }
    assert(x.skip(5) == y);
    assert(t0[0] == '(');
    lemma_trim(w1, t0);
    assert(t0.skip(1) == t1);
    assert(t2[0] == '"');
    lemma_trim(w2, t2);
    assert(t2.skip(1) == t3);
    lemma_parse_quoted(name, t4);
    lemma_parse_end(w3, w4, hint);
}

/// Trimming a text with more text after it trims the text, or all of it and
/// then what comes after.
pub proof fn lemma_trim_append(s: Seq<char>, t: Seq<char>)
    ensures
        trim(s + t) == if trim(s).len() > 0 {
            trim(s) + t
        } else {
            trim(t)
        },
    decreases s.len(),
{
    if s.len() == 0 {
        assert(s + t == t);
    } else {
        assert((s + t)[0] == s[0]);
        if is_space(s[0]) {
            assert((s + t).skip(1) == s.skip(1) + t);
            lemma_trim_append(s.skip(1), t);
        }
    }
}

/// A text that is not white space only is not trimmed away.
pub proof fn lemma_trim_keeps(t: Seq<char>)
    requires
        !is_spaces(t),
    ensures
        trim(t).len() > 0,
    decreases t.len(),
{
    let i = choose|i: int| 0 <= i < t.len() && !is_space(#[trigger] t[i]);
    if is_space(t[0]) {
        assert(t.skip(1)[i - 1] == t[i]);
        lemma_trim_keeps(t.skip(1));
    }
}

/// A run of digits that ends inside a text is the same run with more text
/// after it.
pub proof fn lemma_digits_len_append(u: Seq<char>, t: Seq<char>)
    requires
        digits_len(u) < u.len(),
    ensures
        digits_len(u + t) == digits_len(u),
    decreases u.len(),
{
    assert((u + t)[0] == u[0]);
    if is_digit_of(u[0], 10) {
        assert((u + t).skip(1) == u.skip(1) + t);
        lemma_digits_len_append(u.skip(1), t);
    }
}

/// A quoted string that is closed is read the same with more text after it.
pub proof fn lemma_parse_quoted_append(u: Seq<char>, t: Seq<char>)
    requires
        parse_quoted(u) is Ok,
    ensures
        parse_quoted(u + t) == Ok::<(Seq<char>, Seq<char>), ParseFailure>(
            (parse_quoted(u)->Ok_0.0, parse_quoted(u)->Ok_0.1 + t),
        ),
    decreases u.len(),
{
    assert((u + t)[0] == u[0]);
    if u[0] == '"' {
        assert((u + t).skip(1) == u.skip(1) + t);
    } else if u[0] == '\\' {
        assert((u + t)[1] == u[1]);
        assert((u + t).skip(2) == u.skip(2) + t);
        lemma_parse_quoted_append(u.skip(2), t);
    } else {
        assert((u + t).skip(1) == u.skip(1) + t);
        lemma_parse_quoted_append(u.skip(1), t);
    }
}

/// More text after the `)` of a hint is refused.
pub proof fn lemma_parse_end_append(u: Seq<char>, t: Seq<char>, hint: HintView)
    requires
        parse_end(u, hint) is Ok,
        !is_spaces(t),
    ensures
        parse_end(u + t, hint) == Err::<HintView, ParseFailure>(ParseFailure::TrailingCharacters),
{
    let v = trim(u);
    lemma_trim_append(u, t);
    assert((v + t)[0] == v[0]);
    assert((v + t).skip(1) == v.skip(1) + t);
    lemma_trim_append(v.skip(1), t);
    lemma_trim_keeps(t);
}

/// A text that is a hint is none with anything but white space after it.
pub proof fn lemma_trailing_characters(s: Seq<char>, t: Seq<char>)
    requires
        parse_text(s) is Ok,
        !is_spaces(t),
    ensures
        parse_text(s + t) == Err::<HintView, ParseFailure>(ParseFailure::TrailingCharacters),
{
    let s0 = trim(s);
    lemma_trim_append(s, t);
    assert((s0 + t).subrange(0, 5) == s0.subrange(0, 5));
    assert((s0 + t).skip(5) == s0.skip(5) + t);
    let u = s0.skip(5);
    let u1 = trim(u);
    lemma_trim_append(u, t);
    assert((u1 + t)[0] == u1[0]);
    assert((u1 + t).skip(1) == u1.skip(1) + t);
    let u2 = trim(u1.skip(1));
    lemma_trim_append(u1.skip(1), t);
    if alloc_word().is_prefix_of(s0) {
        let k = digits_len(u2) as int;
        lemma_digits_len_bound(u2);
        assert(k < u2.len()) by {
            if k == u2.len() {
                assert(u2.skip(k).len() == 0);
            }
        }
        lemma_digits_len_append(u2, t);
        assert((u2 + t).take(k) == u2.take(k));
        assert((u2 + t).skip(k) == u2.skip(k) + t);
        lemma_parse_end_append(u2.skip(k), t, HintView::Alloc(numeral_value(u2.take(k), 10)));
    } else {
        assert((u2 + t)[0] == u2[0]);
        assert((u2 + t).skip(1) == u2.skip(1) + t);
        lemma_parse_quoted_append(u2.skip(1), t);
        let read = parse_quoted(u2.skip(1))->Ok_0;
        lemma_parse_end_append(read.1, t, HintView::Input(read.0));
    }
}

/// A size with a sign before it is refused, whatever follows.
pub proof fn lemma_negative_size(w0: Seq<char>, w1: Seq<char>, w2: Seq<char>, rest: Seq<char>)
    requires
        is_spaces(w0),
        is_spaces(w1),
        is_spaces(w2),
    ensures
        parse_text(w0 + (alloc_word() + (w1 + (seq!['('] + (w2 + (seq!['-'] + rest)))))) == Err::<
            HintView,
            ParseFailure,
        >(ParseFailure::ExpectedNumber),
{
    let t3 = seq!['-'] + rest;
    let t2 = w2 + t3;
    let t1 = seq!['('] + t2;
    let t0 = w1 + t1;
    let x = alloc_word() + t0;
    assert(x[0] == 'A');
    lemma_trim(w0, x);
    assert(x.subrange(0, 5) == alloc_word());
    assert(x.skip(5) == t0);
    assert(t1[0] == '(');
    lemma_trim(w1, t1);
    assert(t1.skip(1) == t2);
    assert(t3[0] == '-');
    lemma_trim(w2, t3);
}

/// A name that is escaped but not closed is an unterminated string.
pub proof fn lemma_parse_quoted_open(name: Seq<char>)
    ensures
        parse_quoted(escape(name)) == Err::<(Seq<char>, Seq<char>), ParseFailure>(
            ParseFailure::UnterminatedString,
        ),
    decreases name.len(),
{
    let s = escape(name);
    if name.len() > 0 {
        let tail = escape(name.skip(1));
        lemma_parse_quoted_open(name.skip(1));
        if name[0] == '"' || name[0] == '\\' {
            assert(s[0] == '\\');
            assert(s[1] == name[0]);
            assert(s.skip(2) == tail);
        } else {
            assert(s[0] == name[0]);
            assert(s.skip(1) == tail);
        }
    }
}

/// A text that ends inside the name of an input is refused.
pub proof fn lemma_unterminated_name(
    w0: Seq<char>,
    w1: Seq<char>,
    w2: Seq<char>,
    name: Seq<char>,
)
    requires
        is_spaces(w0),
        is_spaces(w1),
        is_spaces(w2),
    ensures
        parse_text(w0 + (input_word() + (w1 + (seq!['('] + (w2 + (seq!['"'] + escape(name)))))))
            == Err::<HintView, ParseFailure>(ParseFailure::UnterminatedString),
{
    let t3 = escape(name);
    let t2 = seq!['"'] + t3;
    let t1 = w2 + t2;
    let t0 = seq!['('] + t1;
    let y = w1 + t0;
    let x = input_word() + y;
    assert(x[0] == 'I');
    lemma_trim(w0, x);
    assert(x.subrange(0, 5) == input_word());
    assert(!alloc_word().is_prefix_of(x)) by {
        assert(x.subrange(0, 5)[0] == 'I');
    }
    assert(x.skip(5) == y);
    assert(t0[0] == '(');
    lemma_trim(w1, t0);
    assert(t0.skip(1) == t1);
    assert(t2[0] == '"');
    lemma_trim(w2, t2);
    assert(t2.skip(1) == t3);
    lemma_parse_quoted_open(name);
}

/// A text that starts, after white space, with neither `Alloc` nor `Input`
/// is refused as an unknown hint.
pub proof fn lemma_unknown_hint(s: Seq<char>)
    requires
        !alloc_word().is_prefix_of(trim(s)),
        !input_word().is_prefix_of(trim(s)),
    ensures
        parse_text(s) == Err::<HintView, ParseFailure>(ParseFailure::UnknownHint),
{
}

/// The white space that a text starts with.
pub open spec fn leading(s: Seq<char>) -> Seq<char> {
    s.take(s.len() - trim(s).len())
}

/// A text is the white space that it starts with and then the rest.
pub proof fn lemma_trim_split(s: Seq<char>)
    ensures
        trim(s).len() <= s.len(),
        is_spaces(leading(s)),
        s == leading(s) + trim(s),
    decreases s.len(),
{
    if s.len() > 0 && is_space(s[0]) {
        let rest = s.skip(1);
        lemma_trim_split(rest);
        assert forall|i: int| 0 <= i < leading(s).len() implies is_space(
            #[trigger] leading(s)[i],
        ) by {
            if i > 0 {
                assert(leading(s)[i] == leading(rest)[i - 1]);
            }
        }
        assert(s =~= leading(s) + trim(s)) by {
            assert forall|i: int| 0 <= i < s.len() implies s[i] == (leading(s) + trim(s))[i] by {
                if i >= leading(s).len() {
                    assert(rest[i - 1] == (leading(rest) + trim(rest))[i - 1]);
                }
            }
        }
    } else {
        assert(s =~= leading(s) + trim(s));
    }
}

/// A text that trimming takes away is white space only.
pub proof fn lemma_trim_takes(t: Seq<char>)
    requires
        trim(t).len() == 0,
    ensures
        is_spaces(t),
{
    if !is_spaces(t) {
        lemma_trim_keeps(t);
    }
}

/// The run of digits that a text starts with is a run of digits.
pub proof fn lemma_digits_len_digits(s: Seq<char>)
    ensures
        digits_len(s) <= s.len(),
        forall|i: int| 0 <= i < digits_len(s) ==> is_digit_of(#[trigger] s[i], 10),
    decreases s.len(),
{
    if s.len() > 0 && is_digit_of(s[0], 10) {
        let rest = s.skip(1);
        lemma_digits_len_digits(rest);
        assert forall|i: int| 0 <= i < digits_len(s) implies is_digit_of(#[trigger] s[i], 10) by {
            if i > 0 {
                assert(s[i] == rest[i - 1]);
            }
        }
    }
}

/// A quoted string that is read is the name, escaped, its closing `"` and
/// what follows.
pub proof fn lemma_parse_quoted_is_escaped(u: Seq<char>)
    requires
        parse_quoted(u) is Ok,
    ensures
        u == escape(parse_quoted(u)->Ok_0.0) + (seq!['"'] + parse_quoted(u)->Ok_0.1),
    decreases u.len(),
{
    let name = parse_quoted(u)->Ok_0.0;
    let rest = parse_quoted(u)->Ok_0.1;
    if u[0] == '"' {
        assert(u =~= escape(name) + (seq!['"'] + rest));
    } else if u[0] == '\\' {
        let tail = u.skip(2);
        lemma_parse_quoted_is_escaped(tail);
        let inner = parse_quoted(tail)->Ok_0.0;
        assert(name == seq![u[1]] + inner);
        assert(name.skip(1) == inner);
        assert(escape(name) == seq!['\\', u[1]] + escape(inner));
        assert(u =~= escape(name) + (seq!['"'] + rest)) by {
            assert forall|i: int| 0 <= i < u.len() implies u[i] == (escape(name) + (seq!['"']
                + rest))[i] by {
                if i >= 2 {
                    assert(u[i] == tail[i - 2]);
                    assert(tail[i - 2] == (escape(inner) + (seq!['"'] + rest))[i - 2]);
                }
            }
        }
    } else {
        let tail = u.skip(1);
        lemma_parse_quoted_is_escaped(tail);
        let inner = parse_quoted(tail)->Ok_0.0;
        assert(name == seq![u[0]] + inner);
        assert(name.skip(1) == inner);
        assert(escape(name) == seq![u[0]] + escape(inner));
        assert(u =~= escape(name) + (seq!['"'] + rest)) by {
            assert forall|i: int| 0 <= i < u.len() implies u[i] == (escape(name) + (seq!['"']
                + rest))[i] by {
                if i >= 1 {
                    assert(u[i] == tail[i - 1]);
                    assert(tail[i - 1] == (escape(inner) + (seq!['"'] + rest))[i - 1]);
                }
            }
        }
    }
}

/// What is read as the end of a hint is white space, `)` and white space.
pub proof fn lemma_parse_end_is_rendering(u: Seq<char>, hint: HintView)
    requires
        parse_end(u, hint) is Ok,
    ensures
        is_spaces(leading(u)),
        is_spaces(trim(u).skip(1)),
        u == leading(u) + (seq![')'] + trim(u).skip(1)),
{
    let v = trim(u);
    lemma_trim_split(u);
    lemma_trim_takes(v.skip(1));
    assert(v == seq![')'] + v.skip(1));
}

/// A text that reads as an allocation is a rendering of `Alloc` with its
/// size in decimal digits.
pub proof fn lemma_alloc_is_rendering(s: Seq<char>)
    requires
        parse_text(s) matches Ok(HintView::Alloc(_)),
    ensures
        exists|
            w0: Seq<char>,
            w1: Seq<char>,
            w2: Seq<char>,
            digits: Seq<char>,
            w3: Seq<char>,
            w4: Seq<char>,
        |
            is_spaces(w0) && is_spaces(w1) && is_spaces(w2) && is_spaces(w3) && is_spaces(w4)
                && is_numeral(digits, 10) && parse_text(s) == Ok::<HintView, ParseFailure>(
                HintView::Alloc(numeral_value(digits, 10)),
            ) && s == #[trigger] alloc_text(w0, w1, w2, digits, w3, w4),
{
    let s0 = trim(s);
    lemma_trim_split(s);
    assert(alloc_word().is_prefix_of(s0));
    let u = s0.skip(5);
    assert(s0 == alloc_word() + u) by {
        assert(s0.subrange(0, 5) == alloc_word());
        assert(s0 =~= s0.subrange(0, 5) + u);
    }
    let u1 = trim(u);
    lemma_trim_split(u);
    assert(u1 == seq!['('] + u1.skip(1));
    let u2 = trim(u1.skip(1));
    lemma_trim_split(u1.skip(1));
    let k = digits_len(u2) as int;
    lemma_digits_len_digits(u2);
    let digits = u2.take(k);
    let u3 = u2.skip(k);
    assert(u2 == digits + u3);
    lemma_parse_end_is_rendering(u3, HintView::Alloc(numeral_value(digits, 10)));
    let w0 = leading(s);
    let w1 = leading(u);
    let w2 = leading(u1.skip(1));
    let w3 = leading(u3);
    let w4 = trim(u3).skip(1);
    assert(s == alloc_text(w0, w1, w2, digits, w3, w4));
}

/// A text that reads as the hint for an input is a rendering of `Input`
/// with the name in double quotes.
pub proof fn lemma_input_is_rendering(s: Seq<char>)
    requires
        parse_text(s) matches Ok(HintView::Input(_)),
    ensures
        exists|
            w0: Seq<char>,
            w1: Seq<char>,
            w2: Seq<char>,
            name: Seq<char>,
            w3: Seq<char>,
            w4: Seq<char>,
        |
            is_spaces(w0) && is_spaces(w1) && is_spaces(w2) && is_spaces(w3) && is_spaces(w4)
                && parse_text(s) == Ok::<HintView, ParseFailure>(HintView::Input(name)) && s
                == #[trigger] input_text(w0, w1, w2, name, w3, w4),
{
    let s0 = trim(s);
    lemma_trim_split(s);
    let u = s0.skip(5);
    assert(!alloc_word().is_prefix_of(s0));
    assert(s0 == input_word() + u) by {
        assert(s0.subrange(0, 5) == input_word());
        assert(s0 =~= s0.subrange(0, 5) + u);
    }
    let u1 = trim(u);
    lemma_trim_split(u);
    assert(u1 == seq!['('] + u1.skip(1));
    let u2 = trim(u1.skip(1));
    lemma_trim_split(u1.skip(1));
    assert(u2 == seq!['"'] + u2.skip(1));
    let read = parse_quoted(u2.skip(1))->Ok_0;
    lemma_parse_quoted_is_escaped(u2.skip(1));
    lemma_parse_end_is_rendering(read.1, HintView::Input(read.0));
    let w0 = leading(s);
    let w1 = leading(u);
    let w2 = leading(u1.skip(1));
    let w3 = leading(read.1);
    let w4 = trim(read.1).skip(1);
    assert(s == input_text(w0, w1, w2, read.0, w3, w4));
}

} // verus!

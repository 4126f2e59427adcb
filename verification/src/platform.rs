//! The platform gate: which operating-system versions have the capture
//! mechanism.
//!
//! The version arrives as the text that the system reports, such as
//! `14.2.1`. It is trimmed and cut at the dots; the components that read as
//! numbers are kept in order, and the first two decide.

use vstd::prelude::*;
use vstd::string::*;

verus! {

/// First major version that may have the capture mechanism.
pub const MIN_MAJOR: u32 = 14;

/// First minor version of `MIN_MAJOR` that has it.
pub const MIN_MINOR: u32 = 2;

/// The characters with the Unicode property White_Space.
pub open spec fn is_white_space(c: char) -> bool {
    let u = c as int;
    ||| 0x09 <= u <= 0x0d
    ||| u == 0x20
    ||| u == 0x85
    ||| u == 0xa0
    ||| u == 0x1680
    ||| 0x2000 <= u <= 0x200a
    ||| u == 0x2028
    ||| u == 0x2029
    ||| u == 0x202f
    ||| u == 0x205f
    ||| u == 0x3000
}

/// Index of the first character at or after `i` that is no white space; the
/// length where there is none.
pub open spec fn leading_end(s: Seq<char>, i: int) -> int
    decreases s.len() - i,
{
    if 0 <= i < s.len() && is_white_space(s[i]) {
        leading_end(s, i + 1)
    } else {
        i
    }
}

/// Index just after the last character before `j` that is no white space,
/// and not below `start`.
pub open spec fn trailing_start(s: Seq<char>, start: int, j: int) -> int
    decreases j,
{
    if 0 <= start < j <= s.len() && is_white_space(s[j - 1]) {
        trailing_start(s, start, j - 1)
    } else {
        j
    }
}

/// The text without its leading and trailing white space.
pub open spec fn trimmed(s: Seq<char>) -> Seq<char> {
    let a = leading_end(s, 0);
    s.subrange(a, trailing_start(s, a, s.len() as int))
}

/// Index of the first dot at or after `from`; the length where there is none.
pub open spec fn component_end(s: Seq<char>, from: int) -> int
    decreases s.len() - from,
{
    if 0 <= from < s.len() && s[from] != '.' {
        component_end(s, from + 1)
    } else {
        from
    }
}

pub open spec fn is_digit(c: char) -> bool {
    48 <= c as int <= 57
}

pub open spec fn all_digits(s: Seq<char>) -> bool {
    forall|i: int| 0 <= i < s.len() ==> is_digit(#[trigger] s[i])
}

/// The number that a sequence of decimal digits writes.
pub open spec fn digits_value(s: Seq<char>) -> int
    decreases s.len(),
{
    if s.len() == 0 {
        0
    } else {
        10 * digits_value(s.drop_last()) + (s.last() as int - 48)
    }
}

/// The number that a component reads as: decimal digits, at least one, after
/// an optional plus sign, with a value that fits 32 bits. Anything else reads
/// as no number.
pub open spec fn parsed_number(s: Seq<char>) -> Option<u32> {
    let body = if s.len() > 0 && s[0] == '+' {
        s.subrange(1, s.len() as int)
    } else {
        s
    };
    if body.len() > 0 && all_digits(body) && digits_value(body) <= u32::MAX {
        Some(digits_value(body) as u32)
    } else {
        None
    }
}

/// The numbers among the dot-separated components from index `from` on, in
/// order. Components that read as no number are passed over.
pub open spec fn numbers_from(s: Seq<char>, from: int) -> Seq<u32>
    decreases s.len() - from,
{
    if from < 0 || from > s.len() {
        Seq::empty()
    } else {
        let end = component_end(s, from);
        proof {
            lemma_component_end_bounds(s, from);
        }
        let rest = if end < s.len() {
            numbers_from(s, end + 1)
        } else {
            Seq::empty()
        };
        match parsed_number(s.subrange(from, end)) {
            Some(v) => seq![v] + rest,
            None => rest,
        }
    }
}

/// Whether the leading numbers of a version reach 14.2: the major number
/// alone where there is no minor one.
pub open spec fn reaches_minimum(numbers: Seq<u32>) -> bool {
    if numbers.len() >= 2 {
        numbers[0] > MIN_MAJOR || (numbers[0] == MIN_MAJOR && numbers[1] >= MIN_MINOR)
    } else if numbers.len() == 1 {
        numbers[0] > MIN_MAJOR
    } else {
        false
    }
}

/// Whether a reported version has the capture mechanism.
pub open spec fn version_supported(text: Seq<char>) -> bool {
    reaches_minimum(numbers_from(trimmed(text), 0))
}

pub proof fn lemma_component_end_bounds(s: Seq<char>, from: int)
    requires
        0 <= from <= s.len(),
    ensures
        from <= component_end(s, from) <= s.len(),
    decreases s.len() - from,
{
    if from < s.len() && s[from] != '.' {
        lemma_component_end_bounds(s, from + 1);
    }
}

fn code_point(c: char) -> (u: u32)
    ensures
        u == c as int,
{
    c as u32
}

fn is_white_space_char(c: char) -> (w: bool)
    ensures
        w == is_white_space(c),
{
    let u: u32 = c as u32;
    (0x09 <= u && u <= 0x0d) || u == 0x20 || u == 0x85 || u == 0xa0 || u == 0x1680 || (0x2000 <= u
        && u <= 0x200a) || u == 0x2028 || u == 0x2029 || u == 0x202f || u == 0x205f || u == 0x3000
}

fn chars_of(text: &str) -> (chars: Vec<char>)
    ensures
        chars@ == text@,
{
    let n = text.unicode_len();
    let mut chars: Vec<char> = Vec::new();
    let mut i: usize = 0;
    while i < n
        invariant
            i <= n,
            n == text@.len(),
            chars@ == text@.subrange(0, i as int),
        decreases n - i,
    {
        chars.push(text.get_char(i));
        i = i + 1;
        assert(chars@ =~= text@.subrange(0, i as int));
    }
    assert(chars@ =~= text@);
    chars
}

fn trim(chars: &Vec<char>) -> (text: Vec<char>)
    ensures
        text@ == trimmed(chars@),
{
    let n = chars.len();
    let mut a: usize = 0;
    while a < n && is_white_space_char(chars[a])
        invariant
            a <= n,
            n == chars@.len(),
            leading_end(chars@, a as int) == leading_end(chars@, 0),
        decreases n - a,
    {
        a = a + 1;
    }
    let mut b: usize = n;
    while b > a && is_white_space_char(chars[b - 1])
        invariant
            a <= b <= n,
            n == chars@.len(),
            trailing_start(chars@, a as int, b as int) == trailing_start(chars@, a as int, n as int),
        decreases b,
    {
        b = b - 1;
    }
    let mut text: Vec<char> = Vec::new();
    let mut i: usize = a;
    while i < b
        invariant
            a <= i <= b <= n,
            n == chars@.len(),
            text@ == chars@.subrange(a as int, i as int),
        decreases b - i,
    {
        text.push(chars[i]);
        i = i + 1;
        assert(text@ =~= chars@.subrange(a as int, i as int));
    }
    text
}

/// Reads the component `text[from..to]` as a number.
fn parse_component(text: &Vec<char>, from: usize, to: usize) -> (number: Option<u32>)
    requires
        from <= to <= text@.len(),
    ensures
        number == parsed_number(text@.subrange(from as int, to as int)),
{
    let ghost component = text@.subrange(from as int, to as int);
    let start: usize = if from < to && text[from] == '+' {
        from + 1
    } else {
        from
    };
    let ghost body = text@.subrange(start as int, to as int);
    assert(body =~= if component.len() > 0 && component[0] == '+' {
        component.subrange(1, component.len() as int)
    } else {
        component
    });
    if start >= to {
        return None;
    }
    let mut value: u64 = 0;
    let mut over: bool = false;
    let mut i: usize = start;
    assert(text@.subrange(start as int, start as int) =~= Seq::<char>::empty());
    while i < to
        invariant
            from <= start <= i <= to <= text@.len(),
            start < to,
            component == text@.subrange(from as int, to as int),
            body == text@.subrange(start as int, to as int),
            body == if component.len() > 0 && component[0] == '+' {
                component.subrange(1, component.len() as int)
            } else {
                component
            },
            all_digits(text@.subrange(start as int, i as int)),
            !over ==> value == digits_value(text@.subrange(start as int, i as int)) && value
                <= u32::MAX,
            over ==> digits_value(text@.subrange(start as int, i as int)) > u32::MAX,
        decreases to - i,
    {
        let c: char = text[i];
        let u: u32 = code_point(c);
        if u < 48 || u > 57 {
            assert(!is_digit(body[i - start]));
            return None;
        }
        let ghost before = text@.subrange(start as int, i as int);
        let ghost after = text@.subrange(start as int, i + 1);
        assert(after.drop_last() =~= before);
        assert(after.last() == text@[i as int]);
        assert forall|j: int| 0 <= j < after.len() implies is_digit(#[trigger] after[j]) by {
            if j < before.len() {
                assert(after[j] == before[j]);
            } else {
                assert(after[j] == c);
            }
        }
        assert(digits_value(before) >= 0) by {
            lemma_digits_value_nonnegative(before);
        }
        if !over {
            value = value * 10 + (u - 48) as u64;
            if value > 0xffff_ffff {
                over = true;
            }
        }
        i = i + 1;
    }
    assert(text@.subrange(start as int, to as int) == body);
    if over {
        None
    } else {
        Some(value as u32)
    }
}

proof fn lemma_digits_value_nonnegative(s: Seq<char>)
    requires
        all_digits(s),
    ensures
        digits_value(s) >= 0,
    decreases s.len(),
{
    if s.len() > 0 {
        assert forall|i: int| 0 <= i < s.drop_last().len() implies is_digit(
            #[trigger] s.drop_last()[i],
        ) by {
            assert(s.drop_last()[i] == s[i]);
        }
        lemma_digits_value_nonnegative(s.drop_last());
        assert(is_digit(s[s.len() - 1]));
    }
}

fn numbers_of(text: &Vec<char>) -> (numbers: Vec<u32>)
    ensures
        numbers@ == numbers_from(text@, 0),
{
    let n = text.len();
    let mut numbers: Vec<u32> = Vec::new();
    let mut from: usize = 0;
    let mut done: bool = false;
    assert(numbers@ + numbers_from(text@, 0) =~= numbers_from(text@, 0));
    while !done
        invariant
            n == text@.len(),
            from <= n,
            done ==> numbers@ == numbers_from(text@, 0),
            !done ==> numbers@ + numbers_from(text@, from as int) == numbers_from(text@, 0),
        decreases n - from + (if done { 0int } else { 1int }),
    {
        let mut end: usize = from;
        while end < n && text[end] != '.'
            invariant
                from <= end <= n,
                n == text@.len(),
                component_end(text@, end as int) == component_end(text@, from as int),
            decreases n - end,
        {
            end = end + 1;
        }
        let ghost rest = if end < n {
            numbers_from(text@, end + 1)
        } else {
            Seq::<u32>::empty()
        };
        let ghost so_far = numbers@;
        match parse_component(text, from, end) {
            Some(v) => {
                numbers.push(v);
                assert(numbers@ + rest =~= so_far + (seq![v] + rest));
            },
            None => {},
        }
        assert(numbers@ + rest == numbers_from(text@, 0));
        if end < n {
            from = end + 1;
        } else {
            assert(numbers@ + rest =~= numbers@);
            done = true;
        }
    }
    numbers
}

/// Decides from the version that the system reports whether capture is
/// supported: version 14.2 or later.
pub fn is_supported(version: &str) -> (supported: bool)
    ensures
        supported == version_supported(version@),
{
    let chars = chars_of(version);
    let text = trim(&chars);
    let numbers = numbers_of(&text);
    if numbers.len() >= 2 {
        numbers[0] > MIN_MAJOR || (numbers[0] == MIN_MAJOR && numbers[1] >= MIN_MINOR)
    } else if numbers.len() == 1 {
        numbers[0] > MIN_MAJOR
    } else {
        false
    }
}

} // verus!

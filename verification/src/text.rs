//! Reading what a player types: lines without their trailing white space,
//! words, and small decimal numbers.

use vstd::prelude::*;

verus! {

/// White space, as Unicode defines it.
pub open spec fn is_space(c: char) -> bool {
    let n = c as u32;
    ||| 0x09 <= n <= 0x0D
    ||| n == 0x20
    ||| n == 0x85
    ||| n == 0xA0
    ||| n == 0x1680
    ||| 0x2000 <= n <= 0x200A
    ||| n == 0x2028
    ||| n == 0x2029
    ||| n == 0x202F
    ||| n == 0x205F
    ||| n == 0x3000
}

/// White space within ASCII: blank, tab, line feed, form feed and carriage
/// return.
pub open spec fn is_ascii_space(c: char) -> bool {
    c == ' ' || c == '\t' || c == '\n' || c == '\x0C' || c == '\r'
}

/// Whether a character is white space.
pub fn space(c: char) -> (r: bool)
    ensures
        r == is_space(c),
{
    let n = c as u32;
    (0x09 <= n && n <= 0x0D) || n == 0x20 || n == 0x85 || n == 0xA0 || n == 0x1680 || (0x2000 <= n
        && n <= 0x200A) || n == 0x2028 || n == 0x2029 || n == 0x202F || n == 0x205F || n == 0x3000
}

/// Whether a character is ASCII white space.
pub fn ascii_space(c: char) -> (r: bool)
    ensures
        r == is_ascii_space(c),
{
    c == ' ' || c == '\t' || c == '\n' || c == '\x0C' || c == '\r'
}

/// The characters of a text.
pub fn chars_of(text: &str) -> (v: Vec<char>)
    ensures
        v@ == text@,
{
    let mut v: Vec<char> = Vec::new();
    for c in it: text.chars()
        invariant
            it.seq() == text@,
            v@ == text@.take(it.index() as int),
    {
        v.push(c);
        assert(text@.take(it.index() + 1) =~= text@.take(it.index() as int).push(c));
    }
    assert(text@.take(text@.len() as int) =~= text@);
    v
}

/// The length of `s` without the white space at its end.
pub open spec fn trimmed_len(s: Seq<char>) -> int
    decreases s.len(),
{
    if s.len() > 0 && is_space(s.last()) {
        trimmed_len(s.drop_last())
    } else {
        s.len() as int
    }
}

/// `s` without the white space at its end.
pub open spec fn trim_end(s: Seq<char>) -> Seq<char> {
    s.take(trimmed_len(s))
}

/// The number of ASCII white space characters at the start of `s`.
pub open spec fn lead_len(s: Seq<char>) -> int
    decreases s.len(),
{
    if s.len() > 0 && is_ascii_space(s[0]) {
        1 + lead_len(s.drop_first())
    } else {
        0
    }
}

/// `s` without the ASCII white space at its start.
pub open spec fn trim_start(s: Seq<char>) -> Seq<char> {
    s.skip(lead_len(s))
}

/// The value of a decimal digit.
pub open spec fn digit(c: char) -> Option<int> {
    let n = c as u32;
    if 0x30 <= n <= 0x39 {
        Some(n - 0x30)
    } else {
        None
    }
}

/// The value of a text of one or more decimal digits.
pub open spec fn decimal(s: Seq<char>) -> Option<int>
    decreases s.len(),
{
    if s.len() == 0 {
        None
    } else if s.len() == 1 {
        digit(s[0])
    } else {
        match (decimal(s.drop_last()), digit(s.last())) {
            (Some(high), Some(low)) => Some(10 * high + low),
            _ => None,
        }
    }
}

/// The number that a text states: decimal digits, with or without a `+`
/// before them, whose value a `usize` can hold.
pub open spec fn number(s: Seq<char>) -> Option<usize> {
    let digits = if s.len() > 0 && s[0] == '+' {
        s.drop_first()
    } else {
        s
    };
    match decimal(digits) {
        Some(value) => if value <= usize::MAX {
            Some(value as usize)
        } else {
            None
        },
        None => None,
    }
}

/// Every start of a decimal text is a decimal text of no greater value.
pub proof fn lemma_decimal_prefix(s: Seq<char>, n: int)
    requires
        1 <= n <= s.len(),
        decimal(s) is Some,
    ensures
        decimal(s.take(n)) is Some,
        0 <= decimal(s.take(n)).unwrap() <= decimal(s).unwrap(),
    decreases s.len(),
{
    if n == s.len() {
        assert(s.take(n) =~= s);
        if s.len() > 1 {
            lemma_decimal_prefix(s.drop_last(), n - 1);
        }
    } else {
        lemma_decimal_prefix(s.drop_last(), n);
        assert(s.drop_last().take(n) =~= s.take(n));
    }
}

/// The length of a line without the white space at its end.
pub fn trimmed_end(line: &Vec<char>) -> (n: usize)
    ensures
        n == trimmed_len(line@),
        n <= line.len(),
{
    let mut n = line.len();
    assert(line@.take(n as int) =~= line@);
    while n > 0 && space(line[n - 1])
        invariant
            n <= line.len(),
            trimmed_len(line@.take(n as int)) == trimmed_len(line@),
        decreases n,
    {
        assert(line@.take(n as int).drop_last() =~= line@.take(n - 1));
        n -= 1;
    }
    n
}

/// The index of the first character from `from` on that is no ASCII white
/// space; `to` where there is none before it.
pub fn skip_spaces(line: &Vec<char>, from: usize, to: usize) -> (n: usize)
    requires
        from <= to <= line.len(),
    ensures
        n == from + lead_len(line@.subrange(from as int, to as int)),
        from <= n <= to,
{
    let mut n = from;
    while n < to && ascii_space(line[n])
        invariant
            from <= n <= to <= line.len(),
            from + lead_len(line@.subrange(from as int, to as int)) == n + lead_len(
                line@.subrange(n as int, to as int),
            ),
        decreases to - n,
    {
        assert(line@.subrange(n as int, to as int).drop_first() =~= line@.subrange(
            n + 1,
            to as int,
        ));
        n += 1;
    }
    n
}

/// Whether the characters from `from` to `to` spell `word`.
pub fn spells(line: &Vec<char>, from: usize, to: usize, word: &str) -> (r: bool)
    requires
        from <= to <= line.len(),
    ensures
        r == (line@.subrange(from as int, to as int) == word@),
{
    let letters = chars_of(word);
    if letters.len() != to - from {
        return false;
    }
    let ghost part = line@.subrange(from as int, to as int);
    for i in 0..letters.len()
        invariant
            from <= to <= line.len(),
            letters.len() == to - from,
            letters@ == word@,
            part == line@.subrange(from as int, to as int),
            part.take(i as int) == word@.take(i as int),
    {
        if line[from + i] != letters[i] {
            assert(part[i as int] != word@[i as int]);
            return false;
        }
        assert(part.take(i + 1) =~= part.take(i as int).push(part[i as int]));
        assert(word@.take(i + 1) =~= word@.take(i as int).push(word@[i as int]));
    }
    assert(part.take(part.len() as int) =~= part);
    assert(word@.take(word@.len() as int) =~= word@);
    true
}

/// Reads one decimal digit.
pub fn digit_of(c: char) -> (r: Option<usize>)
    ensures
        r is Some <==> digit(c) is Some,
        r is Some ==> r.unwrap() == digit(c).unwrap(),
{
    let n = c as u32;
    if 0x30 <= n && n <= 0x39 {
        Some((n - 0x30) as usize)
    } else {
        None
    }
}

/// Reads the number that the characters from `from` to `to` state.
pub fn read_number(line: &Vec<char>, from: usize, to: usize) -> (r: Option<usize>)
    requires
        from <= to <= line.len(),
    ensures
        r == number(line@.subrange(from as int, to as int)),
{
    let ghost whole = line@.subrange(from as int, to as int);
    let start = if from < to && line[from] == '+' {
        from + 1
    } else {
        from
    };
    let ghost digits = line@.subrange(start as int, to as int);
    assert(digits =~= if whole.len() > 0 && whole[0] == '+' {
        whole.drop_first()
    } else {
        whole
    });
    if start == to {
        return None;
    }
    let mut value: usize = 0;
    let mut i = start;
    while i < to
        invariant
            start <= i <= to <= line.len(),
            start < to,
            digits == line@.subrange(start as int, to as int),
            number(line@.subrange(from as int, to as int)) == match decimal(digits) {
                Some(value) => if value <= usize::MAX {
                    Some(value as usize)
                } else {
                    None
                },
                None => None,
            },
            i == start ==> value == 0,
            i > start ==> decimal(digits.take(i - start)) == Some(value as int),
        decreases to - i,
    {
        let ghost read = digits.take(i + 1 - start);
        assert(read.drop_last() =~= digits.take(i - start));
        assert(read.last() == line@[i as int]);
        proof {
            if decimal(digits) is Some {
                lemma_decimal_prefix(digits, i + 1 - start);
            }
        }
        let low = match digit_of(line[i]) {
            Some(low) => low,
            None => {
                return None;
            },
        };
        let high = match value.checked_mul(10) {
            Some(high) => high,
            None => {
                return None;
            },
        };
        value = match high.checked_add(low) {
            Some(sum) => sum,
            None => {
                return None;
            },
        };
        i += 1;
    }
    assert(digits.take(to - start) =~= digits);
    Some(value)
}

} // verus!

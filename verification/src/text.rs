//! The text of options: white space, numbers and the order of names.
use vstd::prelude::*;
use vstd::string::StrSliceExecFns;

verus! {

/// The characters that Unicode counts as white space.
pub open spec fn is_white_space(c: char) -> bool {
    let code = c as u32;
    ||| 0x9 <= code <= 0xd
    ||| code == 0x20
    ||| code == 0x85
    ||| code == 0xa0
    ||| code == 0x1680
    ||| 0x2000 <= code <= 0x200a
    ||| code == 0x2028
    ||| code == 0x2029
    ||| code == 0x202f
    ||| code == 0x205f
    ||| code == 0x3000
}

/// A text without the white space at its ends.
pub open spec fn trimmed(s: Seq<char>) -> Seq<char>
    decreases s.len(),
{
    if s.len() == 0 {
        s
    } else if is_white_space(s[0]) {
        trimmed(s.subrange(1, s.len() as int))
    } else if is_white_space(s.last()) {
        trimmed(s.subrange(0, s.len() - 1))
    } else {
        s
    }
}

pub open spec fn is_digit(c: char) -> bool {
    '0' <= c <= '9'
}

/// The number that the digits stand for, most significant first.
pub open spec fn number_of(digits: Seq<char>) -> nat
    decreases digits.len(),
{
    if digits.len() == 0 {
        0
    } else {
        10 * number_of(digits.drop_last()) + (digits.last() as nat - '0' as nat) as nat
    }
}

pub open spec fn all_digits(s: Seq<char>) -> bool {
    forall|i: int| 0 <= i < s.len() ==> is_digit(#[trigger] s[i])
}

/// The digits of a text that is one or more digits, with or without a plus sign in front.
pub open spec fn digits_of(s: Seq<char>) -> Option<Seq<char>> {
    let digits = if s.len() > 0 && s[0] == '+' {
        s.subrange(1, s.len() as int)
    } else {
        s
    };
    if digits.len() > 0 && all_digits(digits) {
        Some(digits)
    } else {
        None
    }
}

/// The number that a text is, if it is one that fits.
pub open spec fn parsed_usize(s: Seq<char>) -> Option<usize> {
    match digits_of(s) {
        Some(digits) => if number_of(digits) <= usize::MAX {
            Some(number_of(digits) as usize)
        } else {
            None
        },
        None => None,
    }
}

/// The order of texts: the first character that differs decides, and a text comes before what it
/// begins.
pub open spec fn comes_before(a: Seq<char>, b: Seq<char>) -> bool
    decreases a.len(),
{
    if b.len() == 0 {
        false
    } else if a.len() == 0 {
        true
    } else if a[0] != b[0] {
        a[0] < b[0]
    } else {
        comes_before(a.subrange(1, a.len() as int), b.subrange(1, b.len() as int))
    }
}

fn check_white_space(c: char) -> (r: bool)
    ensures
        r == is_white_space(c),
{
    let code: u32 = c as u32;
    (0x9 <= code && code <= 0xd) || code == 0x20 || code == 0x85 || code == 0xa0 || code == 0x1680
        || (0x2000 <= code && code <= 0x200a) || code == 0x2028 || code == 0x2029 || code == 0x202f
        || code == 0x205f || code == 0x3000
}

proof fn lemma_trim_start(s: Seq<char>, from: int)
    requires
        0 <= from < s.len(),
        is_white_space(s[from]),
    ensures
        trimmed(s.subrange(from, s.len() as int)) == trimmed(s.subrange(from + 1, s.len() as int)),
{
    let t = s.subrange(from, s.len() as int);
    assert(t[0] == s[from]);
    assert(t.subrange(1, t.len() as int) =~= s.subrange(from + 1, s.len() as int));
}

proof fn lemma_trim_end(s: Seq<char>, from: int, to: int)
    requires
        0 <= from < to <= s.len(),
        !is_white_space(s[from]),
        is_white_space(s[to - 1]),
    ensures
        trimmed(s.subrange(from, to)) == trimmed(s.subrange(from, to - 1)),
{
    let t = s.subrange(from, to);
    assert(t[0] == s[from]);
    assert(t.last() == s[to - 1]);
    assert(t.subrange(0, t.len() - 1) =~= s.subrange(from, to - 1));
}

/// Takes the white space off both ends of a text.
pub fn trim(s: &str) -> (r: &str)
    ensures
        r@ == trimmed(s@),
{
    let n: usize = s.unicode_len();
    let mut from: usize = 0;
    assert(s@.subrange(0, n as int) =~= s@);
    while from < n && check_white_space(s.get_char(from))
        invariant
            n == s@.len(),
            from <= n,
            trimmed(s@) == trimmed(s@.subrange(from as int, n as int)),
        decreases n - from,
    {
        proof {
            lemma_trim_start(s@, from as int);
        }
        from = from + 1;
    }
    let mut to: usize = n;
    while to > from && check_white_space(s.get_char(to - 1))
        invariant
            n == s@.len(),
            from <= to <= n,
            from < n ==> !is_white_space(s@[from as int]),
            trimmed(s@) == trimmed(s@.subrange(from as int, to as int)),
        decreases to,
    {
        proof {
            lemma_trim_end(s@, from as int, to as int);
        }
        to = to - 1;
    }
    s.substring_char(from, to)
}

/// Tells whether two texts are the same.
pub fn same(a: &str, b: &str) -> (r: bool)
    ensures
        r == (a@ == b@),
{
    let n: usize = a.unicode_len();
    if n != b.unicode_len() {
        return false;
    }
    let mut i: usize = 0;
    while i < n
        invariant
            n == a@.len() == b@.len(),
            i <= n,
            forall|k: int| 0 <= k < i ==> a@[k] == b@[k],
        decreases n - i,
    {
        if a.get_char(i) != b.get_char(i) {
            assert(a@[i as int] != b@[i as int]);
            return false;
        }
        i = i + 1;
    }
    assert(a@ =~= b@);
    true
}

/// Tells which of two texts comes first.
pub fn less_than(a: &str, b: &str) -> (r: bool)
    ensures
        r == comes_before(a@, b@),
{
    let na: usize = a.unicode_len();
    let nb: usize = b.unicode_len();
    let mut i: usize = 0;
    assert(a@.subrange(0, na as int) =~= a@);
    assert(b@.subrange(0, nb as int) =~= b@);
    while i < na && i < nb
        invariant
            na == a@.len(),
            nb == b@.len(),
            i <= na,
            i <= nb,
            comes_before(a@, b@) == comes_before(
                a@.subrange(i as int, na as int),
                b@.subrange(i as int, nb as int),
            ),
        decreases na - i,
    {
        let x: char = a.get_char(i);
        let y: char = b.get_char(i);
        if x != y {
            return x < y;
        }
        proof {
            let s = a@.subrange(i as int, na as int);
            let t = b@.subrange(i as int, nb as int);
            assert(s.subrange(1, s.len() as int) =~= a@.subrange(i + 1, na as int));
            assert(t.subrange(1, t.len() as int) =~= b@.subrange(i + 1, nb as int));
        }
        i = i + 1;
    }
    i < nb
}

proof fn lemma_number_grows(digits: Seq<char>, upto: int)
    requires
        0 <= upto <= digits.len(),
        all_digits(digits),
    ensures
        number_of(digits.subrange(0, upto)) <= number_of(digits),
    decreases digits.len() - upto,
{
    if upto < digits.len() {
        lemma_number_grows(digits, upto + 1);
        let t = digits.subrange(0, upto + 1);
        assert(t.drop_last() =~= digits.subrange(0, upto));
        assert(is_digit(digits[upto]));
    } else {
        assert(digits.subrange(0, upto) =~= digits);
    }
}

/// Reads a number that fits.
pub fn parse_usize(s: &str) -> (r: Option<usize>)
    ensures
        r == parsed_usize(s@),
{
    let n: usize = s.unicode_len();
    let start: usize = if n > 0 && s.get_char(0) == '+' {
        1
    } else {
        0
    };
    let ghost digits = s@.subrange(start as int, n as int);
    assert(start == 0 ==> digits =~= s@);
    if start == n {
        return None;
    }
    let mut all: bool = true;
    let mut i: usize = start;
    while i < n && all
        invariant
            n == s@.len(),
            start <= i <= n,
            digits == s@.subrange(start as int, n as int),
            all ==> forall|k: int| 0 <= k < i - start ==> is_digit(#[trigger] digits[k]),
            !all ==> !all_digits(digits),
        decreases n - i,
    {
        let c: char = s.get_char(i);
        assert(c == digits[i - start]);
        if !('0' <= c && c <= '9') {
            all = false;
        }
        i = i + 1;
    }
    if !all {
        return None;
    }
    let mut value: usize = 0;
    let mut j: usize = start;
    assert(digits.subrange(0, 0) =~= Seq::<char>::empty());
    while j < n
        invariant
            n == s@.len(),
            start <= j <= n,
            digits == s@.subrange(start as int, n as int),
            all_digits(digits),
            value == number_of(digits.subrange(0, j - start)),
            digits_of(s@) == Some(digits),
        decreases n - j,
    {
        let c: char = s.get_char(j);
        assert(is_digit(digits[j - start]) && c == digits[j - start]);
        let digit: usize = (c as u32 - '0' as u32) as usize;
        proof {
            let t = digits.subrange(0, j - start + 1);
            assert(t.drop_last() =~= digits.subrange(0, j - start));
            assert(t.last() == c);
            lemma_number_grows(digits, j - start + 1);
        }
        match value.checked_mul(10) {
            Some(tens) => match tens.checked_add(digit) {
                Some(next) => {
                    value = next;
                },
                None => {
                    return None;
                },
            },
            None => {
                return None;
            },
        }
        j = j + 1;
    }
    assert(digits.subrange(0, n - start) =~= digits);
    Some(value)
}

} // verus!

//! Integers as decimal text.

use vstd::prelude::*;
use vstd::string::StringExecFns;

verus! {

/// The character of a decimal digit.
pub open spec fn digit_char(d: int) -> char {
    if d == 0 {
        '0'
    } else if d == 1 {
        '1'
    } else if d == 2 {
        '2'
    } else if d == 3 {
        '3'
    } else if d == 4 {
        '4'
    } else if d == 5 {
        '5'
    } else if d == 6 {
        '6'
    } else if d == 7 {
        '7'
    } else if d == 8 {
        '8'
    } else {
        '9'
    }
}

/// The decimal digits of `n`, most significant first.
pub open spec fn digits(n: nat) -> Seq<char>
    decreases n,
{
    if n < 10 {
        seq![digit_char(n as int)]
    } else {
        digits(n / 10).push(digit_char((n % 10) as int))
    }
}

/// `n` in decimal notation, with a minus sign if it is negative.
pub open spec fn decimal(n: int) -> Seq<char> {
    if n < 0 {
        seq!['-'] + digits((-n) as nat)
    } else {
        digits(n as nat)
    }
}

/// `count` spaces.
pub open spec fn spaces(count: int) -> Seq<char> {
    Seq::new(
        if count > 0 {
            count as nat
        } else {
            0
        },
        |i: int| ' ',
    )
}

/// `n` in decimal notation, right-justified in a field of `width`
/// characters; longer numbers are not cut.
pub open spec fn justified(n: int, width: int) -> Seq<char> {
    spaces(width - decimal(n).len()) + decimal(n)
}

/// The one-character text of a decimal digit.
fn digit_text(d: u64) -> (s: &'static str)
    requires
        d < 10,
    ensures
        s@ == seq![digit_char(d as int)],
{
    proof {
        reveal_strlit("0");
        reveal_strlit("1");
        reveal_strlit("2");
        reveal_strlit("3");
        reveal_strlit("4");
        reveal_strlit("5");
        reveal_strlit("6");
        reveal_strlit("7");
        reveal_strlit("8");
        reveal_strlit("9");
    }
    let s = match d {
        0 => "0",
        1 => "1",
        2 => "2",
        3 => "3",
        4 => "4",
        5 => "5",
        6 => "6",
        7 => "7",
        8 => "8",
        _ => "9",
    };
    assert(s@ =~= seq![digit_char(d as int)]);
    s
}

/// Appends the decimal digits of `n`.
pub fn push_digits(text: &mut String, n: u64)
    ensures
        final(text)@ == old(text)@ + digits(n as nat),
    decreases n,
{
    if n >= 10 {
        push_digits(text, n / 10);
    }
    text.append(digit_text(n % 10));
    assert(text@ =~= old(text)@ + digits(n as nat));
}

/// The size of `n` without its sign.
pub fn magnitude(n: i64) -> (m: u64)
    ensures
        m == (if n < 0 {
            -n
        } else {
            n as int
        }),
{
    if n >= 0 {
        n as u64
    } else {
        (-(n + 1)) as u64 + 1
    }
}

/// Appends `n` in decimal notation.
pub fn push_decimal(text: &mut String, n: i64)
    ensures
        final(text)@ == old(text)@ + decimal(n as int),
{
    if n < 0 {
        proof {
            reveal_strlit("-");
        }
        text.append("-");
        push_digits(text, magnitude(n));
        assert(text@ =~= old(text)@ + decimal(n as int));
    } else {
        push_digits(text, magnitude(n));
    }
}

/// The powers of ten.
pub open spec fn pow10(k: nat) -> nat
    decreases k,
{
    if k == 0 {
        1
    } else {
        10 * pow10((k - 1) as nat)
    }
}

/// A number below the `k`-th power of ten has at most `k` digits.
pub proof fn lemma_digits_len(n: nat, k: nat)
    requires
        k >= 1,
        n < pow10(k),
    ensures
        1 <= digits(n).len() <= k,
    decreases k,
{
    reveal_with_fuel(pow10, 2);
    if n >= 10 {
        lemma_digits_len(n / 10, (k - 1) as nat);
    }
}

/// The size of a 64-bit signed number has at most 19 digits.
pub proof fn lemma_digits_len_i64(n: u64)
    requires
        n <= 0x8000_0000_0000_0000,
    ensures
        1 <= digits(n as nat).len() <= 19,
{
    assert(pow10(19) == 10000000000000000000) by {
        reveal_with_fuel(pow10, 20);
    }
    lemma_digits_len(n as nat, 19);
}

/// The number of characters of `n` in decimal notation.
pub fn decimal_width(n: i64) -> (w: usize)
    ensures
        w == decimal(n as int).len(),
        1 <= w <= 20,
{
    let mut rest: u64 = magnitude(n);
    proof {
        lemma_digits_len_i64(rest);
    }
    let mut w: usize = if n < 0 {
        2
    } else {
        1
    };
    let ghost sign: int = if n < 0 {
        1
    } else {
        0
    };
    while rest >= 10
        invariant
            w + digits(rest as nat).len() == 1 + sign + digits(magnitude_of(n as int)).len(),
            sign + 1 <= w,
            0 <= sign <= 1,
            1 <= digits(rest as nat).len(),
            digits(magnitude_of(n as int)).len() <= 19,
            rest <= 0x8000_0000_0000_0000,
        decreases rest,
    {
        rest = rest / 10;
        w += 1;
        proof {
            lemma_digits_len_i64(rest);
        }
    }
    w
}

/// The size of `n` without its sign.
pub open spec fn magnitude_of(n: int) -> nat {
    if n < 0 {
        (-n) as nat
    } else {
        n as nat
    }
}

/// Appends `n` in decimal notation, right-justified in a field of `width`
/// characters.
pub fn push_justified(text: &mut String, n: i64, width: usize)
    ensures
        final(text)@ == old(text)@ + justified(n as int, width as int),
{
    proof {
        reveal_strlit(" ");
    }
    let w: usize = decimal_width(n);
    let mut i: usize = w;
    assert(text@ =~= old(text)@ + spaces(0));
    while i < width
        invariant
            w <= i,
            i <= width || i == w,
            " "@ == seq![' '],
            text@ == old(text)@ + spaces(i - w),
        decreases width - i,
    {
        text.append(" ");
        i += 1;
        assert(text@ =~= old(text)@ + spaces(i - w));
    }
    assert(spaces(i - w) =~= spaces(width - decimal(n as int).len()));
    push_decimal(text, n);
    assert(text@ =~= old(text)@ + justified(n as int, width as int));
}

/// `n` in decimal notation.
pub fn decimal_string(n: i64) -> (text: String)
    ensures
        text@ == decimal(n as int),
{
    let mut text = String::new();
    push_decimal(&mut text, n);
    assert(text@ =~= decimal(n as int));
    text
}

/// The first `n` items of `s` in decimal notation, separated by spaces.
pub open spec fn joined(s: Seq<i32>, n: int) -> Seq<char>
    decreases n,
{
    if n <= 0 {
        Seq::empty()
    } else if n == 1 {
        decimal(s[0] as int)
    } else {
        joined(s, n - 1) + seq![' '] + decimal(s[n - 1] as int)
    }
}

/// At most `limit` items from the front of `s` as a list in brackets.
pub open spec fn list_text(s: Seq<i32>, limit: int) -> Seq<char> {
    seq!['['] + joined(
        s,
        if s.len() > limit {
            limit
        } else {
            s.len() as int
        },
    ) + seq![']']
}

/// At most `num_items` items from the front of `vec` as text: in brackets,
/// separated by spaces.
pub fn vec_text(vec: &[i32], num_items: usize) -> (text: String)
    ensures
        text@ == list_text(vec@, num_items as int),
{
    proof {
        reveal_strlit("[");
        reveal_strlit(" ");
        reveal_strlit("]");
    }
    let mut max: usize = vec.len();
    if max > num_items {
        max = num_items;
    }
    let mut text = String::new();
    text.append("[");
    let mut i: usize = 0;
    assert(text@ =~= seq!['['] + joined(vec@, 0));
    while i < max
        invariant
            i <= max <= vec@.len(),
            " "@ == seq![' '],
            text@ == seq!['['] + joined(vec@, i as int),
        decreases max - i,
    {
        if i > 0 {
            text.append(" ");
        }
        push_decimal(&mut text, vec[i] as i64);
        i += 1;
        assert(text@ =~= seq!['['] + joined(vec@, i as int));
    }
    text.append("]");
    assert(text@ =~= list_text(vec@, num_items as int));
    text
}

} // verus!

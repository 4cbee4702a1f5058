//! Numbers as texts, and texts joined and trimmed.

use vstd::prelude::*;
use vstd::string::*;

verus! {

/// The character that stands for a decimal digit.
pub open spec fn digit_char(d: int) -> char {
    if d == 0 {
        '0'
    } else if d == 1 {
        '1'
    } else if d == 2 {
        '2'
    } else if d == 3 {
        '3'
    } else if d == 4 {
        '4'
    } else if d == 5 {
        '5'
    } else if d == 6 {
        '6'
    } else if d == 7 {
        '7'
    } else if d == 8 {
        '8'
    } else {
        '9'
    }
}

/// Decimal digits of a natural number, most significant first, no leading zeros.
pub open spec fn nat_text(n: nat) -> Seq<char>
    decreases n,
{
    if n < 10 {
        seq![digit_char(n as int)]
    } else {
        nat_text(n / 10).push(digit_char((n % 10) as int))
    }
}

/// Decimal text of an integer: a minus sign for negative values, then the digits.
pub open spec fn int_text(n: int) -> Seq<char> {
    if n < 0 {
        seq!['-'] + nat_text((-n) as nat)
    } else {
        nat_text(n as nat)
    }
}

/// Appends one decimal digit to `s`.
pub fn append_digit(s: &mut String, d: u8)
    requires
        d < 10,
    ensures
        final(s)@ == old(s)@.push(digit_char(d as int)),
{
    proof {
        reveal_strlit("0");
        reveal_strlit("1");
        reveal_strlit("2");
        reveal_strlit("3");
        reveal_strlit("4");
        reveal_strlit("5");
        reveal_strlit("6");
        reveal_strlit("7");
        reveal_strlit("8");
        reveal_strlit("9");
    }
    let ghost before = s@;
    if d == 0 {
        s.append("0");
    } else if d == 1 {
        s.append("1");
    } else if d == 2 {
        s.append("2");
    } else if d == 3 {
        s.append("3");
    } else if d == 4 {
        s.append("4");
    } else if d == 5 {
        s.append("5");
    } else if d == 6 {
        s.append("6");
    } else if d == 7 {
        s.append("7");
    } else if d == 8 {
        s.append("8");
    } else {
        s.append("9");
    }
    assert(s@ =~= before.push(digit_char(d as int)));
}

/// Appends the decimal digits of `n` to `s`.
pub fn append_nat(s: &mut String, n: u128)
    ensures
        final(s)@ == old(s)@ + nat_text(n as nat),
    decreases n,
{
    let ghost before = s@;
    if n >= 10 {
        append_nat(s, n / 10);
    }
    append_digit(s, (n % 10) as u8);
    assert(s@ =~= before + nat_text(n as nat));
}

/// Appends the decimal text of `n` to `s`.
pub fn append_int(s: &mut String, n: i128)
    ensures
        final(s)@ == old(s)@ + int_text(n as int),
{
    let ghost before = s@;
    if n < 0 {
        proof {
            reveal_strlit("-");
        }
        s.append("-");
        let magnitude: u128 = ((-(n + 1)) as u128) + 1;
        append_nat(s, magnitude);
        assert(s@ =~= before + int_text(n as int));
    } else {
        append_nat(s, n as u128);
    }
}

/// The decimal text of `n` as a new string.
pub fn int_to_string(n: i128) -> (s: String)
    ensures
        s@ == int_text(n as int),
{
    let mut s = String::new();
    append_int(&mut s, n);
    assert(s@ =~= int_text(n as int));
    s
}

/// The decimal text of `n` as a new string.
pub fn nat_to_string(n: usize) -> (s: String)
    ensures
        s@ == nat_text(n as nat),
{
    let mut s = String::new();
    append_nat(&mut s, n as u128);
    assert(s@ =~= nat_text(n as nat));
    s
}

/// The texts held by a sequence of strings.
pub open spec fn texts_of(parts: Seq<String>) -> Seq<Seq<char>> {
    Seq::new(parts.len(), |i: int| parts[i]@)
}

/// The parts one after another, with `separator` between each two neighbours.
pub open spec fn join_with(parts: Seq<Seq<char>>, separator: Seq<char>) -> Seq<char>
    decreases parts.len(),
{
    if parts.len() == 0 {
        Seq::empty()
    } else if parts.len() == 1 {
        parts[0]
    } else {
        join_with(parts.drop_last(), separator) + separator + parts.last()
    }
}

/// `unit` written `n` times.
pub open spec fn repeated(unit: Seq<char>, n: nat) -> Seq<char>
    decreases n,
{
    if n == 0 {
        Seq::empty()
    } else {
        repeated(unit, (n - 1) as nat) + unit
    }
}

/// Joins the strings, putting `separator` between each two neighbours.
pub fn join(parts: &Vec<String>, separator: &str) -> (s: String)
    ensures
        s@ == join_with(texts_of(parts@), separator@),
{
    let mut s = String::new();
    let mut i: usize = 0;
    while i < parts.len()
        invariant
            i <= parts.len(),
            s@ == join_with(texts_of(parts@).take(i as int), separator@),
        decreases parts.len() - i,
    {
        let ghost before = texts_of(parts@).take(i as int);
        let ghost after = texts_of(parts@).take(i + 1);
        assert(after.drop_last() =~= before);
        assert(after.last() == parts@[i as int]@);
        if i > 0 {
            s.append(separator);
        }
        s.append(parts[i].as_str());
        assert(s@ =~= join_with(after, separator@));
        i += 1;
    }
    assert(texts_of(parts@).take(parts.len() as int) =~= texts_of(parts@));
    s
}

/// Appends `unit` to `s`, `n` times.
pub fn append_repeated(s: &mut String, unit: &str, n: usize)
    ensures
        final(s)@ == old(s)@ + repeated(unit@, n as nat),
{
    let ghost before = s@;
    let mut i: usize = 0;
    assert(s@ =~= before + repeated(unit@, 0));
    while i < n
        invariant
            i <= n,
            s@ == before + repeated(unit@, i as nat),
        decreases n - i,
    {
        s.append(unit);
        i += 1;
        assert(s@ =~= before + repeated(unit@, i as nat));
    }
}

/// Whether two texts are the same.
pub fn same_text(a: &str, b: &str) -> (same: bool)
    ensures
        same == (a@ == b@),
{
    let left = String::from_str(a);
    let right = String::from_str(b);
    left == right
}

/// Whether the text holds the character.
pub open spec fn holds(s: Seq<char>, c: char) -> bool {
    exists|i: int| 0 <= i < s.len() && s[i] == c
}

/// The length of the text without the zeros at its end.
pub open spec fn length_without_zeros(s: Seq<char>) -> nat
    decreases s.len(),
{
    if s.len() > 0 && s.last() == '0' {
        length_without_zeros(s.drop_last())
    } else {
        s.len()
    }
}

/// A decimal number without the zeros at the end of its fraction, and without
/// the point when no fraction is left. A text without a point is left as it is.
pub open spec fn without_trailing_zeros(s: Seq<char>) -> Seq<char> {
    if holds(s, '.') {
        let t = s.take(length_without_zeros(s) as int);
        if t.len() > 0 && t.last() == '.' {
            t.drop_last()
        } else {
            t
        }
    } else {
        s
    }
}

/// Trims the zeros at the end of the fraction of a decimal number, and the point
/// when no fraction is left.
pub fn trim_trailing_zeros_float_str(s: &str) -> (r: String)
    ensures
        r@ == without_trailing_zeros(s@),
{
    let chars = crate::chars::chars_of(s);
    let mut has_point = false;
    let mut i: usize = 0;
    while i < chars.len()
        invariant
            i <= chars.len(),
            chars@ == s@,
            has_point == holds(s@.take(i as int), '.'),
        decreases chars.len() - i,
    {
        let ghost before = s@.take(i as int);
        let ghost after = s@.take(i + 1);
        if chars[i] == '.' {
            has_point = true;
            assert(after[i as int] == '.');
        } else {
            proof {
                if holds(before, '.') {
                    let k = choose|k: int| 0 <= k < before.len() && before[k] == '.';
                    assert(after[k] == '.');
                }
                if holds(after, '.') {
                    let k = choose|k: int| 0 <= k < after.len() && after[k] == '.';
                    assert(before[k] == '.');
                }
            }
        }
        i += 1;
    }
    assert(s@.take(chars.len() as int) =~= s@);
    if !has_point {
        return String::from_str(s);
    }
    let mut end = chars.len();
    while end > 0 && chars[end - 1] == '0'
        invariant
            end <= chars.len(),
            chars@ == s@,
            length_without_zeros(s@) == length_without_zeros(s@.take(end as int)),
        decreases end,
    {
        assert(s@.take(end as int).drop_last() =~= s@.take(end - 1));
        end -= 1;
    }
    assert(length_without_zeros(s@.take(end as int)) == end);
    if end > 0 && chars[end - 1] == '.' {
        assert(s@.take(end as int).drop_last() =~= s@.subrange(0, end - 1));
        end -= 1;
    }
    assert(s@.take(end as int) =~= s@.subrange(0, end as int));
    String::from_str(s.substring_char(0, end))
}

} // verus!

//! Comparing and building strings.

use vstd::prelude::*;

verus! {

/// `needle` stands in `hay` at position `i`.
pub open spec fn stands_at(hay: Seq<char>, needle: Seq<char>, i: int) -> bool {
    0 <= i && i + needle.len() <= hay.len() && hay.subrange(i, i + needle.len()) == needle
}

/// `needle` stands somewhere in `hay`.
pub open spec fn has_text(hay: Seq<char>, needle: Seq<char>) -> bool {
    exists|i: int| stands_at(hay, needle, i)
}

fn matches_at(hay: &str, needle: &str, i: usize, n: usize, k: usize) -> (r: bool)
    requires
        n == hay@.len(),
        k == needle@.len(),
        i + k <= n,
    ensures
        r == stands_at(hay@, needle@, i as int),
{
    let mut j: usize = 0;
    while j < k
        invariant
            n == hay@.len(),
            k == needle@.len(),
            i + k <= n,
            j <= k,
            forall|a: int| 0 <= a < j ==> hay@[i + a] == needle@[a],
        decreases k - j,
    {
        if hay.get_char(i + j) != needle.get_char(j) {
            assert(hay@.subrange(i as int, i + k)[j as int] != needle@[j as int]);
            return false;
        }
        j = j + 1;
    }
    assert(hay@.subrange(i as int, i + k) =~= needle@);
    true
}

/// Whether `needle` stands somewhere in `hay`.
pub fn contains_text(hay: &str, needle: &str) -> (r: bool)
    ensures
        r == has_text(hay@, needle@),
{
    let n: usize = hay.unicode_len();
    let k: usize = needle.unicode_len();
    if k > n {
        return false;
    }
    let mut i: usize = 0;
    while i <= n - k
        invariant
            n == hay@.len(),
            k == needle@.len(),
            k <= n,
            i <= n - k + 1,
            forall|a: int| 0 <= a < i ==> !stands_at(hay@, needle@, a),
        decreases n - k + 1 - i,
    {
        if matches_at(hay, needle, i, n, k) {
            return true;
        }
        if i == n - k {
            assert forall|a: int| !stands_at(hay@, needle@, a) by {
            }
            return false;
        }
        i = i + 1;
    }
    false
}

/// Whether two strings have the same characters.
pub fn same_text(a: &str, b: &str) -> (r: bool)
    ensures
        r == (a@ == b@),
{
    let n: usize = a.unicode_len();
    let k: usize = b.unicode_len();
    if n != k {
        return false;
    }
    let r: bool = matches_at(a, b, 0, n, k);
    assert(a@.subrange(0, a@.len() as int) =~= a@);
    r
}

/// Three strings one after the other.
pub fn join3(a: &str, b: &str, c: &str) -> (r: String)
    ensures
        r@ == a@ + b@ + c@,
{
    let mut s = String::new();
    s.append(a);
    s.append(b);
    s.append(c);
    assert(s@ =~= a@ + b@ + c@);
    s
}

/// A text filled up with spaces to a width; a longer text as it is.
pub open spec fn padded(s: Seq<char>, width: nat) -> Seq<char> {
    if s.len() >= width {
        s
    } else {
        s + Seq::new((width - s.len()) as nat, |i: int| ' ')
    }
}

/// Appends a text filled up with spaces.
pub fn push_padded(out: &mut String, s: &str, width: usize)
    ensures
        final(out)@ == old(out)@ + padded(s@, width as nat),
{
    proof {
        reveal_strlit(" ");
    }
    out.append(s);
    let n: usize = s.unicode_len();
    let ghost start = out@;
    let missing: usize = if n < width {
        width - n
    } else {
        0
    };
    assert(start + Seq::new(0, |i: int| ' ') =~= start);
    for k in 0..missing
        invariant
            " "@ =~= seq![' '],
            out@ == start + Seq::new(k as nat, |i: int| ' '),
    {
        out.append(" ");
        assert(out@ =~= start + Seq::new((k + 1) as nat, |i: int| ' '));
    }
    assert(out@ =~= old(out)@ + padded(s@, width as nat));
}

/// The decimal digits of a number.
pub open spec fn digits(n: nat) -> Seq<char>
    decreases n,
{
    if n < 10 {
        seq![digit(n)]
    } else {
        digits(n / 10).push(digit(n % 10))
    }
}

/// One decimal digit.
pub open spec fn digit(n: nat) -> char {
    if n == 0 {
        '0'
    } else if n == 1 {
        '1'
    } else if n == 2 {
        '2'
    } else if n == 3 {
        '3'
    } else if n == 4 {
        '4'
    } else if n == 5 {
        '5'
    } else if n == 6 {
        '6'
    } else if n == 7 {
        '7'
    } else if n == 8 {
        '8'
    } else {
        '9'
    }
}

/// A number as text, with a sign if it is negative.
pub open spec fn decimal_text(n: int) -> Seq<char> {
    if n < 0 {
        seq!['-'] + digits((-n) as nat)
    } else {
        digits(n as nat)
    }
}

fn push_digit(s: &mut String, d: u64)
    requires
        d < 10,
    ensures
        final(s)@ == old(s)@.push(digit(d as nat)),
{
    proof {
        reveal_strlit("0");
        reveal_strlit("1");
        reveal_strlit("2");
        reveal_strlit("3");
        reveal_strlit("4");
        reveal_strlit("5");
        reveal_strlit("6");
        reveal_strlit("7");
        reveal_strlit("8");
        reveal_strlit("9");
    }
    let text: &str = match d {
        0 => "0",
        1 => "1",
        2 => "2",
        3 => "3",
        4 => "4",
        5 => "5",
        6 => "6",
        7 => "7",
        8 => "8",
        _ => "9",
    };
    s.append(text);
    assert(s@ =~= old(s)@.push(digit(d as nat)));
}

/// Appends the decimal digits of a number.
pub fn push_digits(s: &mut String, n: u64)
    ensures
        final(s)@ == old(s)@ + digits(n as nat),
    decreases n,
{
    if n >= 10 {
        push_digits(s, n / 10);
    }
    push_digit(s, n % 10);
    assert(s@ =~= old(s)@ + digits(n as nat));
}

/// A number as text.
pub fn decimal(n: i32) -> (r: String)
    ensures
        r@ == decimal_text(n as int),
{
    let mut s = String::new();
    if n < 0 {
        proof {
            reveal_strlit("-");
        }
        s.append("-");
        push_digits(&mut s, (-(n as i64)) as u64);
        assert(s@ =~= seq!['-'] + digits((-n) as nat));
    } else {
        push_digits(&mut s, n as u64);
        assert(s@ =~= digits(n as nat));
    }
    s
}

} // verus!

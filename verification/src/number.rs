//! Whole numbers in decimal notation.
use crate::text::chars_of;
use vstd::prelude::*;

verus! {

/// The character of a decimal digit.
pub open spec fn digit(d: nat) -> char {
    ('0' as u32 + d) as char
}

/// A number in decimal notation, without leading zeros.
pub open spec fn decimal(n: nat) -> Seq<char>
    decreases n,
{
    if n < 10 {
        seq![digit(n)]
    } else {
        decimal(n / 10).push(digit(n % 10))
    }
}

/// `s` with `fill` in front of it, as often as needed to make it `width` characters long.
pub open spec fn padded(s: Seq<char>, width: nat, fill: char) -> Seq<char> {
    if s.len() < width {
        Seq::new((width - s.len()) as nat, |i: int| fill) + s
    } else {
        s
    }
}

/// Appends the digit `d`.
fn push_digit(out: &mut String, d: u64)
    requires
        d < 10,
    ensures
        final(out)@ == old(out)@.push(digit(d as nat)),
{
    let c: char = (48u8 + d as u8) as char;
    out.push(c);
}

/// Appends a number in decimal notation.
pub fn push_decimal(out: &mut String, n: u64)
    ensures
        final(out)@ == old(out)@ + decimal(n as nat),
    decreases n,
{
    if n >= 10 {
        push_decimal(out, n / 10);
    }
    push_digit(out, n % 10);
}

/// Appends `s`, filled up in front to `width` characters.
pub fn push_padded(out: &mut String, s: &str, width: usize, fill: char)
    ensures
        final(out)@ == old(out)@ + padded(s@, width as nat, fill),
{
    let len = chars_of(s).len();
    let mut n: usize = len;
    let ghost start = out@;
    while n < width
        invariant
            len <= n,
            len <= width ==> n <= width,
            width < len ==> n == len,
            start == old(out)@,
            out@ == start + Seq::new((n - len) as nat, |i: int| fill),
        decreases width - n,
    {
        out.push(fill);
        n += 1;
        assert(out@ =~= start + Seq::new((n - len) as nat, |i: int| fill));
    }
    out.append(s);
    assert(out@ =~= start + padded(s@, width as nat, fill));
}

/// Appends a number, filled up with zeros to `width` digits.
pub fn push_zero_padded(out: &mut String, n: u64, width: usize)
    ensures
        final(out)@ == old(out)@ + padded(decimal(n as nat), width as nat, '0'),
{
    let mut digits = String::new();
    push_decimal(&mut digits, n);
    assert(digits@ =~= decimal(n as nat));
    push_padded(out, digits.as_str(), width, '0');
}

/// The number that decimal digits stand for.
pub open spec fn read_decimal(s: Seq<char>) -> int
    decreases s.len(),
{
    if s.len() == 0 {
        0
    } else {
        10 * read_decimal(s.drop_last()) + (s.last() as int - 48)
    }
}

/// A number in decimal notation can be read back: it is made of the digits 0 to 9, it stands
/// for the number, and no zero leads but that of zero itself.
pub proof fn law_decimal_reads_back(n: nat)
    ensures
        read_decimal(decimal(n)) == n,
        decimal(n).len() > 0,
        forall|i: int| 0 <= i < decimal(n).len() ==> '0' <= #[trigger] decimal(n)[i] <= '9',
        n > 0 ==> decimal(n)[0] != '0',
        n == 0 ==> decimal(n) == seq!['0'],
    decreases n,
{
    if n < 10 {
        assert(decimal(n).drop_last() =~= Seq::<char>::empty());
        reveal_with_fuel(read_decimal, 2);
        if n == 0 {
            assert(decimal(n) =~= seq!['0']);
        }
    } else {
        law_decimal_reads_back(n / 10);
        assert(decimal(n).drop_last() =~= decimal(n / 10));
        assert(decimal(n)[0] == decimal(n / 10)[0]);
    }
}

/// Zeros in front do not change the number that digits stand for.
pub proof fn law_zeros_in_front(s: Seq<char>, width: nat)
    ensures
        read_decimal(padded(s, width, '0')) == read_decimal(s),
    decreases s.len(),
{
    let p = padded(s, width, '0');
    if s.len() == 0 {
        lemma_only_zeros(p);
    } else {
        let shorter = if width > 0 {
            (width - 1) as nat
        } else {
            0
        };
        law_zeros_in_front(s.drop_last(), shorter);
        assert(p.drop_last() =~= padded(s.drop_last(), shorter, '0'));
        assert(p.last() == s.last());
    }
}

/// Zeros alone stand for zero.
proof fn lemma_only_zeros(s: Seq<char>)
    requires
        forall|i: int| 0 <= i < s.len() ==> s[i] == '0',
    ensures
        read_decimal(s) == 0,
    decreases s.len(),
{
    if s.len() > 0 {
        lemma_only_zeros(s.drop_last());
    }
}

/// A padded text ends in the text, has only the filling in front of it, and is as long as
/// asked for, or as the text where that is longer.
pub proof fn law_padding_goes_in_front(s: Seq<char>, width: nat, fill: char)
    ensures
        ({
            let p = padded(s, width, fill);
            let k = p.len() - s.len();
            &&& 0 <= k
            &&& s.len() >= width ==> k == 0
            &&& s.len() < width ==> p.len() == width
            &&& p.skip(k) == s
            &&& forall|i: int| 0 <= i < k ==> p[i] == fill
        }),
{
    let p = padded(s, width, fill);
    assert(p.skip(p.len() - s.len()) =~= s);
}

} // verus!

//! File sizes as text.
use crate::number::{
    decimal, digit, law_padding_goes_in_front, padded, push_decimal, push_padded,
};
use vstd::arithmetic::power2::pow2;
use vstd::prelude::*;

verus! {

/// Bytes in a kilobyte.
pub const KB: u64 = 1024;

/// Bytes in a megabyte.
pub const MB: u64 = 1048576;

/// Bytes in a gigabyte.
pub const GB: u64 = 1073741824;

/// The first whole number that takes more than the 53 significant bits of a double.
pub const EXACT: u64 = 9007199254740992;

/// `n / d`, rounded to the nearest whole number, and to the even one of two that are
/// equally near.
pub open spec fn nearest(n: nat, d: nat) -> nat {
    let q = n / d;
    let r = n % d;
    if 2 * r < d || (2 * r == d && q % 2 == 0) {
        q
    } else {
        q + 1
    }
}

/// The distance of neighbouring doubles around the whole number `n`, as far as it is one
/// or more.
pub open spec fn spacing(n: nat) -> nat
    decreases n,
{
    if n < EXACT {
        1
    } else {
        2 * spacing(n / 2)
    }
}

/// The double that is nearest to a whole number.
pub open spec fn as_double(n: nat) -> nat {
    nearest(n, spacing(n)) * spacing(n)
}

/// How many tenths of `unit` a size is, rounded to the nearest.
pub open spec fn tenths(bytes: nat, unit: nat) -> nat {
    nearest(10 * as_double(bytes), unit)
}

/// A size in `unit`, with one digit after the point.
pub open spec fn in_unit(bytes: nat, unit: nat) -> Seq<char> {
    decimal(tenths(bytes, unit) / 10) + seq!['.', digit(tenths(bytes, unit) % 10)]
}

/// The unit that a size is shown in, and its name.
pub open spec fn unit_of(bytes: nat) -> (nat, Seq<char>) {
    if bytes >= GB {
        (GB as nat, " GB"@)
    } else if bytes >= MB {
        (MB as nat, " MB"@)
    } else {
        (KB as nat, " KB"@)
    }
}

/// A size as text: whole bytes below a kilobyte, else a number with one decimal place in
/// the largest unit that does not exceed the size.
pub open spec fn size_text(bytes: nat) -> Seq<char> {
    if bytes < KB {
        decimal(bytes) + " B"@
    } else {
        in_unit(bytes, unit_of(bytes).0) + unit_of(bytes).1
    }
}

/// The same with the number right-aligned to six characters, and the unit of two.
pub open spec fn padded_size_text(bytes: nat) -> Seq<char> {
    if bytes < KB {
        padded(decimal(bytes), 6, ' ') + " B "@
    } else {
        padded(in_unit(bytes, unit_of(bytes).0), 6, ' ') + unit_of(bytes).1
    }
}

/// Computes `spacing`.
fn spacing_of(n: u64) -> (r: u64)
    ensures
        r == spacing(n as nat),
        1 <= r,
        r <= 1 || r <= n / 4503599627370496,
    decreases n,
{
    if n < EXACT {
        1
    } else {
        2 * spacing_of(n / 2)
    }
}

/// Computes `nearest`.
fn nearest_to(n: u128, d: u128) -> (r: u128)
    requires
        0 < d <= 0xffff_ffff_ffff_ffff,
        n <= 0xffff_ffff_ffff_ffff_ffff,
    ensures
        r == nearest(n as nat, d as nat),
        r <= n + 1,
{
    let q = n / d;
    let r = n % d;
    proof {
        vstd::arithmetic::div_mod::lemma_div_is_ordered_by_denominator(n as int, 1, d as int);
        vstd::arithmetic::div_mod::lemma_mod_bound(n as int, d as int);
    }
    if 2 * r < d || (2 * r == d && q % 2 == 0) {
        q
    } else {
        q + 1
    }
}

/// Appends a size in `unit` with one digit after the point.
fn push_in_unit(out: &mut String, bytes: u64, unit: u64)
    requires
        unit == KB || unit == MB || unit == GB,
    ensures
        final(out)@ == old(out)@ + in_unit(bytes as nat, unit as nat),
{
    let step = spacing_of(bytes);
    let units = nearest_to(bytes as u128, step as u128);
    proof {
        lemma_double_bound(bytes as nat, step as nat);
    }
    let double = units * (step as u128);
    let t = nearest_to(10 * double, unit as u128);
    proof {
        lemma_tenths_bound(10 * double as nat, unit as nat);
    }
    let ghost before = out@;
    push_decimal(out, (t / 10) as u64);
    out.push('.');
    push_decimal(out, (t % 10) as u64);
    assert(out@ =~= before + in_unit(bytes as nat, unit as nat));
}

/// A rounded size is not much larger than the size.
proof fn lemma_double_bound(n: nat, step: nat)
    requires
        n <= u64::MAX,
        1 <= step,
        step <= 1 || step <= n / 4503599627370496,
    ensures
        nearest(n, step) * step <= n + step,
        nearest(n, step) * step <= 0x2_0000_0000_0000_0000,
        step <= 4096,
{
    let q = n / step;
    let r = n % step;
    assert(n == step * q + r && 0 <= r < step) by {
        vstd::arithmetic::div_mod::lemma_fundamental_div_mod(n as int, step as int);
    }
    assert((q + 1) * step == step * q + step) by (nonlinear_arith);
    assert(q * step == step * q) by (nonlinear_arith);
}

/// A size in tenths of a unit fits in 64 bits.
proof fn lemma_tenths_bound(n: nat, unit: nat)
    requires
        n <= 0x20_0000_0000_0000_0000,
        unit == KB || unit == MB || unit == GB,
    ensures
        nearest(n, unit) <= u64::MAX,
{
}

/// A size as text, in the largest fitting unit.
pub fn format_size(bytes: u64) -> (r: String)
    ensures
        r@ == size_text(bytes as nat),
{
    let mut out = String::new();
    if bytes >= GB {
        push_in_unit(&mut out, bytes, GB);
        out.append(" GB");
    } else if bytes >= MB {
        push_in_unit(&mut out, bytes, MB);
        out.append(" MB");
    } else if bytes >= KB {
        push_in_unit(&mut out, bytes, KB);
        out.append(" KB");
    } else {
        push_decimal(&mut out, bytes);
        out.append(" B");
    }
    assert(out@ =~= size_text(bytes as nat));
    out
}

/// A size as text, right-aligned for a column.
pub fn format_size_padded(bytes: u64) -> (r: String)
    ensures
        r@ == padded_size_text(bytes as nat),
{
    let mut number = String::new();
    let mut out = String::new();
    if bytes >= GB {
        push_in_unit(&mut number, bytes, GB);
    } else if bytes >= MB {
        push_in_unit(&mut number, bytes, MB);
    } else if bytes >= KB {
        push_in_unit(&mut number, bytes, KB);
    } else {
        push_decimal(&mut number, bytes);
    }
    push_padded(&mut out, number.as_str(), 6, ' ');
    if bytes >= GB {
        out.append(" GB");
    } else if bytes >= MB {
        out.append(" MB");
    } else if bytes >= KB {
        out.append(" KB");
    } else {
        out.append(" B ");
    }
    proof {
        let shown = if bytes >= KB {
            in_unit(bytes as nat, unit_of(bytes as nat).0)
        } else {
            decimal(bytes as nat)
        };
        assert(number@ =~= shown);
        assert(out@ =~= padded_size_text(bytes as nat));
    }
    out
}

/// Below the first number that a double cannot hold, the shown number is within half a
/// tenth of the size.
pub proof fn law_size_is_rounded(bytes: nat)
    requires
        bytes < EXACT,
    ensures
        ({
            let unit = unit_of(bytes).0;
            let off = 10 * bytes - tenths(bytes, unit) * unit;
            -unit <= 2 * off <= unit
        }),
{
    lemma_small_is_exact(bytes);
    let n = 10 * bytes;
    if bytes >= GB {
        assert(tenths(bytes, unit_of(bytes).0) == nearest(n, 1073741824));
    } else if bytes >= MB {
        assert(tenths(bytes, unit_of(bytes).0) == nearest(n, 1048576));
    } else {
        assert(tenths(bytes, unit_of(bytes).0) == nearest(n, 1024));
    }
}

/// A double holds every whole number below `EXACT` as it is.
proof fn lemma_small_is_exact(n: nat)
    requires
        n < EXACT,
    ensures
        as_double(n) == n,
{
    assert(spacing(n) == 1);
    assert(nearest(n, 1) == n);
    assert(nearest(n, 1) * 1 == n);
}

/// Below ten thousand gigabytes every right-aligned size takes nine characters, so that the
/// sizes of a column stand under each other.
pub proof fn law_padded_sizes_align(bytes: nat)
    requires
        bytes < 9999 * GB,
    ensures
        padded_size_text(bytes).len() == 9,
{
    reveal_strlit(" GB");
    reveal_strlit(" MB");
    reveal_strlit(" KB");
    reveal_strlit(" B ");
    lemma_small_is_exact(bytes);
    assert(tenths(bytes, unit_of(bytes).0) <= 99990) by {
        assert(unit_of(bytes).0 == KB || unit_of(bytes).0 == MB || unit_of(bytes).0 == GB);
    }
    reveal_with_fuel(decimal, 5);
}

/// A number of tenths with a point: all digits but the last, and then the last.
pub open spec fn with_point(t: nat) -> Seq<char> {
    decimal(t / 10) + seq!['.', digit(t % 10)]
}

/// Whether `t` is the whole number nearest to `n / d`, and the even one of two equally near.
pub open spec fn rounds_to(n: int, d: int, t: int) -> bool {
    &&& -d <= 2 * (n - t * d) <= d
    &&& 2 * (n - t * d) == d || 2 * (n - t * d) == -d ==> t % 2 == 0
}

/// Rounding gives the nearest whole number, and the even one of two equally near.
proof fn lemma_nearest(n: nat, d: nat)
    requires
        d > 0,
    ensures
        rounds_to(n as int, d as int, nearest(n, d) as int),
{
    let q = n / d;
    let r = n % d;
    vstd::arithmetic::div_mod::lemma_fundamental_div_mod(n as int, d as int);
    vstd::arithmetic::div_mod::lemma_mod_bound(n as int, d as int);
    assert(q * d == d * q) by (nonlinear_arith);
    assert((q + 1) * d == d * q + d) by (nonlinear_arith);
}

/// Whether a size is shown as `t` tenths of a unit, given the number of bytes as it is held.
pub open spec fn shown_in(bytes: nat, unit: int, name: Seq<char>, t: nat) -> bool {
    &&& size_text(bytes) == with_point(t) + name
    &&& rounds_to(10 * as_double(bytes) as int, unit, t as int)
}

/// Below 1024 bytes the bytes are shown, below 1048576 kilobytes, below 1073741824 megabytes,
/// and from there on gigabytes, with one digit behind the point, rounded to the nearest tenth
/// of the unit.
pub proof fn law_how_sizes_are_shown(bytes: nat)
    ensures
        bytes < 1024 ==> size_text(bytes) == decimal(bytes) + seq![' ', 'B'],
        1024 <= bytes < 1048576 ==> exists|t: nat| shown_in(bytes, 1024, seq![' ', 'K', 'B'], t),
        1048576 <= bytes < 1073741824 ==> exists|t: nat|
            shown_in(bytes, 1048576, seq![' ', 'M', 'B'], t),
        1073741824 <= bytes ==> exists|t: nat|
            shown_in(bytes, 1073741824, seq![' ', 'G', 'B'], t),
{
    reveal_strlit(" B");
    reveal_strlit(" KB");
    reveal_strlit(" MB");
    reveal_strlit(" GB");
    assert(" B"@ =~= seq![' ', 'B']);
    assert(" KB"@ =~= seq![' ', 'K', 'B']);
    assert(" MB"@ =~= seq![' ', 'M', 'B']);
    assert(" GB"@ =~= seq![' ', 'G', 'B']);
    let unit = unit_of(bytes).0;
    let t = tenths(bytes, unit);
    lemma_nearest(10 * as_double(bytes), unit);
    if bytes >= 1073741824 {
        assert(shown_in(bytes, 1073741824, seq![' ', 'G', 'B'], t));
    } else if bytes >= 1048576 {
        assert(shown_in(bytes, 1048576, seq![' ', 'M', 'B'], t));
    } else if bytes >= 1024 {
        assert(shown_in(bytes, 1024, seq![' ', 'K', 'B'], t));
    }
}

/// A number of bytes is held as it is below 2^53. Above, with `k` bits more than 53, it is held
/// as the nearest multiple of 2^k, and the even one of two equally near.
pub proof fn law_how_bytes_are_held(bytes: nat, k: nat)
    ensures
        bytes < 9007199254740992 ==> as_double(bytes) == bytes,
        k > 0 && 4503599627370496 * pow2(k) <= bytes < 9007199254740992 * pow2(k) ==> exists|u: int|
            as_double(bytes) == u * pow2(k) && #[trigger] rounds_to(
                bytes as int,
                pow2(k) as int,
                u,
            ),
{
    if bytes < EXACT {
        lemma_small_is_exact(bytes);
    }
    if k > 0 && 4503599627370496 * pow2(k) <= bytes < 9007199254740992 * pow2(k) {
        lemma_spacing(bytes, k);
        vstd::arithmetic::power2::lemma_pow2_pos(k);
        lemma_nearest(bytes, pow2(k));
        let u = nearest(bytes, pow2(k)) as int;
        assert(as_double(bytes) == u * pow2(k));
        assert(rounds_to(bytes as int, pow2(k) as int, u));
    }
}

/// The distance of neighbouring doubles is a power of two.
proof fn lemma_spacing(n: nat, k: nat)
    requires
        4503599627370496 * pow2(k) <= n < 9007199254740992 * pow2(k),
    ensures
        spacing(n) == pow2(k),
    decreases k,
{
    if k == 0 {
        vstd::arithmetic::power2::lemma2_to64();
    } else {
        let j = (k - 1) as nat;
        vstd::arithmetic::power2::lemma_pow2_unfold(k);
        vstd::arithmetic::power2::lemma_pow2_pos(j);
        assert(pow2(k) == 2 * pow2(j));
        lemma_spacing(n / 2, j);
        assert(n >= EXACT);
    }
}

/// In a column a size stands as it is shown elsewhere, with spaces in front of it as far as
/// nine characters are not reached, and behind the one letter of bytes one space.
pub proof fn law_column_shows_the_same(bytes: nat)
    ensures
        ({
            let plain = size_text(bytes);
            let column = padded_size_text(bytes);
            let behind = if bytes < 1024 {
                1int
            } else {
                0int
            };
            let front = column.len() - behind - plain.len();
            &&& front >= 0
            &&& front > 0 ==> column.len() == 9
            &&& column.subrange(front, front + plain.len()) == plain
            &&& forall|i: int| 0 <= i < front ==> column[i] == ' '
            &&& behind == 1 ==> column.last() == ' '
            &&& column.len() >= 9
        }),
{
    reveal_strlit(" B");
    reveal_strlit(" B ");
    reveal_strlit(" KB");
    reveal_strlit(" MB");
    reveal_strlit(" GB");
    let plain = size_text(bytes);
    let column = padded_size_text(bytes);
    let number = if bytes < KB {
        decimal(bytes)
    } else {
        in_unit(bytes, unit_of(bytes).0)
    };
    law_padding_goes_in_front(number, 6, ' ');
    let p = padded(number, 6, ' ');
    let front = p.len() - number.len();
    assert(column.subrange(front, front + plain.len()) =~= plain) by {
        assert forall|i: int| 0 <= i < plain.len() implies column[front + i] == plain[i] by {
            if i < number.len() {
                assert(p.skip(front)[i] == number[i]);
            }
        }
    }
}

} // verus!

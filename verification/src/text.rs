//! Building text: characters, decimal and hexadecimal numerals.
//!
//! The view of a string is its sequence of characters; the functions here say of
//! each numeral which characters it consists of.

use vstd::prelude::*;

verus! {

/// `String::push` appends one character.
pub assume_specification[ String::push ](s: &mut String, c: char)
    ensures
        final(s)@ == old(s)@.push(c),
;

/// The digit for `d` in base ten or sixteen, in lower case.
pub open spec fn digit_char(d: int) -> char {
    if d < 10 {
        (48 + d) as char
    } else {
        (87 + d) as char
    }
}

fn digit(d: u8) -> (c: char)
    requires
        d < 16,
    ensures
        c == digit_char(d as int),
{
    if d < 10 {
        (48 + d) as char
    } else {
        (87 + d) as char
    }
}

/// Decimal numeral of `n`, without leading zeros.
pub open spec fn dec(n: nat) -> Seq<char>
    decreases n,
{
    if n < 10 {
        seq![digit_char(n as int)]
    } else {
        dec(n / 10).push(digit_char((n % 10) as int))
    }
}

/// Decimal numeral of `i` with a leading `-` where it is negative.
pub open spec fn dec_signed(i: int) -> Seq<char> {
    if i < 0 {
        seq!['-'] + dec((-i) as nat)
    } else {
        dec(i as nat)
    }
}

/// Lower-case hexadecimal numeral of `n`, without leading zeros.
pub open spec fn hex(n: nat) -> Seq<char>
    decreases n,
{
    if n < 16 {
        seq![digit_char(n as int)]
    } else {
        hex(n / 16).push(digit_char((n % 16) as int))
    }
}

/// `k` zeros.
pub open spec fn zeros(k: nat) -> Seq<char> {
    Seq::new(k, |i: int| '0')
}

/// Hexadecimal numeral of `n`, filled up with zeros to `width` digits.
pub open spec fn hex_padded(n: nat, width: nat) -> Seq<char> {
    if hex(n).len() < width {
        zeros((width - hex(n).len()) as nat) + hex(n)
    } else {
        hex(n)
    }
}

/// Hexadecimal numeral with the prefix `0x`, filled up to `width` digits.
pub open spec fn hex_prefixed(n: nat, width: nat) -> Seq<char> {
    "0x"@ + hex_padded(n, width)
}

pub fn push_dec(out: &mut String, n: u64)
    ensures
        final(out)@ == old(out)@ + dec(n as nat),
    decreases n,
{
    if n < 10 {
        out.push(digit(n as u8));
        assert(out@ =~= old(out)@ + dec(n as nat));
    } else {
        push_dec(out, n / 10);
        out.push(digit((n % 10) as u8));
        assert(out@ =~= old(out)@ + dec(n as nat));
    }
}

/// The same for numbers of up to 128 bits.
pub fn push_dec_wide(out: &mut String, n: u128)
    ensures
        final(out)@ == old(out)@ + dec(n as nat),
    decreases n,
{
    if n < 10 {
        out.push(digit(n as u8));
        assert(out@ =~= old(out)@ + dec(n as nat));
    } else {
        push_dec_wide(out, n / 10);
        out.push(digit((n % 10) as u8));
        assert(out@ =~= old(out)@ + dec(n as nat));
    }
}

pub fn push_dec_signed(out: &mut String, i: i64)
    ensures
        final(out)@ == old(out)@ + dec_signed(i as int),
{
    if i < 0 {
        out.push('-');
        let magnitude: u64 = (-(i as i128)) as u64;
        push_dec(out, magnitude);
        assert(out@ =~= old(out)@ + dec_signed(i as int));
    } else {
        push_dec(out, i as u64);
    }
}

fn push_hex(out: &mut String, n: u64)
    ensures
        final(out)@ == old(out)@ + hex(n as nat),
    decreases n,
{
    if n < 16 {
        out.push(digit(n as u8));
        assert(out@ =~= old(out)@ + hex(n as nat));
    } else {
        push_hex(out, n / 16);
        out.push(digit((n % 16) as u8));
        assert(out@ =~= old(out)@ + hex(n as nat));
    }
}

/// Number of hexadecimal digits of `n`.
fn hex_len(n: u64) -> (k: u64)
    ensures
        k == hex(n as nat).len(),
{
    let mut rest: u64 = n;
    let mut k: u64 = 1;
    proof {
        lemma_hex_len(n as nat);
    }
    while rest >= 16
        invariant
            1 <= k,
            k + hex(rest as nat).len() == hex(n as nat).len() + 1,
            hex(n as nat).len() <= n + 1,
        decreases rest,
    {
        proof {
            lemma_hex_len((rest / 16) as nat);
            lemma_hex_len(n as nat);
        }
        rest = rest / 16;
        k = k + 1;
    }
    k
}

proof fn lemma_hex_len(n: nat)
    ensures
        1 <= hex(n).len() <= n / 16 + 1,
    decreases n,
{
    if n >= 16 {
        lemma_hex_len(n / 16);
    }
}

pub fn push_hex_padded(out: &mut String, n: u64, width: u64)
    ensures
        final(out)@ == old(out)@ + hex_padded(n as nat, width as nat),
{
    let len: u64 = hex_len(n);
    let mut k: u64 = len;
    while k < width
        invariant
            len <= k,
            k <= width || k == len,
            out@ =~= old(out)@ + zeros((k - len) as nat),
        decreases width - k,
    {
        out.push('0');
        k = k + 1;
    }
    push_hex(out, n);
    assert(out@ =~= old(out)@ + hex_padded(n as nat, width as nat));
}

/// Whether two strings hold the same characters.
pub(crate) fn same_text(a: &str, b: &str) -> (r: bool)
    ensures
        r == (a@ == b@),
{
    let left = chars_of(a);
    let right = chars_of(b);
    if left.len() != right.len() {
        return false;
    }
    let mut i: usize = 0;
    while i < left.len()
        invariant
            i <= left@.len() == right@.len(),
            left@ == a@,
            right@ == b@,
            forall|j: int| 0 <= j < i ==> left@[j] == right@[j],
        decreases left@.len() - i,
    {
        if left[i] != right[i] {
            return false;
        }
        i = i + 1;
    }
    assert(a@ =~= b@);
    true
}

pub fn dec_string(n: u64) -> (s: String)
    ensures
        s@ == dec(n as nat),
{
    let mut s = String::new();
    push_dec(&mut s, n);
    assert(s@ =~= dec(n as nat));
    s
}

pub fn push_hex_prefixed(out: &mut String, n: u64, width: u64)
    ensures
        final(out)@ == old(out)@ + hex_prefixed(n as nat, width as nat),
{
    out.append("0x");
    push_hex_padded(out, n, width);
    assert(out@ =~= old(out)@ + hex_prefixed(n as nat, width as nat));
}

pub fn hex_prefixed_string(n: u64, width: u64) -> (s: String)
    ensures
        s@ == hex_prefixed(n as nat, width as nat),
{
    let mut s = "0x".to_owned();
    push_hex_padded(&mut s, n, width);
    s
}

/// The characters of `s`, one by one.
pub fn chars_of(s: &str) -> (v: Vec<char>)
    ensures
        v@ == s@,
{
    let mut v: Vec<char> = Vec::new();
    for c in it: s.chars()
        invariant
            v@ == it.seq().take(it.index()),
            it.seq() == s@,
    {
        v.push(c);
        assert(v@ =~= it.seq().take(it.index() + 1));
    }
    assert(v@ =~= s@);
    v
}

/// The string that consists of the characters of `v`.
pub fn string_of(v: &Vec<char>) -> (s: String)
    ensures
        s@ == v@,
{
    let mut s = String::new();
    let mut i: usize = 0;
    while i < v.len()
        invariant
            i <= v.len(),
            s@ == v@.take(i as int),
        decreases v.len() - i,
    {
        s.push(v[i]);
        assert(v@.take(i + 1) =~= v@.take(i as int).push(v@[i as int]));
        i = i + 1;
    }
    assert(v@.take(i as int) =~= v@);
    s
}

/// The digit for `d` in base sixteen, in upper case.
pub open spec fn upper_digit_char(d: int) -> char {
    if d < 10 {
        (48 + d) as char
    } else {
        (55 + d) as char
    }
}

/// Upper-case hexadecimal numeral of `n`, without leading zeros.
pub open spec fn upper_hex(n: nat) -> Seq<char>
    decreases n,
{
    if n < 16 {
        seq![upper_digit_char(n as int)]
    } else {
        upper_hex(n / 16).push(upper_digit_char((n % 16) as int))
    }
}

fn upper_digit(d: u8) -> (c: char)
    requires
        d < 16,
    ensures
        c == upper_digit_char(d as int),
{
    if d < 10 {
        (48 + d) as char
    } else {
        (55 + d) as char
    }
}

pub fn push_upper_hex(out: &mut String, n: u64)
    ensures
        final(out)@ == old(out)@ + upper_hex(n as nat),
    decreases n,
{
    if n < 16 {
        out.push(upper_digit(n as u8));
        assert(out@ =~= old(out)@ + upper_hex(n as nat));
    } else {
        push_upper_hex(out, n / 16);
        out.push(upper_digit((n % 16) as u8));
        assert(out@ =~= old(out)@ + upper_hex(n as nat));
    }
}

/// Whether `s` begins with `prefix`.
pub open spec fn begins_with(s: Seq<char>, prefix: Seq<char>) -> bool {
    prefix.is_prefix_of(s)
}

pub fn has_prefix(s: &str, prefix: &str) -> (r: bool)
    ensures
        r == begins_with(s@, prefix@),
{
    let a = chars_of(s);
    let b = chars_of(prefix);
    if b.len() > a.len() {
        return false;
    }
    let mut i: usize = 0;
    while i < b.len()
        invariant
            i <= b@.len() <= a@.len(),
            a@ == s@,
            b@ == prefix@,
            forall|k: int| 0 <= k < i ==> a@[k] == b@[k],
        decreases b@.len() - i,
    {
        if a[i] != b[i] {
            assert(s@.subrange(0, b@.len() as int)[i as int] == a@[i as int]);
            return false;
        }
        i = i + 1;
    }
    assert(b@ =~= a@.subrange(0, b@.len() as int));
    true
}

/// Whether a text has no characters.
pub fn is_empty_text(s: &str) -> (r: bool)
    ensures
        r == (s@.len() == 0),
{
    proof {
        reveal_strlit("");
        if s@.len() == 0 {
            assert(s@ =~= ""@);
        }
    }
    same_text(s, "")
}

pub fn empty_string() -> (s: String)
    ensures
        s@ == Seq::<char>::empty(),
{
    let s = String::new();
    assert(s@ =~= Seq::<char>::empty());
    s
}

/// Different numbers have different numerals.
pub proof fn law_numerals_differ(a: nat, b: nat)
    requires
        dec(a) == dec(b),
    ensures
        a == b,
    decreases a,
{
    assert(dec(a).len() > 0 && dec(b).len() > 0);
    if a >= 10 && b >= 10 {
        let x = dec(a / 10);
        let y = dec(b / 10);
        assert(dec(a) == x.push(digit_char((a % 10) as int)));
        assert(dec(b) == y.push(digit_char((b % 10) as int)));
        assert(dec(a).drop_last() =~= x);
        assert(dec(b).drop_last() =~= y);
        assert(dec(a).last() == digit_char((a % 10) as int));
        assert(dec(b).last() == digit_char((b % 10) as int));
        lemma_digits_differ((a % 10) as int, (b % 10) as int);
        law_numerals_differ(a / 10, b / 10);
    } else if a >= 10 || b >= 10 {
        lemma_long(a);
        lemma_long(b);
        assert(false);
    } else {
        assert(dec(a)[0] == digit_char(a as int));
        assert(dec(b)[0] == digit_char(b as int));
        lemma_digits_differ(a as int, b as int);
    }
}

proof fn lemma_long(n: nat)
    ensures
        n < 10 ==> dec(n).len() == 1,
        n >= 10 ==> dec(n).len() >= 2,
    decreases n,
{
    if n >= 10 {
        lemma_long(n / 10);
    }
}

proof fn lemma_digits_differ(a: int, b: int)
    requires
        0 <= a < 10,
        0 <= b < 10,
        digit_char(a) == digit_char(b),
    ensures
        a == b,
{
    assert(digit_char(a) as int == 48 + a);
    assert(digit_char(b) as int == 48 + b);
}

/// A decimal numeral consists of digits.
pub proof fn lemma_dec_digits(n: nat)
    ensures
        dec(n).len() > 0,
        forall|i: int| 0 <= i < dec(n).len() ==> '0' <= #[trigger] dec(n)[i] <= '9',
    decreases n,
{
    if n >= 10 {
        lemma_dec_digits(n / 10);
        let rest = dec(n / 10);
        assert forall|i: int| 0 <= i < dec(n).len() implies '0' <= #[trigger] dec(n)[i] <= '9' by {
            if i < rest.len() {
                assert(dec(n)[i] == rest[i]);
            } else {
                assert(digit_char((n % 10) as int) as int == 48 + n % 10);
            }
        }
    } else {
        assert(digit_char(n as int) as int == 48 + n);
    }
}

/// The number that a hexadecimal numeral stands for.
spec fn unhex(s: Seq<char>) -> int
    decreases s.len(),
{
    if s.len() == 0 {
        0
    } else {
        16 * unhex(s.drop_last()) + if (s.last() as int) < 87 {
            s.last() as int - 48
        } else {
            s.last() as int - 87
        }
    }
}

proof fn lemma_unhex(fill: Seq<char>, n: nat)
    requires
        unhex(fill) == 0,
    ensures
        unhex(fill + hex(n)) == n,
        hex(n).len() > 0,
    decreases n,
{
    let all = fill + hex(n);
    if n < 16 {
        assert(digit_char(n as int) as int == if n < 10 {
            48 + n
        } else {
            87 + n
        });
        assert(all.drop_last() =~= fill);
        assert(all.last() == digit_char(n as int));
    } else {
        lemma_unhex(fill, n / 16);
        let d = (n % 16) as int;
        assert(digit_char(d) as int == if d < 10 {
            48 + d
        } else {
            87 + d
        });
        assert(all.drop_last() =~= fill + hex(n / 16));
        assert(all.last() == digit_char(d));
    }
}

proof fn lemma_unhex_zeros(k: nat)
    ensures
        unhex(zeros(k)) == 0,
    decreases k,
{
    if k > 0 {
        lemma_unhex_zeros((k - 1) as nat);
        assert(zeros(k).drop_last() =~= zeros((k - 1) as nat));
        assert(zeros(k).last() == '0');
    }
}

/// Different numbers have different hexadecimal numerals of one width.
pub proof fn law_hex_numerals_differ(a: nat, b: nat, width: nat)
    requires
        hex_padded(a, width) == hex_padded(b, width),
    ensures
        a == b,
{
    lemma_unhex_padded(a, width);
    lemma_unhex_padded(b, width);
}

proof fn lemma_unhex_padded(n: nat, width: nat)
    ensures
        unhex(hex_padded(n, width)) == n,
{
    if hex(n).len() < width {
        let k = (width - hex(n).len()) as nat;
        lemma_unhex_zeros(k);
        lemma_unhex(zeros(k), n);
    } else {
        lemma_unhex_zeros(0);
        lemma_unhex(zeros(0), n);
        assert(zeros(0) + hex(n) =~= hex(n));
    }
}

/// A hexadecimal numeral consists of digits and the letters up to `f`.
pub proof fn lemma_hex_digits(n: nat, width: nat)
    ensures
        forall|i: int|
            0 <= i < hex_padded(n, width).len() ==> '0' <= #[trigger] hex_padded(n, width)[i] <= 'f',
{
    lemma_hex_letters(n);
    let h = hex(n);
    assert forall|i: int| 0 <= i < hex_padded(n, width).len() implies '0' <= #[trigger] hex_padded(
        n,
        width,
    )[i] <= 'f' by {
        if h.len() < width {
            let k = width - h.len();
            if i >= k {
                assert(hex_padded(n, width)[i] == h[i - k]);
            }
        }
    }
}

proof fn lemma_hex_letters(n: nat)
    ensures
        forall|i: int| 0 <= i < hex(n).len() ==> '0' <= #[trigger] hex(n)[i] <= 'f',
    decreases n,
{
    if n < 16 {
        assert(digit_char(n as int) as int == if n < 10 {
            48 + n
        } else {
            87 + n
        });
    } else {
        lemma_hex_letters(n / 16);
        let rest = hex(n / 16);
        let d = (n % 16) as int;
        assert(digit_char(d) as int == if d < 10 {
            48 + d
        } else {
            87 + d
        });
        assert forall|i: int| 0 <= i < hex(n).len() implies '0' <= #[trigger] hex(n)[i] <= 'f' by {
            if i < rest.len() {
                assert(hex(n)[i] == rest[i]);
            }
        }
    }
}

/// What a digit counts, in either case.
pub open spec fn digit_value(c: char) -> int {
    if '0' <= c <= '9' {
        c as int - '0' as int
    } else if 'a' <= c <= 'f' {
        10 + c as int - 'a' as int
    } else {
        10 + c as int - 'A' as int
    }
}

/// The number that digits stand for in a base, each place counting `base` times the next.
pub open spec fn number(s: Seq<char>, base: int) -> int
    decreases s.len(),
{
    if s.len() == 0 {
        0
    } else {
        number(s.drop_last(), base) * base + digit_value(s.last())
    }
}

/// The number that a decimal numeral with a sign stands for.
pub open spec fn signed_number(s: Seq<char>) -> int {
    if s.len() > 0 && s[0] == '-' {
        -number(s.drop_first(), 10)
    } else {
        number(s, 10)
    }
}

/// A decimal numeral stands for its number, and has no leading zero.
pub proof fn law_decimal_reads_back(n: nat)
    ensures
        number(dec(n), 10) == n,
        dec(n).len() > 0,
        n > 0 ==> dec(n)[0] != '0',
    decreases n,
{
    reveal_with_fuel(number, 2);
    if n < 10 {
        assert(digit_char(n as int) as int == 48 + n);
        assert(dec(n).drop_last() =~= seq![]);
    } else {
        law_decimal_reads_back(n / 10);
        let d = (n % 10) as int;
        assert(digit_char(d) as int == 48 + d);
        assert(dec(n).drop_last() =~= dec(n / 10));
        assert(dec(n)[0] == dec(n / 10)[0]);
    }
}

/// A signed decimal numeral stands for its number.
pub proof fn law_signed_decimal_reads_back(i: int)
    ensures
        signed_number(dec_signed(i)) == i,
{
    if i < 0 {
        law_decimal_reads_back((-i) as nat);
        assert(dec_signed(i).drop_first() =~= dec((-i) as nat));
    } else {
        law_decimal_reads_back(i as nat);
        lemma_dec_digits(i as nat);
        assert('0' <= dec(i as nat)[0]);
    }
}

proof fn lemma_padded_number(fill: Seq<char>, n: nat)
    requires
        number(fill, 16) == 0,
    ensures
        number(fill + hex(n), 16) == n,
    decreases n,
{
    let all = fill + hex(n);
    let d = (n % 16) as int;
    assert(digit_char(d) as int == if d < 10 {
        48 + d
    } else {
        87 + d
    });
    assert(digit_value(digit_char(d)) == d);
    if n < 16 {
        assert(all.drop_last() =~= fill);
        assert(all.last() == digit_char(n as int));
    } else {
        lemma_padded_number(fill, n / 16);
        assert(all.drop_last() =~= fill + hex(n / 16));
        assert(all.last() == digit_char(d));
    }
}

proof fn lemma_zeros_number(k: nat)
    ensures
        number(zeros(k), 16) == 0,
    decreases k,
{
    if k > 0 {
        lemma_zeros_number((k - 1) as nat);
        assert(zeros(k).drop_last() =~= zeros((k - 1) as nat));
        assert(zeros(k).last() == '0');
    }
}

/// A hexadecimal numeral stands for its number, and is as wide as asked for.
pub proof fn law_hex_reads_back(n: nat, width: nat)
    ensures
        number(hex_padded(n, width), 16) == n,
        hex_padded(n, width).len() >= width,
{
    let k = if hex(n).len() < width {
        (width - hex(n).len()) as nat
    } else {
        0
    };
    lemma_zeros_number(k);
    lemma_padded_number(zeros(k), n);
    assert(zeros(0) + hex(n) =~= hex(n));
}

/// An upper-case hexadecimal numeral stands for its number.
pub proof fn law_upper_hex_reads_back(n: nat)
    ensures
        number(upper_hex(n), 16) == n,
        upper_hex(n).len() > 0,
    decreases n,
{
    reveal_with_fuel(number, 2);
    let d = (n % 16) as int;
    assert(upper_digit_char(d) as int == if d < 10 {
        48 + d
    } else {
        55 + d
    });
    assert(digit_value(upper_digit_char(d)) == d);
    if n < 16 {
        assert(upper_hex(n).drop_last() =~= seq![]);
    } else {
        law_upper_hex_reads_back(n / 16);
        assert(upper_hex(n).drop_last() =~= upper_hex(n / 16));
    }
}

} // verus!

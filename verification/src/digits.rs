//! Decimal rendering and parsing of the year, month and day numbers that
//! appear inside file and directory names.

use vstd::prelude::*;
use crate::chars::is_digit;

verus! {

/// The character for a single decimal digit.
pub open spec fn digit_char(d: int) -> char {
    if d == 0 { '0' }
    else if d == 1 { '1' }
    else if d == 2 { '2' }
    else if d == 3 { '3' }
    else if d == 4 { '4' }
    else if d == 5 { '5' }
    else if d == 6 { '6' }
    else if d == 7 { '7' }
    else if d == 8 { '8' }
    else { '9' }
}

/// The value of a digit character.
pub open spec fn char_val(c: char) -> int {
    c as int - '0' as int
}

/// The decimal digits of a non-negative number, most significant first.
pub open spec fn dec_nat(n: nat) -> Seq<char>
    decreases n,
{
    if n < 10 {
        seq![digit_char(n as int)]
    } else {
        dec_nat(n / 10) + seq![digit_char((n % 10) as int)]
    }
}

/// A signed number as `i32::to_string` renders it.
pub open spec fn dec_int(n: int) -> Seq<char> {
    if n < 0 {
        seq!['-'] + dec_nat((-n) as nat)
    } else {
        dec_nat(n as nat)
    }
}

/// A number zero-padded to at least two digits.
pub open spec fn pad2(n: nat) -> Seq<char> {
    if n < 10 {
        seq!['0'] + dec_nat(n)
    } else {
        dec_nat(n)
    }
}

/// A number zero-padded to at least four digits.
pub open spec fn pad4(n: nat) -> Seq<char> {
    if n < 10 {
        seq!['0', '0', '0'] + dec_nat(n)
    } else if n < 100 {
        seq!['0', '0'] + dec_nat(n)
    } else if n < 1000 {
        seq!['0'] + dec_nat(n)
    } else {
        dec_nat(n)
    }
}

/// Every character is a decimal digit.
pub open spec fn all_digits(s: Seq<char>) -> bool {
    forall|i: int| 0 <= i < s.len() ==> is_digit(s[i])
}

/// The number the digit string denotes.
pub open spec fn digits_val(s: Seq<char>) -> nat
    decreases s.len(),
{
    if s.len() == 0 {
        0
    } else {
        digits_val(s.drop_last()) * 10 + (if char_val(s.last()) >= 0 { char_val(s.last()) as nat } else { 0 })
    }
}

pub fn digit_char_exec(d: u32) -> (c: char)
    requires
        d < 10,
    ensures
        c == digit_char(d as int),
{
    if d == 0 { '0' }
    else if d == 1 { '1' }
    else if d == 2 { '2' }
    else if d == 3 { '3' }
    else if d == 4 { '4' }
    else if d == 5 { '5' }
    else if d == 6 { '6' }
    else if d == 7 { '7' }
    else if d == 8 { '8' }
    else { '9' }
}

/// The decimal digits of `n`.
pub fn u32_chars(n: u32) -> (r: Vec<char>)
    ensures
        r@ == dec_nat(n as nat),
    decreases n,
{
    if n < 10 {
        let mut v: Vec<char> = Vec::new();
        v.push(digit_char_exec(n));
        proof {
            assert(v@ =~= dec_nat(n as nat));
        }
        v
    } else {
        let mut v = u32_chars(n / 10);
        v.push(digit_char_exec(n % 10));
        proof {
            assert(v@ =~= dec_nat((n / 10) as nat) + seq![digit_char((n % 10) as int)]);
            assert((n as nat) / 10 == (n / 10) as nat);
            assert((n as nat) % 10 == (n % 10) as nat);
        }
        v
    }
}

/// The digits of `n` as `i32::to_string` renders them.
pub fn i32_chars(n: i32) -> (r: Vec<char>)
    ensures
        r@ == dec_int(n as int),
{
    if n < 0 {
        let mag: u32 = (-(n as i64)) as u32;
        let mut v: Vec<char> = Vec::new();
        v.push('-');
        let digits = u32_chars(mag);
        let mut i: usize = 0;
        while i < digits.len()
            invariant
                i <= digits@.len(),
                v@ == seq!['-'] + digits@.take(i as int),
            decreases digits@.len() - i,
        {
            v.push(digits[i]);
            proof {
                assert(v@ =~= seq!['-'] + digits@.take(i + 1));
            }
            i = i + 1;
        }
        proof {
            assert(digits@.take(digits@.len() as int) =~= digits@);
            assert(mag as nat == (-(n as int)) as nat);
        }
        v
    } else {
        u32_chars(n as u32)
    }
}

/// `n` zero-padded to at least two digits, as `format!("{:02}")` renders it.
pub fn pad2_chars(n: u32) -> (r: Vec<char>)
    ensures
        r@ == pad2(n as nat),
{
    if n < 10 {
        let mut v: Vec<char> = Vec::new();
        v.push('0');
        v.push(digit_char_exec(n));
        proof {
            assert(v@ =~= pad2(n as nat));
        }
        v
    } else {
        u32_chars(n)
    }
}

/// `n` zero-padded to at least four digits, as `format!("{:04}")` renders it.
pub fn pad4_chars(n: u32) -> (r: Vec<char>)
    ensures
        r@ == pad4(n as nat),
{
    let digits = u32_chars(n);
    let mut v: Vec<char> = Vec::new();
    if n < 10 {
        v.push('0');
        v.push('0');
        v.push('0');
    } else if n < 100 {
        v.push('0');
        v.push('0');
    } else if n < 1000 {
        v.push('0');
    }
    let ghost zeros = v@;
    let mut i: usize = 0;
    while i < digits.len()
        invariant
            i <= digits@.len(),
            v@ == zeros + digits@.take(i as int),
        decreases digits@.len() - i,
    {
        v.push(digits[i]);
        proof {
            assert(v@ =~= zeros + digits@.take(i + 1));
        }
        i = i + 1;
    }
    proof {
        assert(digits@.take(digits@.len() as int) =~= digits@);
        assert(v@ =~= pad4(n as nat));
    }
    v
}

/// Extending a digit string by one character multiplies its value by ten.
proof fn lemma_digits_val_step(s: Seq<char>, i: int)
    requires
        0 <= i < s.len(),
    ensures
        digits_val(s.take(i + 1)) == digits_val(s.take(i)) * 10
            + (if char_val(s[i]) >= 0 { char_val(s[i]) as nat } else { 0 }),
{
    assert(s.take(i + 1).drop_last() =~= s.take(i));
    assert(s.take(i + 1).last() == s[i]);
}

/// Reading further digits never shrinks the value.
proof fn lemma_digits_val_mono(s: Seq<char>, i: int, j: int)
    requires
        0 <= i <= j <= s.len(),
    ensures
        digits_val(s.take(i)) <= digits_val(s.take(j)),
    decreases j - i,
{
    if i < j {
        lemma_digits_val_mono(s, i, j - 1);
        lemma_digits_val_step(s, j - 1);
    }
}

/// The character for a hexadecimal digit, lowercase.
pub open spec fn hex_char(d: int) -> char {
    if d == 0 { '0' }
    else if d == 1 { '1' }
    else if d == 2 { '2' }
    else if d == 3 { '3' }
    else if d == 4 { '4' }
    else if d == 5 { '5' }
    else if d == 6 { '6' }
    else if d == 7 { '7' }
    else if d == 8 { '8' }
    else if d == 9 { '9' }
    else if d == 10 { 'a' }
    else if d == 11 { 'b' }
    else if d == 12 { 'c' }
    else if d == 13 { 'd' }
    else if d == 14 { 'e' }
    else { 'f' }
}

/// The lowercase hexadecimal digits of a number, most significant first.
pub open spec fn hex_nat(n: nat) -> Seq<char>
    decreases n,
{
    if n < 16 {
        seq![hex_char(n as int)]
    } else {
        hex_nat(n / 16) + seq![hex_char((n % 16) as int)]
    }
}

/// Hexadecimal zero-padded to at least eight digits, as `{:08x}`
/// renders it.
pub open spec fn hex8(n: nat) -> Seq<char> {
    if hex_nat(n).len() >= 8 {
        hex_nat(n)
    } else {
        Seq::new((8 - hex_nat(n).len()) as nat, |i: int| '0') + hex_nat(n)
    }
}

fn hex_char_exec(d: u64) -> (c: char)
    requires
        d < 16,
    ensures
        c == hex_char(d as int),
{
    if d == 0 { '0' }
    else if d == 1 { '1' }
    else if d == 2 { '2' }
    else if d == 3 { '3' }
    else if d == 4 { '4' }
    else if d == 5 { '5' }
    else if d == 6 { '6' }
    else if d == 7 { '7' }
    else if d == 8 { '8' }
    else if d == 9 { '9' }
    else if d == 10 { 'a' }
    else if d == 11 { 'b' }
    else if d == 12 { 'c' }
    else if d == 13 { 'd' }
    else if d == 14 { 'e' }
    else { 'f' }
}

/// The lowercase hexadecimal digits of `n`.
fn u64_hex_chars(n: u64) -> (r: Vec<char>)
    ensures
        r@ == hex_nat(n as nat),
    decreases n,
{
    if n < 16 {
        let mut v: Vec<char> = Vec::new();
        v.push(hex_char_exec(n));
        proof {
            assert(v@ =~= hex_nat(n as nat));
        }
        v
    } else {
        let mut v = u64_hex_chars(n / 16);
        v.push(hex_char_exec(n % 16));
        proof {
            assert(v@ =~= hex_nat((n / 16) as nat) + seq![hex_char((n % 16) as int)]);
            assert((n as nat) / 16 == (n / 16) as nat);
            assert((n as nat) % 16 == (n % 16) as nat);
        }
        v
    }
}

/// `n` in lowercase hexadecimal, zero-padded to at least eight digits,
/// as `format!("{:08x}")` renders it.
pub fn hex8_chars(n: u64) -> (r: Vec<char>)
    ensures
        r@ == hex8(n as nat),
{
    let digits = u64_hex_chars(n);
    let dn = digits.len();
    let mut v: Vec<char> = Vec::new();
    let mut k: usize = dn;
    while k < 8
        invariant
            dn <= k,
            k <= 8 || k == dn,
            v@.len() == k - dn,
            forall|i: int| 0 <= i < v@.len() ==> v@[i] == '0',
        decreases 8 - k,
    {
        v.push('0');
        k = k + 1;
    }
    proof {
        if dn < 8 {
            assert(v@ =~= Seq::new((8 - dn) as nat, |i: int| '0'));
        } else {
            assert(v@ =~= Seq::<char>::empty());
        }
    }
    crate::chars::push_seq(&mut v, &digits);
    proof {
        if dn < 8 {
            assert(v@ =~= hex8(n as nat));
        } else {
            assert(Seq::<char>::empty() + digits@ =~= digits@);
            assert(v@ =~= hex8(n as nat));
        }
    }
    v
}

/// A rendered number is one or more digit characters.
pub proof fn lemma_dec_nat_digits(n: nat)
    ensures
        dec_nat(n).len() > 0,
        all_digits(dec_nat(n)),
    decreases n,
{
    if n < 10 {
        assert(is_digit(digit_char(n as int)));
        assert(forall|i: int| 0 <= i < dec_nat(n).len() ==> is_digit(dec_nat(n)[i]));
    } else {
        lemma_dec_nat_digits(n / 10);
        let head = dec_nat(n / 10);
        let whole = head + seq![digit_char((n % 10) as int)];
        assert(is_digit(digit_char((n % 10) as int)));
        assert forall|i: int| 0 <= i < whole.len() implies is_digit(whole[i]) by {
            if i < head.len() {
                assert(whole[i] == head[i]);
            }
        }
    }
}

/// A number up to 99 zero-pads to exactly two digit characters.
pub proof fn lemma_pad2_shape(n: nat)
    requires
        n <= 99,
    ensures
        pad2(n).len() == 2,
        is_digit(pad2(n)[0]),
        is_digit(pad2(n)[1]),
{
    lemma_dec_nat_digits(n);
    if n < 10 {
        assert(pad2(n)[0] == '0');
        assert(pad2(n)[1] == dec_nat(n)[0]);
    } else {
        assert(dec_nat(n) == dec_nat(n / 10) + seq![digit_char((n % 10) as int)]);
        lemma_dec_nat_digits(n / 10);
        assert(dec_nat(n / 10).len() == 1);
        assert(pad2(n)[0] == dec_nat(n / 10)[0]);
    }
}

/// At most four digit characters denote at most 9999.
pub proof fn lemma_digits_val_bound(s: Seq<char>)
    requires
        all_digits(s),
    ensures
        s.len() == 0 ==> digits_val(s) == 0,
        s.len() == 1 ==> digits_val(s) <= 9,
        s.len() == 2 ==> digits_val(s) <= 99,
        s.len() == 3 ==> digits_val(s) <= 999,
        s.len() == 4 ==> digits_val(s) <= 9999,
    decreases s.len(),
{
    if s.len() > 0 {
        assert forall|i: int| 0 <= i < s.len() - 1 implies is_digit(#[trigger] s.drop_last()[i])
            by {
            assert(s.drop_last()[i] == s[i]);
        }
        lemma_digits_val_bound(s.drop_last());
        assert(char_val(s.last()) <= 9);
    }
}

/// Parses a string of decimal digits.  Returns the value exactly when the
/// string is non-empty, entirely made of digits, and small enough.
pub fn parse_u32(s: &Vec<char>) -> (r: Option<u32>)
    ensures
        r.is_some() <==> (s@.len() > 0 && all_digits(s@) && digits_val(s@) <= u32::MAX),
        r matches Some(k) ==> k as nat == digits_val(s@),
{
    let n = s.len();
    if n == 0 {
        return None;
    }
    let mut acc: u64 = 0;
    let mut i: usize = 0;
    while i < n
        invariant
            i <= n,
            n == s@.len(),
            forall|x: int| 0 <= x < i ==> is_digit(s@[x]),
            acc as nat == digits_val(s@.take(i as int)),
            acc <= u32::MAX,
        decreases n - i,
    {
        let c = s[i];
        if !('0' <= c && c <= '9') {
            return None;
        }
        let d: u64 = (c as u32 - '0' as u32) as u64;
        proof {
            lemma_digits_val_step(s@, i as int);
        }
        acc = acc * 10 + d;
        i = i + 1;
        if acc > u32::MAX as u64 {
            proof {
                lemma_digits_val_mono(s@, i as int, n as int);
                assert(s@.take(n as int) =~= s@);
            }
            return None;
        }
    }
    proof {
        assert(s@.take(n as int) =~= s@);
    }
    Some(acc as u32)
}

} // verus!

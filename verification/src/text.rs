//! Characters of a text, and numbers written in decimal and hexadecimal.

use vstd::prelude::*;

use crate::order;

verus! {

broadcast use vstd::string::group_string_axioms;

/// `String::push` adds one character at the end of the string.
pub assume_specification[ String::push ](s: &mut String, c: char)
    ensures
        final(s)@ == old(s)@.push(c),
;

/// The characters of `s`.
pub fn chars_of(s: &str) -> (out: Vec<char>)
    ensures
        out@ == s@,
{
    let mut out: Vec<char> = Vec::new();
    for c in it: s.chars()
        invariant
            it.seq() == s@,
            out@ == s@.take(it.index() as int),
    {
        out.push(c);
        assert(out@ =~= s@.take(it.index() + 1));
    }
    assert(s@.take(s@.len() as int) =~= s@);
    out
}

/// Whether the two texts are the same.
pub fn same_text(a: &str, b: &str) -> (same: bool)
    ensures
        same == (a@ == b@),
{
    let x = chars_of(a);
    let y = chars_of(b);
    if x.len() != y.len() {
        return false;
    }
    let mut i: usize = 0;
    while i < x.len()
        invariant
            x@ == a@,
            y@ == b@,
            x@.len() == y@.len(),
            i <= x@.len(),
            forall|j: int| 0 <= j < i ==> x@[j] == y@[j],
        decreases x@.len() - i,
    {
        if x[i] != y[i] {
            return false;
        }
        i += 1;
    }
    assert(x@ =~= y@);
    true
}

/// The string made of `chars[from..to]`.
pub fn string_of(chars: &[char], from: usize, to: usize) -> (out: String)
    requires
        from <= to <= chars@.len(),
    ensures
        out@ == chars@.subrange(from as int, to as int),
{
    let mut out = String::new();
    let mut i: usize = from;
    while i < to
        invariant
            from <= i <= to <= chars@.len(),
            out@ == chars@.subrange(from as int, i as int),
        decreases to - i,
    {
        out.push(chars[i]);
        i += 1;
        assert(out@ =~= chars@.subrange(from as int, i as int));
    }
    out
}

/// The decimal digit of value `d`.
pub open spec fn digit_char(d: int) -> char
    recommends
        0 <= d < 10,
{
    ('0' as int + d) as char
}

/// `n` in decimal, without leading zeros.
pub open spec fn decimal(n: nat) -> Seq<char>
    decreases n,
{
    if n < 10 {
        seq![digit_char(n as int)]
    } else {
        decimal(n / 10).push(digit_char((n % 10) as int))
    }
}

/// `n` in decimal, filled with zeros on the left up to `width` characters.
pub open spec fn padded(n: nat, width: nat) -> Seq<char> {
    let digits = decimal(n);
    if digits.len() >= width {
        digits
    } else {
        Seq::new((width - digits.len()) as nat, |i: int| '0') + digits
    }
}

/// `10` to the power `n`.
pub open spec fn pow10(n: nat) -> nat
    decreases n,
{
    if n == 0 {
        1
    } else {
        10 * pow10((n - 1) as nat)
    }
}

/// A number that fits into `width` digits is filled up to exactly that many, of which the
/// last one is the number's own.
proof fn lemma_padded_step(n: nat, width: nat)
    requires
        width > 0,
        n < pow10(width),
    ensures
        padded(n, width).len() == width,
        width > 1 ==> padded(n, width) == padded(n / 10, (width - 1) as nat).push(
            digit_char((n % 10) as int),
        ),
    decreases width,
{
    if width > 1 {
        lemma_padded_step(n / 10, (width - 1) as nat);
        if n < 10 {
            assert(n / 10 == 0);
            assert(decimal(0).len() == 1);
            assert(padded(n, width) =~= padded(0, (width - 1) as nat).push(digit_char(n as int)));
        } else {
            assert(padded(n, width) =~= padded(n / 10, (width - 1) as nat).push(
                digit_char((n % 10) as int),
            ));
        }
    } else {
        assert(pow10(0) == 1);
    }
}

/// Numbers that are filled up to the same width stand in the order of their texts.
pub proof fn lemma_padded_order(m: nat, n: nat, width: nat)
    requires
        width > 0,
        m < n < pow10(width),
    ensures
        order::lex_less(|p: char, q: char| p < q, padded(m, width), padded(n, width)),
        padded(m, width).len() == width,
        padded(n, width).len() == width,
    decreases width,
{
    let less = |p: char, q: char| p < q;
    lemma_padded_step(m, width);
    lemma_padded_step(n, width);
    let x = seq![digit_char((m % 10) as int)];
    let y = seq![digit_char((n % 10) as int)];
    if width == 1 {
        assert(pow10(0) == 1);
        assert(padded(m, 1) =~= x);
        assert(padded(n, 1) =~= y);
    } else {
        let a = padded(m / 10, (width - 1) as nat);
        let b = padded(n / 10, (width - 1) as nat);
        lemma_padded_step(m / 10, (width - 1) as nat);
        lemma_padded_step(n / 10, (width - 1) as nat);
        assert(padded(m, width) =~= a + x);
        assert(padded(n, width) =~= b + y);
        order::lemma_lex_concat(less, a, x, b, y);
        if m / 10 < n / 10 {
            lemma_padded_order(m / 10, n / 10, (width - 1) as nat);
        }
    }
}

/// The characters of `n` in decimal.
fn decimal_chars(n: u128) -> (out: Vec<char>)
    ensures
        out@ == decimal(n as nat),
    decreases n,
{
    let mut out: Vec<char> = if n >= 10 {
        decimal_chars(n / 10)
    } else {
        Vec::new()
    };
    let d: u8 = (n % 10) as u8;
    out.push((48u8 + d) as char);
    assert(out@ =~= decimal(n as nat));
    out
}

fn push_chars(out: &mut String, chars: &[char])
    ensures
        final(out)@ == old(out)@ + chars@,
{
    let mut i: usize = 0;
    while i < chars.len()
        invariant
            i <= chars@.len(),
            out@ == old(out)@ + chars@.take(i as int),
        decreases chars@.len() - i,
    {
        out.push(chars[i]);
        i += 1;
        assert(out@ =~= old(out)@ + chars@.take(i as int));
    }
    assert(chars@.take(i as int) =~= chars@);
}

/// Appends `n` in decimal.
pub fn push_decimal(out: &mut String, n: u128)
    ensures
        final(out)@ == old(out)@ + decimal(n as nat),
{
    let digits = decimal_chars(n);
    push_chars(out, digits.as_slice());
}

/// Appends `n` in decimal, zero-filled to at least `width` characters.
pub fn push_padded(out: &mut String, n: u128, width: usize)
    ensures
        final(out)@ == old(out)@ + padded(n as nat, width as nat),
{
    let digits = decimal_chars(n);
    let mut filled: usize = digits.len();
    while filled < width
        invariant
            digits@ == decimal(n as nat),
            digits@.len() <= filled,
            digits@.len() < width ==> filled <= width,
            digits@.len() >= width ==> filled == digits@.len(),
            out@ == old(out)@ + Seq::new((filled - digits@.len()) as nat, |i: int| '0'),
        decreases width - filled,
    {
        out.push('0');
        filled += 1;
        assert(out@ =~= old(out)@ + Seq::new((filled - digits@.len()) as nat, |i: int| '0'));
    }
    push_chars(out, digits.as_slice());
    assert(out@ =~= old(out)@ + padded(n as nat, width as nat));
}

/// Whether `c` is one of `0` to `9`.
pub open spec fn is_digit(c: char) -> bool {
    '0' <= c && c <= '9'
}

/// The number that a run of decimal digits denotes.
pub open spec fn digits_value(s: Seq<char>) -> nat
    decreases s.len(),
{
    if s.len() == 0 {
        0
    } else {
        digits_value(s.drop_last()) * 10 + (s.last() as nat - '0' as nat) as nat
    }
}

/// `s` without one leading `+`.
pub open spec fn strip_plus(s: Seq<char>) -> Seq<char> {
    if s.len() > 0 && s[0] == '+' {
        s.skip(1)
    } else {
        s
    }
}

/// The `u32` that `s` denotes: an optional `+`, then at least one decimal digit
/// and nothing else, with a value that fits.
pub open spec fn u32_of(s: Seq<char>) -> Option<u32> {
    let digits = strip_plus(s);
    if digits.len() > 0 && (forall|i: int| 0 <= i < digits.len() ==> is_digit(#[trigger] digits[i]))
        && digits_value(digits) <= u32::MAX {
        Some(digits_value(digits) as u32)
    } else {
        None
    }
}

proof fn lemma_digits_value_mono(s: Seq<char>, i: int)
    requires
        0 <= i <= s.len(),
        forall|j: int| 0 <= j < s.len() ==> is_digit(#[trigger] s[j]),
    ensures
        digits_value(s.take(i)) <= digits_value(s),
    decreases s.len(),
{
    if i < s.len() {
        lemma_digits_value_mono(s.drop_last(), i);
        assert(s.drop_last().take(i) =~= s.take(i));
    } else {
        assert(s.take(i) =~= s);
    }
}

/// A number written in decimal is read back.
pub proof fn lemma_decimal_roundtrip(n: nat)
    ensures
        decimal(n).len() > 0,
        forall|i: int| 0 <= i < decimal(n).len() ==> is_digit(#[trigger] decimal(n)[i]),
        digits_value(decimal(n)) == n,
        n <= u32::MAX ==> u32_of(decimal(n)) == Some(n as u32),
    decreases n,
{
    let all = decimal(n);
    if n < 10 {
        assert(all.drop_last() =~= Seq::<char>::empty());
        assert(digits_value(all.drop_last()) == 0);
    } else {
        lemma_decimal_roundtrip(n / 10);
        let rest = decimal(n / 10);
        assert(all.drop_last() =~= rest);
        assert forall|i: int| 0 <= i < all.len() implies is_digit(#[trigger] all[i]) by {
            if i < rest.len() {
                assert(all[i] == rest[i]);
            }
        }
    }
    assert(is_digit(all[0]));
    assert(strip_plus(all) == all);
}

/// Parses a `u32` from `chars[from..to]`.
pub fn parse_u32(chars: &[char], from: usize, to: usize) -> (out: Option<u32>)
    requires
        from <= to <= chars@.len(),
    ensures
        out == u32_of(chars@.subrange(from as int, to as int)),
{
    let ghost s = chars@.subrange(from as int, to as int);
    let first: usize = if from < to && chars[from] == '+' {
        from + 1
    } else {
        from
    };
    let ghost digits = strip_plus(s);
    assert(digits =~= chars@.subrange(first as int, to as int));
    if first == to {
        return None;
    }
    let mut value: u64 = 0;
    let mut i: usize = first;
    while i < to
        invariant
            first <= i <= to <= chars@.len(),
            digits == chars@.subrange(first as int, to as int),
            digits == strip_plus(s),
            digits.len() > 0,
            value == digits_value(digits.take(i - first)),
            value <= u32::MAX,
            forall|j: int| 0 <= j < i - first ==> is_digit(#[trigger] digits[j]),
            s == chars@.subrange(from as int, to as int),
        decreases to - i,
    {
        let c = chars[i];
        assert(c == digits[i - first]);
        if !('0' <= c && c <= '9') {
            return None;
        }
        value = value * 10 + (c as u64 - '0' as u64);
        assert(digits.take(i + 1 - first).drop_last() =~= digits.take(i - first));
        if value > u32::MAX as u64 {
            proof {
                if forall|j: int| 0 <= j < digits.len() ==> is_digit(#[trigger] digits[j]) {
                    lemma_digits_value_mono(digits, i + 1 - first);
                }
            }
            return None;
        }
        i += 1;
    }
    assert(digits.take(i - first) =~= digits);
    Some(value as u32)
}

/// The lowercase hexadecimal digit of value `d`.
pub open spec fn hex_char(d: int) -> char
    recommends
        0 <= d < 16,
{
    if d < 10 {
        ('0' as int + d) as char
    } else {
        ('a' as int + (d - 10)) as char
    }
}

/// The last `width` hexadecimal digits of `n`, most significant first.
pub open spec fn hex_digits(n: nat, width: nat) -> Seq<char>
    decreases width,
{
    if width == 0 {
        seq![]
    } else {
        hex_digits(n / 16, (width - 1) as nat).push(hex_char((n % 16) as int))
    }
}

/// Whether `c` is a hexadecimal digit of either case.
pub open spec fn is_hex(c: char) -> bool {
    ('0' <= c && c <= '9') || ('a' <= c && c <= 'f') || ('A' <= c && c <= 'F')
}

/// The value of one hexadecimal digit.
pub open spec fn hex_value(c: char) -> nat
    recommends
        is_hex(c),
{
    if '0' <= c && c <= '9' {
        (c as int - '0' as int) as nat
    } else if 'a' <= c && c <= 'f' {
        (c as int - 'a' as int + 10) as nat
    } else {
        (c as int - 'A' as int + 10) as nat
    }
}

/// The number that a run of hexadecimal digits denotes.
pub open spec fn hex_number(s: Seq<char>) -> nat
    decreases s.len(),
{
    if s.len() == 0 {
        0
    } else {
        hex_number(s.drop_last()) * 16 + hex_value(s.last())
    }
}

/// `16` to the power `n`.
pub open spec fn pow16(n: nat) -> nat
    decreases n,
{
    if n == 0 {
        1
    } else {
        16 * pow16((n - 1) as nat)
    }
}

/// Hexadecimal digits denote the number they were made from.
pub proof fn lemma_hex_roundtrip(n: nat, width: nat)
    requires
        n < pow16(width),
    ensures
        hex_number(hex_digits(n, width)) == n,
        hex_digits(n, width).len() == width,
        forall|i: int| 0 <= i < width ==> is_hex(#[trigger] hex_digits(n, width)[i]),
        forall|i: int| 0 <= i < width ==> !('A' <= #[trigger] hex_digits(n, width)[i] <= 'F'),
    decreases width,
{
    if width > 0 {
        lemma_hex_roundtrip(n / 16, (width - 1) as nat);
        let rest = hex_digits(n / 16, (width - 1) as nat);
        let all = hex_digits(n, width);
        assert(all.drop_last() =~= rest);
        assert(all.last() == hex_char((n % 16) as int));
        assert(hex_value(all.last()) == n % 16);
        assert forall|i: int| 0 <= i < width implies is_hex(#[trigger] all[i]) && !('A' <= all[i] <= 'F') by {
            if i < width - 1 {
                assert(all[i] == rest[i]);
            }
        }
    }
}

proof fn lemma_hex_number_bound(s: Seq<char>)
    requires
        forall|i: int| 0 <= i < s.len() ==> is_hex(#[trigger] s[i]),
    ensures
        hex_number(s) < pow16(s.len()),
    decreases s.len(),
{
    if s.len() > 0 {
        assert forall|i: int| 0 <= i < s.drop_last().len() implies is_hex(#[trigger] s.drop_last()[i]) by {
            assert(is_hex(s[i]));
        }
        lemma_hex_number_bound(s.drop_last());
        assert(is_hex(s[s.len() - 1]));
    }
}

proof fn lemma_pow16_mono(m: nat, n: nat)
    requires
        m <= n,
    ensures
        1 <= pow16(m) <= pow16(n),
    decreases n,
{
    if m < n {
        lemma_pow16_mono(m, (n - 1) as nat);
    } else if n > 0 {
        lemma_pow16_mono((m - 1) as nat, (n - 1) as nat);
    }
}

proof fn lemma_pow16_16()
    ensures
        pow16(16) == 0x1_0000_0000_0000_0000,
{
    reveal_with_fuel(pow16, 17);
}

fn push_hex(out: &mut String, n: u64, width: usize)
    ensures
        final(out)@ == old(out)@ + hex_digits(n as nat, width as nat),
    decreases width,
{
    if width > 0 {
        push_hex(out, n / 16, width - 1);
        let d: u8 = (n % 16) as u8;
        let c: char = if d < 10 {
            (48u8 + d) as char
        } else {
            (87u8 + d) as char
        };
        out.push(c);
        assert(out@ =~= old(out)@ + hex_digits(n as nat, width as nat));
    } else {
        assert(out@ =~= old(out)@ + hex_digits(n as nat, width as nat));
    }
}

/// `hash` as 16 lowercase hexadecimal digits.
pub fn hex16(hash: u64) -> (out: String)
    ensures
        out@ == hex_digits(hash as nat, 16),
{
    let mut out = String::new();
    push_hex(&mut out, hash, 16);
    assert(out@ =~= hex_digits(hash as nat, 16));
    out
}

/// The 64-bit hash that a stored text denotes: 16 characters, an optional `+`,
/// then hexadecimal digits only.
pub open spec fn hash_of(s: Seq<char>) -> Option<u64> {
    let digits = strip_plus(s);
    if s.len() == 16 && (forall|i: int|
        0 <= i < digits.len() ==> is_hex(#[trigger] digits[i])) {
        Some(hex_number(digits) as u64)
    } else {
        None
    }
}

/// Every hash text that `hex16` writes is read back as the same hash.
pub proof fn lemma_hash_roundtrip(hash: u64)
    ensures
        hash_of(hex_digits(hash as nat, 16)) == Some(hash),
{
    lemma_pow16_16();
    lemma_hex_roundtrip(hash as nat, 16);
    let s = hex_digits(hash as nat, 16);
    assert(is_hex(s[0]));
    assert(strip_plus(s) == s);
}

/// A hash written by `hex16` is never shared by two hashes.
pub proof fn lemma_hex16_injective(a: u64, b: u64)
    ensures
        hex_digits(a as nat, 16) == hex_digits(b as nat, 16) ==> a == b,
{
    lemma_hash_roundtrip(a);
    lemma_hash_roundtrip(b);
}

/// Parses a hash written as 16 hexadecimal digits; `None` for anything else.
pub fn parse_hash(hex: &str) -> (out: Option<u64>)
    ensures
        out == hash_of(hex@),
{
    let chars = chars_of(hex);
    if chars.len() != 16 {
        return None;
    }
    let first: usize = if chars[0] == '+' {
        1
    } else {
        0
    };
    let ghost digits = strip_plus(hex@);
    assert(digits =~= chars@.subrange(first as int, 16));
    let mut value: u64 = 0;
    let mut i: usize = first;
    while i < 16
        invariant
            first <= i <= 16,
            first == 0 || first == 1,
            chars@ == hex@,
            chars@.len() == 16,
            digits == chars@.subrange(first as int, 16),
            digits == strip_plus(hex@),
            value == hex_number(digits.take(i - first)),
            forall|j: int| 0 <= j < i - first ==> is_hex(#[trigger] digits[j]),
        decreases 16 - i,
    {
        let c = chars[i];
        assert(c == digits[i - first]);
        let d: u64 = if '0' <= c && c <= '9' {
            c as u64 - 48
        } else if 'a' <= c && c <= 'f' {
            c as u64 - 87
        } else if 'A' <= c && c <= 'F' {
            c as u64 - 55
        } else {
            return None;
        };
        proof {
            let head = digits.take(i + 1 - first);
            assert(head.drop_last() =~= digits.take(i - first));
            lemma_hex_number_bound(head);
            lemma_pow16_mono(head.len(), 16);
            lemma_pow16_16();
            assert(hex_number(head) == value * 16 + d);
        }
        value = value * 16 + d;
        i += 1;
    }
    assert(digits.take(i - first) =~= digits);
    Some(value)
}

/// A number is written digit by digit, without leading zeros.
pub proof fn lemma_decimal_digits(n: nat, d: nat)
    requires
        d < 10,
    ensures
        decimal(d) == seq![(48 + d) as char],
        n > 0 ==> decimal(10 * n + d) == decimal(n).push((48 + d) as char),
{
    if n > 0 {
        assert((10 * n + d) / 10 == n);
        assert((10 * n + d) % 10 == d);
    }
}

proof fn lemma_leading_zeros(s: Seq<char>, zeros: nat)
    ensures
        digits_value(Seq::new(zeros, |i: int| '0') + s) == digits_value(s),
    decreases s.len(), zeros,
{
    let z = Seq::new(zeros, |i: int| '0');
    if s.len() > 0 {
        lemma_leading_zeros(s.drop_last(), zeros);
        assert((z + s).drop_last() =~= z + s.drop_last());
    } else if zeros > 0 {
        let y = Seq::new((zeros - 1) as nat, |i: int| '0');
        lemma_leading_zeros(s, (zeros - 1) as nat);
        assert((z + s).drop_last() =~= y + s);
    } else {
        assert(z + s =~= s);
    }
}

/// A number is read whether or not it has leading zeros or a plus sign, if it fits; one that
/// does not fit is refused, and so is a text with any character that is no digit.
pub proof fn lemma_u32_is_read(n: nat, zeros: nat, plus: bool, s: Seq<char>, at: int)
    ensures
        ({
            let text = (if plus {
                seq!['+']
            } else {
                seq![]
            }) + Seq::new(zeros, |i: int| '0') + decimal(n);
            u32_of(text) == if n <= 0xffff_ffff {
                Some(n as u32)
            } else {
                None
            }
        }),
        s.len() == 0 ==> u32_of(s) is None,
        s == seq!['+'] ==> u32_of(s) is None,
        0 <= at < s.len() && !('0' <= s[at] && s[at] <= '9') && !(at == 0 && s[0] == '+')
            ==> u32_of(s) is None,
{
    let z = Seq::new(zeros, |i: int| '0');
    let digits = z + decimal(n);
    lemma_decimal_roundtrip(n);
    lemma_leading_zeros(decimal(n), zeros);
    assert forall|i: int| 0 <= i < digits.len() implies is_digit(#[trigger] digits[i]) by {
        if i >= zeros {
            assert(digits[i] == decimal(n)[i - zeros]);
        }
    }
    if plus {
        let text = seq!['+'] + z + decimal(n);
        assert(text.skip(1) =~= digits);
        assert(strip_plus(text) =~= digits);
    } else {
        let text = Seq::<char>::empty() + z + decimal(n);
        assert(text =~= digits);
        assert(is_digit(digits[0]));
        assert(strip_plus(text) =~= digits);
    }
    if 0 <= at < s.len() && !is_digit(s[at]) && !(at == 0 && s[0] == '+') {
        let rest = strip_plus(s);
        if s[0] == '+' {
            assert(rest[at - 1] == s[at]);
        } else {
            assert(rest[at] == s[at]);
        }
    }
}

/// A number that is filled up has as many zeros in front as it takes, and none if it is long
/// enough.
pub proof fn lemma_padded_number(n: nat, width: nat)
    ensures
        padded(n, width).len() == if decimal(n).len() < width {
            width
        } else {
            decimal(n).len()
        },
        digits_value(padded(n, width)) == n,
        forall|i: int|
            0 <= i < width - decimal(n).len() ==> (#[trigger] padded(n, width)[i]) == '0',
        padded(n, width).skip(padded(n, width).len() - decimal(n).len()) == decimal(n),
{
    lemma_decimal_roundtrip(n);
    let digits = decimal(n);
    if digits.len() < width {
        lemma_leading_zeros(digits, (width - digits.len()) as nat);
    }
    assert(padded(n, width).skip(padded(n, width).len() - digits.len()) =~= digits);
}

/// A hexadecimal digit is one of `0` to `9` and `a` to `f`.
pub proof fn lemma_hex_digit(d: int)
    requires
        0 <= d < 16,
    ensures
        hex_char(d) == if d < 10 {
            (48 + d) as char
        } else {
            (87 + d) as char
        },
        hex_value(hex_char(d)) == d,
{
}

proof fn lemma_hex_lowered(s: Seq<char>)
    requires
        forall|i: int| 0 <= i < s.len() ==> is_hex(#[trigger] s[i]),
    ensures
        hex_digits(hex_number(s), s.len()) == s.map_values(
            |c: char|
                if 'A' <= c && c <= 'F' {
                    (c as int + 32) as char
                } else {
                    c
                },
        ),
    decreases s.len(),
{
    let low = |c: char|
        if 'A' <= c && c <= 'F' {
            (c as int + 32) as char
        } else {
            c
        };
    if s.len() > 0 {
        let front = s.drop_last();
        assert forall|i: int| 0 <= i < front.len() implies is_hex(#[trigger] front[i]) by {
            assert(is_hex(s[i]));
        }
        lemma_hex_lowered(front);
        assert(is_hex(s[s.len() - 1]));
        let v = hex_value(s.last());
        let n = hex_number(s);
        assert(n / 16 == hex_number(front) && n % 16 == v);
        assert(hex_char(v as int) == low(s.last()));
        assert(hex_digits(n, s.len()) =~= hex_digits(n / 16, front.len()).push(hex_char(v as int)));
        assert(s.map_values(low) =~= front.map_values(low).push(low(s.last())));
    } else {
        assert(s.map_values(low) =~= seq![]);
    }
}

proof fn lemma_hex_after_zero(s: Seq<char>)
    ensures
        hex_number(seq!['0'] + s) == hex_number(s),
    decreases s.len(),
{
    if s.len() > 0 {
        lemma_hex_after_zero(s.drop_last());
        assert((seq!['0'] + s).drop_last() =~= seq!['0'] + s.drop_last());
    } else {
        assert((seq!['0'] + s).drop_last() =~= seq![]);
        assert(hex_number(Seq::<char>::empty()) == 0);
    }
}

/// A hash is read from 16 hexadecimal digits of either case and from nothing else, but that a
/// plus sign may stand for the first of them as a zero. What was read is written with the same
/// digits, in lower case.
pub proof fn lemma_hash_is_read(s: Seq<char>)
    ensures
        hash_of(s) is Some <==> s.len() == 16 && forall|i: int|
            0 <= i < 16 ==> ('0' <= #[trigger] s[i] <= '9') || ('a' <= s[i] <= 'f') || ('A' <= s[i]
                <= 'F') || (i == 0 && s[i] == '+'),
        hash_of(s) matches Some(hash) ==> hex_digits(hash as nat, 16) == s.map_values(
            |c: char|
                if c == '+' {
                    '0'
                } else if 'A' <= c && c <= 'F' {
                    (c as int + 32) as char
                } else {
                    c
                },
        ),
{
    let plain = s.len() == 16 && forall|i: int|
        0 <= i < 16 ==> ('0' <= #[trigger] s[i] <= '9') || ('a' <= s[i] <= 'f') || ('A' <= s[i]
            <= 'F') || (i == 0 && s[i] == '+');
    let digits = strip_plus(s);
    if s.len() == 16 {
        if plain {
            assert forall|i: int| 0 <= i < digits.len() implies is_hex(#[trigger] digits[i]) by {
                assert(digits[i] == s[i + 16 - digits.len()]);
            }
        }
        if hash_of(s) is Some {
            assert forall|i: int| 0 <= i < 16 implies is_hex(#[trigger] s[i]) || (i == 0 && s[i]
                == '+') by {
                if i >= 16 - digits.len() {
                    assert(is_hex(digits[i - (16 - digits.len())]));
                }
            }
            let whole = if s[0] == '+' {
                seq!['0'] + digits
            } else {
                digits
            };
            if s[0] == '+' {
                lemma_hex_after_zero(digits);
            }
            assert forall|i: int| 0 <= i < 16 implies is_hex(#[trigger] whole[i]) by {
                assert(is_hex(s[i]) || i == 0);
            }
            lemma_pow16_16();
            lemma_hex_number_bound(whole);
            lemma_hex_lowered(whole);
            assert forall|i: int| 0 < i < 16 implies (#[trigger] s[i]) != '+' by {
                assert(is_hex(s[i]));
            }
            assert(whole.map_values(
                |c: char|
                    if 'A' <= c && c <= 'F' {
                        (c as int + 32) as char
                    } else {
                        c
                    },
            ) =~= s.map_values(
                |c: char|
                    if c == '+' {
                        '0'
                    } else if 'A' <= c && c <= 'F' {
                        (c as int + 32) as char
                    } else {
                        c
                    },
            ));
        }
    }
}

} // verus!

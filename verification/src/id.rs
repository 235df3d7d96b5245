//! Annotation identifiers: 128-bit ULIDs, written as 26 base-32 digits.

use vstd::prelude::*;

verus! {

broadcast use vstd::string::group_string_axioms;

/// A universally unique, lexicographically sortable identifier.
#[derive(Debug, Clone, Copy, PartialEq, Eq, Structural, PartialOrd, Ord, Hash)]
pub struct Ulid(pub u128);

/// Why a text is no identifier.
#[derive(Debug, Clone, Copy, PartialEq, Eq, Structural)]
pub enum IdError {
    /// The text is not 26 bytes long.
    InvalidLength,
    /// The text holds a character that is no base-32 digit.
    InvalidChar,
}

/// The base-32 digit of value `d`: `0` to `9`, then the capital letters without
/// `I`, `L`, `O` and `U`.
pub open spec fn id_char(d: int) -> char
    recommends
        0 <= d < 32,
{
    if d < 10 {
        ('0' as int + d) as char
    } else if d < 18 {
        ('A' as int + (d - 10)) as char
    } else if d < 20 {
        ('J' as int + (d - 18)) as char
    } else if d < 22 {
        ('M' as int + (d - 20)) as char
    } else if d < 27 {
        ('P' as int + (d - 22)) as char
    } else {
        ('V' as int + (d - 27)) as char
    }
}

/// The value of a base-32 digit of either case; `None` for any other character.
pub open spec fn id_value(c: char) -> Option<nat> {
    let up = if 'a' <= c && c <= 'z' {
        c as int - 32
    } else {
        c as int
    };
    if '0' <= c && c <= '9' {
        Some((c as int - '0' as int) as nat)
    } else if 'A' as int <= up <= 'H' as int {
        Some((up - 'A' as int + 10) as nat)
    } else if 'J' as int <= up <= 'K' as int {
        Some((up - 'J' as int + 18) as nat)
    } else if 'M' as int <= up <= 'N' as int {
        Some((up - 'M' as int + 20) as nat)
    } else if 'P' as int <= up <= 'T' as int {
        Some((up - 'P' as int + 22) as nat)
    } else if 'V' as int <= up <= 'Z' as int {
        Some((up - 'V' as int + 27) as nat)
    } else {
        None
    }
}

/// The last `width` base-32 digits of `n`, most significant first.
pub open spec fn id_digits(n: nat, width: nat) -> Seq<char>
    decreases width,
{
    if width == 0 {
        seq![]
    } else {
        id_digits(n / 32, (width - 1) as nat).push(id_char((n % 32) as int))
    }
}

/// The number that a run of base-32 digits denotes.
pub open spec fn id_number(s: Seq<char>) -> nat
    decreases s.len(),
{
    if s.len() == 0 {
        0
    } else {
        id_number(s.drop_last()) * 32 + id_value(s.last())->0
    }
}

/// The text of an identifier.
pub open spec fn id_text(id: Ulid) -> Seq<char> {
    id_digits(id.0 as nat, 26)
}

/// The identifier that a text names: 26 base-32 digits, of which the lowest 128
/// bits count.
pub open spec fn id_of(text: Seq<char>) -> Result<Ulid, IdError> {
    if vstd::utf8::encode_utf8(text).len() != 26 {
        Err(IdError::InvalidLength)
    } else if exists|i: int| 0 <= i < text.len() && id_value(#[trigger] text[i]) is None {
        Err(IdError::InvalidChar)
    } else {
        Ok(Ulid((id_number(text) as int % (u128::MAX + 1)) as u128))
    }
}

/// `32` to the power `n`.
pub open spec fn pow32(n: nat) -> nat
    decreases n,
{
    if n == 0 {
        1
    } else {
        32 * pow32((n - 1) as nat)
    }
}

/// `Ulid::generate` makes an identifier from the time and random bits; nothing is
/// claimed of it.
#[verifier::external_body]
fn generated_bits() -> u128 {
    ulid::Ulid::generate().0
}

/// `Ulid::to_string` writes the 26 base-32 digits of the identifier.
#[verifier::external_body]
fn bits_to_string(bits: u128) -> (text: String)
    ensures
        text@ == id_digits(bits as nat, 26),
{
    ulid::Ulid(bits).to_string()
}

/// `Ulid::from_string` reads 26 base-32 digits of either case and keeps the lowest
/// 128 bits. It rejects a text of another length, then any other character.
#[verifier::external_body]
fn bits_from_string(text: &str) -> (bits: Result<u128, IdError>)
    ensures
        bits == (match id_of(text@) {
            Ok(id) => Ok(id.0),
            Err(e) => Err(e),
        }),
{
    match ulid::Ulid::from_string(text) {
        Ok(id) => Ok(id.0),
        Err(ulid::DecodeError::InvalidLength) => Err(IdError::InvalidLength),
        Err(ulid::DecodeError::InvalidChar) => Err(IdError::InvalidChar),
    }
}

impl Ulid {
    /// A fresh identifier. Which one depends on the time and on chance.
    pub fn generate() -> Ulid {
        Ulid(generated_bits())
    }

    /// The identifier as 26 base-32 digits.
    pub fn to_string(&self) -> (text: String)
        ensures
            text@ == id_text(*self),
    {
        bits_to_string(self.0)
    }

    /// The identifier that `text` names.
    pub fn from_string(text: &str) -> (id: Result<Ulid, IdError>)
        ensures
            id == id_of(text@),
    {
        match bits_from_string(text) {
            Ok(bits) => Ok(Ulid(bits)),
            Err(e) => Err(e),
        }
    }
}

proof fn lemma_digits_roundtrip(n: nat, width: nat)
    requires
        n < pow32(width),
    ensures
        id_number(id_digits(n, width)) == n,
        id_digits(n, width).len() == width,
        forall|i: int| 0 <= i < width ==> id_value(#[trigger] id_digits(n, width)[i]) is Some,
        forall|i: int| 0 <= i < width ==> '0' <= #[trigger] id_digits(n, width)[i] <= 'Z',
    decreases width,
{
    if width > 0 {
        lemma_digits_roundtrip(n / 32, (width - 1) as nat);
        let rest = id_digits(n / 32, (width - 1) as nat);
        let all = id_digits(n, width);
        assert(all.drop_last() =~= rest);
        assert(id_value(all.last()) == Some((n % 32) as nat));
        assert forall|i: int| 0 <= i < width implies id_value(#[trigger] all[i]) is Some && '0'
            <= all[i] <= 'Z' by {
            if i < width - 1 {
                assert(all[i] == rest[i]);
            }
        }
    }
}

/// Every identifier is read back from its own text.
pub proof fn lemma_id_roundtrip(id: Ulid)
    ensures
        id_of(id_text(id)) == Ok::<Ulid, IdError>(id),
        id_text(id).len() == 26,
{
    assert(pow32(26) > u128::MAX) by {
        reveal_with_fuel(pow32, 27);
    }
    lemma_digits_roundtrip(id.0 as nat, 26);
    let text = id_text(id);
    assert(vstd::utf8::is_ascii_chars(text));
    vstd::utf8::is_ascii_chars_encode_utf8(text);
    assert(id_number(text) == id.0 as nat);
}

} // verus!

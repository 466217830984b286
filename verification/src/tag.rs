//! Tags: the 128-bit ids that callers file their texts under.
use vstd::arithmetic::power::pow;
use vstd::prelude::*;

verus! {

/// The character for a hexadecimal digit.
pub open spec fn hex_digit(d: nat) -> char {
    if d < 10 {
        ('0' as u32 + d) as char
    } else {
        ('a' as u32 + (d - 10)) as char
    }
}

/// The last `len` hexadecimal digits of `n`.
pub open spec fn hex(n: nat, len: nat) -> Seq<char>
    decreases len,
{
    if len == 0 {
        Seq::empty()
    } else {
        hex(n / 16, (len - 1) as nat).push(hex_digit(n % 16))
    }
}

/// A tag as text: 32 hexadecimal digits, with hyphens after the 8th, the 12th,
/// the 16th and the 20th.
pub open spec fn tag_text(tag: u128) -> Seq<char> {
    let h = hex(tag as nat, 32);
    h.subrange(0, 8) + "-"@ + h.subrange(8, 12) + "-"@ + h.subrange(12, 16) + "-"@ + h.subrange(
        16,
        20,
    ) + "-"@ + h.subrange(20, 32)
}

/// `to_string` of the `uuid::Uuid` with this value: the hyphenated form, in
/// lower case.
#[verifier::external_body]
pub(crate) fn uuid_text(tag: u128) -> (s: String)
    ensures
        s@ == tag_text(tag),
{
    uuid::Uuid::from_u128(tag).to_string()
}

/// The text of a tag has 36 characters: hyphens at four places, and elsewhere the digits of the
/// tag, from the leading one on, four bits each, in lower case.
pub proof fn law_tag_digits(tag: u128, i: int)
    requires
        0 <= i < 32,
    ensures
        ({
            let t = tag_text(tag);
            let at = if i < 8 {
                i
            } else if i < 12 {
                i + 1
            } else if i < 16 {
                i + 2
            } else if i < 20 {
                i + 3
            } else {
                i + 4
            };
            let d = (tag as nat / pow(16, (31 - i) as nat) as nat) % 16;
            &&& t.len() == 36
            &&& t[8] == '-' && t[13] == '-' && t[18] == '-' && t[23] == '-'
            &&& t[at] as u32 == if d < 10 {
                48 + d
            } else {
                87 + d
            }
        }),
{
    reveal_strlit("-");
    lemma_hex(tag as nat, 32, i);
}

proof fn lemma_hex(n: nat, len: nat, i: int)
    requires
        0 <= i < len,
    ensures
        hex(n, len).len() == len,
        hex(n, len)[i] == hex_digit((n / pow(16, (len - 1 - i) as nat) as nat) % 16),
    decreases len,
{
    reveal(pow);
    lemma_hex_len(n, len);
    lemma_hex_len(n / 16, (len - 1) as nat);
    if i == len - 1 {
        assert(pow(16, 0) == 1);
        assert(n / 1 == n);
    } else {
        lemma_hex(n / 16, (len - 1) as nat, i);
        let e = (len - 2 - i) as nat;
        let w = pow(16, e);
        vstd::arithmetic::power::lemma_pow_positive(16, e);
        assert(pow(16, (len - 1 - i) as nat) == 16 * w);
        vstd::arithmetic::div_mod::lemma_div_denominator(n as int, 16, w);
    }
}

proof fn lemma_hex_len(n: nat, len: nat)
    ensures
        hex(n, len).len() == len,
    decreases len,
{
    if len > 0 {
        lemma_hex_len(n / 16, (len - 1) as nat);
    }
}

} // verus!

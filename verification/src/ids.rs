//! Node and workspace ids as 128-bit numbers, and the two directions of the `uuid` crate.

use vstd::prelude::*;

use crate::digest::hex_digit;

verus! {

/// The `n` lowest hexadecimal digits of a number, most significant first.
pub open spec fn hex_digits(v: nat, n: nat) -> Seq<char>
    decreases n,
{
    if n == 0 {
        Seq::empty()
    } else {
        hex_digits(v / 16, (n - 1) as nat).push(hex_digit((v % 16) as u8))
    }
}

/// The hyphenated form of an id: thirty-two lowercase hexadecimal digits in groups of eight,
/// four, four, four and twelve.
pub open spec fn id_text(id: u128) -> Seq<char> {
    let h = hex_digits(id as nat, 32);
    h.subrange(0, 8) + seq!['-'] + h.subrange(8, 12) + seq!['-'] + h.subrange(12, 16) + seq!['-']
        + h.subrange(16, 20) + seq!['-'] + h.subrange(20, 32)
}

proof fn lemma_hex_digits_shape(v: nat, n: nat)
    ensures
        hex_digits(v, n).len() == n,
        forall|i: int|
            0 <= i < n ==> {
                let c = #[trigger] hex_digits(v, n)[i];
                ('0' <= c <= '9') || ('a' <= c <= 'f')
            },
    decreases n,
{
    if n > 0 {
        lemma_hex_digits_shape(v / 16, (n - 1) as nat);
        let d = (v % 16) as u8;
        assert(d < 16);
        assert forall|i: int| 0 <= i < n implies {
            let c = #[trigger] hex_digits(v, n)[i];
            ('0' <= c <= '9') || ('a' <= c <= 'f')
        } by {
            if i < n - 1 {
                assert(hex_digits(v, n)[i] == hex_digits(v / 16, (n - 1) as nat)[i]);
            }
        }
    }
}

/// The hyphenated form has thirty-six characters, and the last is a hexadecimal digit.
pub proof fn lemma_id_text(id: u128)
    ensures
        id_text(id).len() == 36,
        ({
            let c = id_text(id).last();
            ('0' <= c <= '9') || ('a' <= c <= 'f')
        }),
{
    lemma_hex_digits_shape(id as nat, 32);
    assert(id_text(id).last() == hex_digits(id as nat, 32)[31]);
}

/// The id that `uuid::Uuid::parse_str` reads out of a text, in any of the spellings it accepts.
pub uninterp spec fn parsed_id(text: Seq<char>) -> Option<u128>;

/// `uuid::Uuid`'s `Display`. Claimed: the hyphenated form of the id, which
/// `uuid::Uuid::parse_str` reads back as the same id.
#[verifier::external_body]
pub(crate) fn print_id(id: u128) -> (r: String)
    ensures
        r@ == id_text(id),
        parsed_id(r@) == Some(id),
{
    uuid::Uuid::from_u128(id).to_string()
}

/// `uuid::Uuid::parse_str`. Claimed: what it reads depends on the text alone.
#[verifier::external_body]
pub(crate) fn parse_id(text: &str) -> (r: Option<u128>)
    ensures
        r == parsed_id(text@),
{
    uuid::Uuid::parse_str(text).ok().map(|u| u.as_u128())
}

/// The id says of itself that it is random: version 4, in the usual variant.
pub open spec fn is_random(id: u128) -> bool {
    (id >> 76) & 0xf == 4 && (id >> 62) & 3 == 2
}

/// `uuid::Uuid::new_v4`. Claimed: an id with the version and variant bits of a random one; the
/// others can be any.
#[verifier::external_body]
pub(crate) fn random_id() -> (r: u128)
    ensures
        is_random(r),
{
    uuid::Uuid::new_v4().as_u128()
}

} // verus!

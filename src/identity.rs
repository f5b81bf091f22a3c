//! The identity of an event: a SipHash-2-4 digest of its content, written
//! in base32hex.

use chrono::DateTime;
use data_encoding::BASE32HEX;
use siphasher::sip::SipHasher24;
use std::hash::{Hash, Hasher};
use vstd::prelude::*;

use crate::{ContentView, EventInner};

verus! {

/// The digest that `SipHasher24::new()` gives for the content of an event,
/// fed field by field through the `Hash` impls of std and chrono.
pub uninterp spec fn content_digest(c: ContentView) -> u64;

/// The symbols of base32hex (RFC 4648, section 7).
pub open spec fn base32hex_symbols() -> Seq<char> {
    seq![
        '0', '1', '2', '3', '4', '5', '6', '7', '8', '9', 'A', 'B', 'C', 'D', 'E', 'F', 'G', 'H',
        'I', 'J', 'K', 'L', 'M', 'N', 'O', 'P', 'Q', 'R', 'S', 'T', 'U', 'V',
    ]
}

/// Bit `j` of the eight little-endian bytes of `d`, each byte read from its
/// most significant bit down; 0 past the last byte.
pub open spec fn id_bit(d: u64, j: int) -> int {
    if 0 <= j < 64 {
        ((d >> ((8 * (j / 8) + 7 - j % 8) as u64)) & 1) as int
    } else {
        0
    }
}

/// The value of the five bits that symbol `i` writes.
pub open spec fn id_symbol(d: u64, i: int) -> int {
    16 * id_bit(d, 5 * i) + 8 * id_bit(d, 5 * i + 1) + 4 * id_bit(d, 5 * i + 2) + 2 * id_bit(
        d,
        5 * i + 3,
    ) + id_bit(d, 5 * i + 4)
}

/// The padded base32hex text of the eight little-endian bytes of `d`:
/// thirteen symbols and three `=`.
pub open spec fn id_text(d: u64) -> Seq<char> {
    Seq::new(13, |i: int| base32hex_symbols()[id_symbol(d, i)]) + seq!['=', '=', '=']
}

/// Relies on siphasher's `SipHasher24` (keys zero), fed by std's `Hash` for
/// strings, vectors, options and tuples and by chrono's `Hash` for
/// `DateTime`, which hashes the UTC date and time alone.
#[verifier::external_body]
pub(crate) fn digest(c: &EventInner) -> (r: u64)
    ensures
        r == content_digest(c@),
{
    let mut h = SipHasher24::new();
    DateTime::from_timestamp(c.start.timestamp, 0).unwrap().hash(&mut h);
    DateTime::from_timestamp(c.end.timestamp, 0).unwrap().hash(&mut h);
    (&c.code, &c.groups, &c.groups_raw, &c.title, &c.type_).hash(&mut h);
    (&c.staff, &c.room, &c.campus).hash(&mut h);
    h.finish()
}

/// Relies on data-encoding's `BASE32HEX.encode`, padded base32hex with
/// symbols taken from the most significant bit down.
#[verifier::external_body]
pub(crate) fn encode_id(d: u64) -> (r: String)
    ensures
        r@ == id_text(d),
{
    BASE32HEX.encode(&d.to_le_bytes())
}

} // verus!

//! Identifiers of persistent objects and the MIDI status bytes.

use vstd::prelude::*;
use vstd::arithmetic::power::pow;

use crate::text::digit_char;

verus! {

/// Status bits of a MIDI note-on message.
pub const NOTE_ON_MSG: u8 = 0x90;

/// Status bits of a MIDI control change, used for "all notes off".
pub const ALL_NOTE_ON_MSG: u8 = 0xB0;

/// Status bits of a MIDI note-off message.
pub const NOTE_OFF_MSG: u8 = 0x80;

/// A lowercase hexadecimal digit.
pub open spec fn hex_char(d: int) -> char {
    if 0 <= d < 10 {
        digit_char(d as nat)
    } else if d == 10 {
        'a'
    } else if d == 11 {
        'b'
    } else if d == 12 {
        'c'
    } else if d == 13 {
        'd'
    } else if d == 14 {
        'e'
    } else {
        'f'
    }
}

/// The `d`-th hexadecimal digit of a 128-bit value, most significant first.
pub open spec fn nibble(v: u128, d: int) -> int {
    (v as int / pow(16, (31 - d) as nat)) % 16
}

/// How many of the four hyphens of the text form come before position `i`.
pub open spec fn hyphens_before(i: int) -> int {
    if i < 9 {
        0
    } else if i < 14 {
        1
    } else if i < 19 {
        2
    } else if i < 24 {
        3
    } else {
        4
    }
}

/// The hyphenated lowercase text form `xxxxxxxx-xxxx-xxxx-xxxx-xxxxxxxxxxxx`
/// of a 128-bit identifier.
pub open spec fn id_text(v: u128) -> Seq<char> {
    Seq::new(
        36,
        |i: int|
            if i == 8 || i == 13 || i == 18 || i == 23 {
                '-'
            } else {
                hex_char(nibble(v, i - hyphens_before(i)))
            },
    )
}

/// The sixteen bytes of a 128-bit identifier, most significant first.
pub open spec fn id_bytes(v: u128) -> Seq<u8> {
    Seq::new(16, |i: int| ((v as int / pow(256, (15 - i) as nat)) % 256) as u8)
}

/// A randomly generated identifier of version 4: its version nibble is 4 and
/// its variant bits are `10`.
pub open spec fn is_random_id(v: u128) -> bool {
    &&& (v as int / pow(2, 76)) % 16 == 4
    &&& (v as int / pow(2, 62)) % 4 == 2
}

/// Calls `uuid::Uuid::new_v4` and returns the value as a 128-bit integer
/// (`Uuid::as_u128`, big-endian). The value is random; what holds of every
/// outcome is that the crate sets the version to 4 and the variant to the
/// RFC 4122 one. The crate panics when the operating system's random source
/// fails, which no argument here can rule out.
#[verifier::external_body]
fn random_id_bits() -> (v: u128)
    ensures
        is_random_id(v),
{
    uuid::Uuid::new_v4().as_u128()
}

/// Calls `uuid::Uuid::from_u128(v).as_bytes()`: the crate stores the value
/// big-endian, so the bytes are those of `v`, most significant first.
#[verifier::external_body]
fn id_bytes_of(v: u128) -> (b: [u8; 16])
    ensures
        b@ == id_bytes(v),
{
    *uuid::Uuid::from_u128(v).as_bytes()
}

/// Calls `uuid::Uuid::from_u128(v).to_string()`: the crate's `Display`
/// writes the hyphenated lowercase hexadecimal form of the value.
#[verifier::external_body]
fn id_text_of(v: u128) -> (s: String)
    ensures
        s@ == id_text(v),
{
    uuid::Uuid::from_u128(v).to_string()
}

/// Identifier of persistent objects, such as those stored in a project.
/// It holds the 128 bits of a UUID; the nil UUID is the default.
#[derive(Clone, Copy, Debug, PartialEq, Eq, Structural, PartialOrd, Ord, Hash)]
pub struct DataId(pub u128);

impl Default for DataId {
    fn default() -> (id: DataId)
        ensures
            id.0 == 0,
    {
        DataId(0)
    }
}

impl DataId {
    /// Creates a new random identifier.
    pub fn new() -> (id: DataId)
        ensures
            is_random_id(id.0),
    {
        DataId(random_id_bits())
    }

    /// The identifier as sixteen bytes, most significant first.
    pub fn as_bytes(&self) -> (b: [u8; 16])
        ensures
            b@ == id_bytes(self.0),
    {
        id_bytes_of(self.0)
    }

    /// The identifier in its hyphenated text form.
    pub fn to_string(&self) -> (s: String)
        ensures
            s@ == id_text(self.0),
    {
        id_text_of(self.0)
    }
}

} // verus!

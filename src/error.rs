//! The errors of this library.

use vstd::prelude::*;

verus! {

/// Why a key could not be produced.
#[derive(Debug, PartialEq, Eq)]
pub enum FrackErr {
    InvalidOrderKey(String),
    InvalidOrderKeyHead(String),
    KeysOutOfOrder(String, String),
    RangeUnderflow,
    RangeOverflow,
    InvalidKeyInteger(String),
    InvalidKey(String),
    InvalidMidpoint,
    InvalidDigit(String),
}

/// The mathematical value of a `FrackErr`: its payloads as character sequences.
pub enum KeyError {
    InvalidOrderKey(Seq<char>),
    InvalidOrderKeyHead(Seq<char>),
    KeysOutOfOrder(Seq<char>, Seq<char>),
    RangeUnderflow,
    RangeOverflow,
    InvalidKeyInteger(Seq<char>),
    InvalidKey(Seq<char>),
    InvalidMidpoint,
    InvalidDigit(Seq<char>),
}

impl View for FrackErr {
    type V = KeyError;

    open spec fn view(&self) -> KeyError {
        match self {
            FrackErr::InvalidOrderKey(s) => KeyError::InvalidOrderKey(s@),
            FrackErr::InvalidOrderKeyHead(s) => KeyError::InvalidOrderKeyHead(s@),
            FrackErr::KeysOutOfOrder(a, b) => KeyError::KeysOutOfOrder(a@, b@),
            FrackErr::RangeUnderflow => KeyError::RangeUnderflow,
            FrackErr::RangeOverflow => KeyError::RangeOverflow,
            FrackErr::InvalidKeyInteger(s) => KeyError::InvalidKeyInteger(s@),
            FrackErr::InvalidKey(s) => KeyError::InvalidKey(s@),
            FrackErr::InvalidMidpoint => KeyError::InvalidMidpoint,
            FrackErr::InvalidDigit(s) => KeyError::InvalidDigit(s@),
        }
    }
}

/// The text that describes an error.
pub open spec fn message_spec(e: KeyError) -> Seq<char> {
    match e {
        KeyError::InvalidOrderKey(s) => "invalid order key: "@ + s,
        KeyError::InvalidOrderKeyHead(s) => "invalid order key head: "@ + s,
        KeyError::KeysOutOfOrder(a, b) => "keys out of order: "@ + a + " > "@ + b,
        KeyError::RangeUnderflow => "range underflow"@,
        KeyError::RangeOverflow => "range overflow"@,
        KeyError::InvalidKeyInteger(s) => "invalid key integer: "@ + s,
        KeyError::InvalidKey(s) => "invalid key: "@ + s,
        KeyError::InvalidMidpoint => "invalid midpoint"@,
        KeyError::InvalidDigit(s) => "invalid digit: "@ + s,
    }
}

impl FrackErr {
    /// The text that describes this error.
    pub fn message(&self) -> (r: String)
        ensures
            r@ == message_spec(self@),
    {
        match self {
            FrackErr::InvalidOrderKey(s) => String::from_str("invalid order key: ").concat(
                s.as_str(),
            ),
            FrackErr::InvalidOrderKeyHead(s) => String::from_str(
                "invalid order key head: ",
            ).concat(s.as_str()),
            FrackErr::KeysOutOfOrder(a, b) => String::from_str("keys out of order: ").concat(
                a.as_str(),
            ).concat(" > ").concat(b.as_str()),
            FrackErr::RangeUnderflow => String::from_str("range underflow"),
            FrackErr::RangeOverflow => String::from_str("range overflow"),
            FrackErr::InvalidKeyInteger(s) => String::from_str("invalid key integer: ").concat(
                s.as_str(),
            ),
            FrackErr::InvalidKey(s) => String::from_str("invalid key: ").concat(s.as_str()),
            FrackErr::InvalidMidpoint => String::from_str("invalid midpoint"),
            FrackErr::InvalidDigit(s) => String::from_str("invalid digit: ").concat(s.as_str()),
        }
    }
}

/// The payload of the error for a character that cannot start a key.
pub open spec fn head_message(c: char) -> Seq<char> {
    "invalid order key head: "@ + seq![c]
}

/// The error for a string whose first character cannot start a key.
pub fn head_error(key: &str) -> (r: FrackErr)
    requires
        key@.len() > 0,
    ensures
        r@ == KeyError::InvalidOrderKeyHead(head_message(key@[0])),
{
    let mut msg = String::from_str("invalid order key head: ");
    msg.append(key.substring_char(0, 1));
    assert(key@.subrange(0, 1) =~= seq![key@[0]]);
    FrackErr::InvalidOrderKeyHead(msg)
}

} // verus!

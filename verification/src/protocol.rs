//! The sensor protocol: what a reading and a logged record are, and what a
//! client may ask of the device.

use crate::text::{
    decimal, digit_char, digits_value, is_digit, lemma_decimal_digits, push_decimal,
};
use vstd::prelude::*;

verus! {

/// The ALPN of the sensor protocol.
pub const SENSOR_ALPN: &'static str = "iroh-esp32/sensor/0";

/// The ALPN of the echo protocol.
pub const ECHO_ALPN: &'static str = "echo/0";

/// A decimal number with one digit behind the point, as the DHT22 delivers it:
/// a sign and a count of tenths. The sign is kept apart, so that a frozen
/// sensor's minus zero stays distinct from zero.
#[derive(Clone, Copy, Debug, PartialEq, Eq, Structural)]
pub struct Tenths {
    pub negative: bool,
    pub magnitude: u32,
}

/// A single sensor reading (temperature in °C, relative humidity in %).
#[derive(Clone, Copy, Debug, PartialEq, Eq, Structural)]
pub struct Reading {
    pub temperature: Tenths,
    pub humidity: Tenths,
}

/// One logged sample. `id` is a monotonic offset assigned on append: it keeps
/// increasing even as old records are dropped from the front of the buffer.
#[derive(Clone, Copy, Debug, PartialEq, Eq, Structural)]
pub struct Record {
    pub id: u64,
    /// Unix seconds; 0 if the clock isn't set yet.
    pub time: u64,
    pub inside: Option<Reading>,
    pub outside: Option<Reading>,
    /// Whether the cooling fan is on.
    pub fan: bool,
}

/// Request the most recent record.
#[derive(Clone, Copy, Debug, PartialEq, Eq, Structural)]
pub struct GetLatest;

/// Request the retained records with `id >= start_id`, oldest first, up to
/// `limit` of them.
#[derive(Clone, Copy, Debug, PartialEq, Eq, Structural)]
pub struct GetLog {
    pub start_id: u64,
    pub limit: u32,
}

/// The sensor RPC service.
#[derive(Clone, Copy, Debug, PartialEq, Eq, Structural)]
pub enum SensorProtocol {
    GetLatest(GetLatest),
    GetLog(GetLog),
}

/// The sign of a number as text.
pub open spec fn sign_text(negative: bool) -> Seq<char> {
    if negative {
        seq!['-']
    } else {
        Seq::empty()
    }
}

/// The nearest whole number to `tenths` tenths; halfway between two, the even
/// one.
pub open spec fn rounded(tenths: nat) -> nat {
    let whole = tenths / 10;
    let rest = tenths % 10;
    if rest > 5 || (rest == 5 && whole % 2 == 1) {
        whole + 1
    } else {
        whole
    }
}

impl Tenths {
    /// The number with its one digit behind the point.
    pub open spec fn text(self) -> Seq<char> {
        sign_text(self.negative) + decimal(self.magnitude as nat / 10) + seq![
            '.',
            digit_char(self.magnitude as int % 10),
        ]
    }

    /// The number rounded to a whole one.
    pub open spec fn whole_text(self) -> Seq<char> {
        sign_text(self.negative) + decimal(rounded(self.magnitude as nat))
    }

    /// Write the number with one digit behind the point.
    pub fn to_text(&self) -> (text: String)
        ensures
            text@ == self.text(),
    {
        let mut text = String::new();
        if self.negative {
            text.push('-');
        }
        push_decimal(&mut text, (self.magnitude / 10) as u64);
        text.push('.');
        let last: u8 = (self.magnitude % 10) as u8;
        text.push((48 + last) as char);
        assert(text@ =~= self.text());
        text
    }

    /// Write the number rounded to a whole one.
    pub fn to_whole_text(&self) -> (text: String)
        ensures
            text@ == self.whole_text(),
    {
        let whole: u32 = self.magnitude / 10;
        let rest: u32 = self.magnitude % 10;
        let shown: u64 = if rest > 5 || (rest == 5 && whole % 2 == 1) {
            whole as u64 + 1
        } else {
            whole as u64
        };
        let mut text = String::new();
        if self.negative {
            text.push('-');
        }
        push_decimal(&mut text, shown);
        assert(text@ =~= self.whole_text());
        text
    }
}

// ---------------------------------------------------------------------------
// Laws
// ---------------------------------------------------------------------------

/// The text of a number says the number: a minus sign just where it is negative, the
/// digits in front of the point, the point, and the tenth.
pub proof fn law_text_says_the_number(n: Tenths)
    ensures
        ({
            let text = n.text();
            let digits = if n.negative {
                text.skip(1)
            } else {
                text
            };
            let point = digits.len() - 2;
            &&& text[0] == '-' <==> n.negative
            &&& point > 0
            &&& digits[point] == '.'
            &&& '0' <= digits[point + 1] <= '9'
            &&& forall|i: int| 0 <= i < point ==> '0' <= #[trigger] digits[i] <= '9'
            &&& 10 * digits_value(digits.take(point)) + (digits[point + 1] as int - '0' as int)
                == n.magnitude
        }),
{
    let whole = decimal(n.magnitude as nat / 10);
    let text = n.text();
    lemma_decimal_digits(n.magnitude as nat / 10);
    let digits = if n.negative {
        text.skip(1)
    } else {
        text
    };
    assert(digits =~= whole + seq!['.', digit_char(n.magnitude as int % 10)]);
    assert(digits.take(digits.len() - 2) =~= whole);
    assert forall|i: int| 0 <= i < digits.len() - 2 implies '0' <= #[trigger] digits[i] <= '9' by {
        assert(is_digit(whole[i]));
    }
    assert(is_digit(whole[0]));
}

/// The rounded text of a number says the whole number that is nearest to it, with the
/// sign of the number: no other is nearer, and of two that are as near it is the even one.
pub proof fn law_rounding_is_to_the_nearest(n: Tenths)
    ensures
        ({
            let text = n.whole_text();
            let digits = if n.negative {
                text.skip(1)
            } else {
                text
            };
            let shown = digits_value(digits) as int;
            &&& text[0] == '-' <==> n.negative
            &&& forall|i: int| 0 <= i < digits.len() ==> '0' <= #[trigger] digits[i] <= '9'
            &&& -5 <= 10 * shown - n.magnitude <= 5
            &&& 10 * shown - n.magnitude == 5 || 10 * shown - n.magnitude == -5 ==> shown % 2 == 0
        }),
{
    let whole = decimal(rounded(n.magnitude as nat));
    let text = n.whole_text();
    lemma_decimal_digits(rounded(n.magnitude as nat));
    let digits = if n.negative {
        text.skip(1)
    } else {
        text
    };
    assert(digits =~= whole);
    assert forall|i: int| 0 <= i < digits.len() implies '0' <= #[trigger] digits[i] <= '9' by {
        assert(is_digit(whole[i]));
    }
    assert(is_digit(whole[0]));
}

} // verus!

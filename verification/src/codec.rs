//! The outbound wire format: one JSON object per event, with a lowercase
//! discriminant tag and, for all but `heartbeat`, the participant identifier,
//! e.g. `{"speaking":100}` or `{"heartbeat":null}`.
//!
//! Also the room-selector syntax: a websocket connection's target room is the
//! decimal room identifier in its request path.

use vstd::prelude::*;
use vstd::string::StringExecFns;

use crate::events::EventMessage;

verus! {

/// The character for the decimal digit `d`.
pub open spec fn digit_char(d: nat) -> char {
    if d == 0 {
        '0'
    } else if d == 1 {
        '1'
    } else if d == 2 {
        '2'
    } else if d == 3 {
        '3'
    } else if d == 4 {
        '4'
    } else if d == 5 {
        '5'
    } else if d == 6 {
        '6'
    } else if d == 7 {
        '7'
    } else if d == 8 {
        '8'
    } else {
        '9'
    }
}

/// The decimal rendering of `n`, most significant digit first, without
/// leading zeros (`0` renders as `"0"`).
pub open spec fn dec_digits(n: nat) -> Seq<char>
    decreases n,
{
    if n < 10 {
        seq![digit_char(n)]
    } else {
        dec_digits(n / 10).push(digit_char(n % 10))
    }
}

/// The exact wire text for one event.
pub open spec fn json_of(e: EventMessage) -> Seq<char> {
    match e {
        EventMessage::Connected(p) => "{\"connected\":"@ + dec_digits(p as nat) + "}"@,
        EventMessage::Speaking(p) => "{\"speaking\":"@ + dec_digits(p as nat) + "}"@,
        EventMessage::Quiet(p) => "{\"quiet\":"@ + dec_digits(p as nat) + "}"@,
        EventMessage::Disconnected(p) => "{\"disconnected\":"@ + dec_digits(p as nat) + "}"@,
        EventMessage::Heartbeat => "{\"heartbeat\":null}"@,
    }
}

fn digit_str(d: u64) -> (r: &'static str)
    requires
        d < 10,
    ensures
        r@ == seq![digit_char(d as nat)],
{
    if d == 0 {
        proof { reveal_strlit("0"); }
        "0"
    } else if d == 1 {
        proof { reveal_strlit("1"); }
        "1"
    } else if d == 2 {
        proof { reveal_strlit("2"); }
        "2"
    } else if d == 3 {
        proof { reveal_strlit("3"); }
        "3"
    } else if d == 4 {
        proof { reveal_strlit("4"); }
        "4"
    } else if d == 5 {
        proof { reveal_strlit("5"); }
        "5"
    } else if d == 6 {
        proof { reveal_strlit("6"); }
        "6"
    } else if d == 7 {
        proof { reveal_strlit("7"); }
        "7"
    } else if d == 8 {
        proof { reveal_strlit("8"); }
        "8"
    } else {
        proof { reveal_strlit("9"); }
        "9"
    }
}

/// Renders `n` in decimal, as [`dec_digits`] describes.
pub fn u64_to_string(n: u64) -> (r: String)
    ensures
        r@ == dec_digits(n as nat),
    decreases n,
{
    if n < 10 {
        digit_str(n).to_owned()
    } else {
        proof {
            assert(n as nat / 10 < n as nat) by (nonlinear_arith)
                requires n >= 10;
        }
        let mut s = u64_to_string(n / 10);
        s.append(digit_str(n % 10));
        s
    }
}

/// Serializes one event into its wire text, exactly [`json_of`].
pub fn encode_event(e: &EventMessage) -> (r: String)
    ensures
        r@ == json_of(*e),
{
    match e {
        EventMessage::Connected(p) => {
            let mut s = "{\"connected\":".to_owned();
            s.append(u64_to_string(*p).as_str());
            s.append("}");
            s
        },
        EventMessage::Speaking(p) => {
            let mut s = "{\"speaking\":".to_owned();
            s.append(u64_to_string(*p).as_str());
            s.append("}");
            s
        },
        EventMessage::Quiet(p) => {
            let mut s = "{\"quiet\":".to_owned();
            s.append(u64_to_string(*p).as_str());
            s.append("}");
            s
        },
        EventMessage::Disconnected(p) => {
            let mut s = "{\"disconnected\":".to_owned();
            s.append(u64_to_string(*p).as_str());
            s.append("}");
            s
        },
        EventMessage::Heartbeat => "{\"heartbeat\":null}".to_owned(),
    }
}

/// Whether `c` is a decimal digit.
pub open spec fn is_digit(c: char) -> bool {
    48 <= c as u32 && c as u32 <= 57
}

/// The value of the digit `c`.
pub open spec fn digit_val(c: char) -> nat {
    (c as u32 - 48) as nat
}

/// Whether every character of `s` is a decimal digit.
pub open spec fn all_digits(s: Seq<char>) -> bool {
    forall|i: int| 0 <= i < s.len() ==> is_digit(#[trigger] s[i])
}

/// The numeric value of a digit string, most significant digit first.
pub open spec fn digits_val(s: Seq<char>) -> nat
    decreases s.len(),
{
    if s.len() == 0 {
        0
    } else {
        digits_val(s.drop_last()) * 10 + digit_val(s.last())
    }
}

/// The room a selector string denotes: a non-empty, all-digit string whose
/// value is a representable, non-zero identifier. Anything else is malformed
/// and rejected at connection establishment.
pub open spec fn parse_room(s: Seq<char>) -> Option<u64> {
    if s.len() > 0 && all_digits(s) && 0 < digits_val(s) <= 0xffff_ffff_ffff_ffff {
        Some(digits_val(s) as u64)
    } else {
        None
    }
}

/// `s` without its leading slashes.
pub open spec fn trim_slashes(s: Seq<char>) -> Seq<char>
    decreases s.len(),
{
    if s.len() > 0 && s[0] == '/' {
        trim_slashes(s.drop_first())
    } else {
        s
    }
}

/// Extending a digit string never decreases its value.
pub proof fn lemma_digits_val_prefix(s: Seq<char>, j: int)
    requires
        0 <= j <= s.len(),
    ensures
        digits_val(s.take(j)) <= digits_val(s),
    decreases s.len() - j,
{
    if j == s.len() {
        assert(s.take(j) =~= s);
    } else {
        assert(s.take(j + 1).drop_last() =~= s.take(j));
        assert(digits_val(s.take(j + 1)) == digits_val(s.take(j)) * 10 + digit_val(s[j]));
        lemma_digits_val_prefix(s, j + 1);
    }
}

} // verus!

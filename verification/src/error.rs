//! What goes wrong.
use vstd::prelude::*;

use crate::jpegio;

verus! {

/// `std::io::Error`, which an [`Error::Io`] carries through.
#[verifier::external_type_specification]
#[verifier::external_body]
pub struct ExIoError(std::io::Error);

/// Why a file was not reconstructed, or a value not taken.
#[derive(Debug)]
pub enum Error {
    /// The C layer could not read the file, or would not.
    Read(jpegio::Error),
    /// A file whose layout is not taken: sampling factors that are not whole
    /// multiples of one another, say.
    Unsupported(String),
    /// Options, or arrays given, out of their ranges.
    Options(String),
    /// A file that could not be written or read.
    Io(std::io::Error),
    /// A PNG file that the C layer could not write.
    Write(jpegio::Error),
}

impl Error {
    /// What it says, as `Display` writes it: the C layer's error after what was not
    /// done, or the message; an I/O error as std writes it.
    pub fn text(&self) -> (text: String)
        ensures
            match self {
                Error::Read(error) => text@ == "the file is not read: "@ + error.message_view() + " ("@
                    + jpegio::kind_name(error.kind_view()) + ")"@,
                Error::Unsupported(message) => text@ == message@,
                Error::Options(message) => text@ == message@,
                Error::Write(error) => text@ == "the file is not written: "@ + error.message_view() + " ("@
                    + jpegio::kind_name(error.kind_view()) + ")"@,
                Error::Io(error) => vstd::string::to_string_from_display_ensures::<std::io::Error>(
                    error,
                    text,
                ),
            },
    {
        match self {
            Error::Read(error) => {
                let mut message = text("the file is not read: ");
                let inner = error.text();
                add_text(&mut message, inner.as_str());
                message
            },
            Error::Unsupported(message) => message.clone(),
            Error::Options(message) => message.clone(),
            Error::Io(error) => error.to_string(),
            Error::Write(error) => {
                let mut message = text("the file is not written: ");
                let inner = error.text();
                add_text(&mut message, inner.as_str());
                message
            },
        }
    }
}

/// Text, for the message of an error.
pub(crate) fn text(words: &str) -> (result: String)
    ensures
        result@ == words@,
{
    String::from_str(words)
}

/// Appends `words` to a message.
pub(crate) fn add_text(message: &mut String, words: &str)
    ensures
        final(message)@ == old(message)@ + words@,
{
    message.append(words);
}

/// The decimal digit `d`, for `d < 10`.
pub open spec fn digit(d: nat) -> char {
    if d == 0 {
        '0'
    } else if d == 1 {
        '1'
    } else if d == 2 {
        '2'
    } else if d == 3 {
        '3'
    } else if d == 4 {
        '4'
    } else if d == 5 {
        '5'
    } else if d == 6 {
        '6'
    } else if d == 7 {
        '7'
    } else if d == 8 {
        '8'
    } else {
        '9'
    }
}

/// `n` in decimal, with no leading zero: what `Display` writes for an integer.
pub open spec fn decimal(n: nat) -> Seq<char>
    decreases n,
{
    if n < 10 {
        seq![digit(n)]
    } else {
        decimal(n / 10).push(digit(n % 10))
    }
}

/// A signed `n` in decimal, a minus sign before it where it is negative.
pub open spec fn signed_decimal(n: int) -> Seq<char> {
    if n < 0 {
        seq!['-'] + decimal((-n) as nat)
    } else {
        decimal(n as nat)
    }
}

/// The text of one decimal digit.
fn digit_text(d: u64) -> (text: &'static str)
    requires
        d < 10,
    ensures
        text@ == seq![digit(d as nat)],
{
    if d == 0 {
        proof { reveal_strlit("0"); }
        "0"
    } else if d == 1 {
        proof { reveal_strlit("1"); }
        "1"
    } else if d == 2 {
        proof { reveal_strlit("2"); }
        "2"
    } else if d == 3 {
        proof { reveal_strlit("3"); }
        "3"
    } else if d == 4 {
        proof { reveal_strlit("4"); }
        "4"
    } else if d == 5 {
        proof { reveal_strlit("5"); }
        "5"
    } else if d == 6 {
        proof { reveal_strlit("6"); }
        "6"
    } else if d == 7 {
        proof { reveal_strlit("7"); }
        "7"
    } else if d == 8 {
        proof { reveal_strlit("8"); }
        "8"
    } else {
        proof { reveal_strlit("9"); }
        "9"
    }
}

/// Appends a number in decimal, as `Display` writes it, to a message.
pub(crate) fn add_number(message: &mut String, value: u64)
    ensures
        final(message)@ == old(message)@ + decimal(value as nat),
    decreases value,
{
    if value >= 10 {
        add_number(message, value / 10);
    }
    message.append(digit_text(value % 10));
    proof {
        if value >= 10 {
            assert(old(message)@ + decimal(value as nat) == old(message)@ + decimal((value / 10) as nat)
                + seq![digit((value % 10) as nat)]);
        }
    }
}

/// Appends a signed number in decimal, as `Display` writes it, to a message.
pub(crate) fn add_signed(message: &mut String, value: i64)
    ensures
        final(message)@ == old(message)@ + signed_decimal(value as int),
{
    if value < 0 {
        proof { reveal_strlit("-"); }
        message.append("-");
        let magnitude: u64 = ((-(value + 1)) as u64) + 1;
        add_number(message, magnitude);
    } else {
        add_number(message, value as u64);
    }
}

} // verus!

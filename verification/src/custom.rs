//! An error payload that keeps its whole history as one line of text.

use crate::error::{ErrorKind, ParseError};
use crate::input::Streaming;
use vstd::prelude::*;
use vstd::std_specs::convert::FromSpecImpl;
use vstd::string::StringExecFns;

verus! {

/// The decimal digit `d`, as text.
pub open spec fn digit_text(d: nat) -> Seq<char> {
    seq![((48 + d) as u8) as char]
}

/// The decimal numeral of `n`, as text.
pub open spec fn decimal_text(n: nat) -> Seq<char>
    decreases n,
{
    if n < 10 {
        digit_text(n)
    } else {
        decimal_text(n / 10) + digit_text(n % 10)
    }
}

/// The text that the debug format renders a slice of bytes as.
pub uninterp spec fn debug_bytes_text(bytes: Seq<u8>) -> Seq<char>;

/// The text that the debug format renders a string as: the string between
/// quotes, with what cannot stand there escaped.
pub uninterp spec fn debug_str_text(s: Seq<char>) -> Seq<char>;

/// Calls `format!` with `{:?}` on a slice of bytes. The contract gives the
/// result its name and claims nothing else of it.
#[verifier::external_body]
fn debug_bytes(bytes: &[u8]) -> (text: String)
    ensures
        text@ == debug_bytes_text(bytes@),
{
    format!("{:?}", bytes)
}

/// Calls `format!` with `{:?}` on a string. The contract gives the result
/// its name and claims nothing else of it.
#[verifier::external_body]
fn debug_str(s: &str) -> (text: String)
    ensures
        text@ == debug_str_text(s@),
{
    format!("{:?}", s)
}

/// One decimal digit.
fn digit(d: u32) -> (text: &'static str)
    requires
        d < 10,
    ensures
        text@ == digit_text(d as nat),
{
    proof {
        reveal_strlit("0");
        reveal_strlit("1");
        reveal_strlit("2");
        reveal_strlit("3");
        reveal_strlit("4");
        reveal_strlit("5");
        reveal_strlit("6");
        reveal_strlit("7");
        reveal_strlit("8");
        reveal_strlit("9");
    }
    let text = if d == 0 {
        "0"
    } else if d == 1 {
        "1"
    } else if d == 2 {
        "2"
    } else if d == 3 {
        "3"
    } else if d == 4 {
        "4"
    } else if d == 5 {
        "5"
    } else if d == 6 {
        "6"
    } else if d == 7 {
        "7"
    } else if d == 8 {
        "8"
    } else {
        "9"
    };
    text
}

/// The decimal numeral of `n`.
fn decimal(n: u32) -> (text: String)
    ensures
        text@ == decimal_text(n as nat),
    decreases n,
{
    if n < 10 {
        String::from_str(digit(n))
    } else {
        decimal(n / 10).concat(digit(n % 10))
    }
}

/// The line that describes a failure of kind `kind` at a place.
pub open spec fn failure_text(place: Seq<char>, kind: ErrorKind) -> Seq<char> {
    "custom error message: ("@ + place + ", "@ + kind.spec_name() + ")"@
}

/// The line that describes a failure met on the way out of an earlier one:
/// the new context first, the earlier error after it.
pub open spec fn chained_text(place: Seq<char>, kind: ErrorKind, prior: Seq<char>) -> Seq<char> {
    failure_text(place, kind) + " - ErrorStr("@ + debug_str_text(prior) + ")"@
}

/// How a streaming input over `bytes` is rendered.
pub open spec fn streaming_text(bytes: Seq<u8>) -> Seq<char> {
    "Streaming("@ + debug_bytes_text(bytes) + ")"@
}

/// An error that is a line of text.
#[derive(Debug, Clone, PartialEq, Eq)]
pub struct ErrorStr(pub String);

impl View for ErrorStr {
    type V = Seq<char>;

    open spec fn view(&self) -> Seq<char> {
        self.0@
    }
}

impl ErrorStr {
    /// The error for a failure of kind `kind` at a place that is rendered
    /// as `place`.
    fn failure(place: String, kind: ErrorKind) -> (e: ErrorStr)
        ensures
            e@ == failure_text(place@, kind),
    {
        ErrorStr(
            String::from_str("custom error message: (").concat(place.as_str()).concat(
                ", ",
            ).concat(kind.name()).concat(")"),
        )
    }

    /// This error behind the new context `(place, kind)`.
    fn chained(self, place: String, kind: ErrorKind) -> (e: ErrorStr)
        ensures
            e@ == chained_text(place@, kind, self@),
    {
        let head = ErrorStr::failure(place, kind);
        let prior = debug_str(self.0.as_str());
        ErrorStr(head.0.concat(" - ErrorStr(").concat(prior.as_str()).concat(")"))
    }

    /// Renders a streaming input over `bytes`.
    fn streaming_place(bytes: &[u8]) -> (place: String)
        ensures
            place@ == streaming_text(bytes@),
    {
        String::from_str("Streaming(").concat(debug_bytes(bytes).as_str()).concat(")")
    }
}

impl From<u32> for ErrorStr {
    /// The error that carries a numeric code.
    fn from(code: u32) -> (e: ErrorStr)
        ensures
            e@ == "custom error code: "@ + decimal_text(code as nat),
    {
        ErrorStr(String::from_str("custom error code: ").concat(decimal(code).as_str()))
    }
}

/// Two texts with the same characters need not be the same value, so the
/// conversion promises no particular value: `from` itself says what the
/// text of its result is.
impl FromSpecImpl<u32> for ErrorStr {
    open spec fn obeys_from_spec() -> bool {
        false
    }

    open spec fn from_spec(code: u32) -> ErrorStr {
        choose|e: ErrorStr| #[trigger] e@ == "custom error code: "@ + decimal_text(code as nat)
    }
}

impl<'a> From<&'a str> for ErrorStr {
    /// The error that carries a message.
    fn from(message: &'a str) -> (e: ErrorStr)
        ensures
            e@ == "custom error message: "@ + message@,
    {
        ErrorStr(String::from_str("custom error message: ").concat(message))
    }
}

/// As for a code: `from` itself says what the text of its result is.
impl<'a> FromSpecImpl<&'a str> for ErrorStr {
    open spec fn obeys_from_spec() -> bool {
        false
    }

    open spec fn from_spec(message: &'a str) -> ErrorStr {
        choose|e: ErrorStr| #[trigger] e@ == "custom error message: "@ + message@
    }
}

/// Over a complete input. Context is added in front of what the error held;
/// of two sibling errors the later one stays.
impl<'a> ParseError<&'a [u8]> for ErrorStr {
    open spec fn spec_from_error_kind(input: Seq<u8>, kind: ErrorKind) -> Seq<char> {
        failure_text(debug_bytes_text(input), kind)
    }

    open spec fn spec_append(prior: Seq<char>, input: Seq<u8>, kind: ErrorKind) -> Seq<char> {
        chained_text(debug_bytes_text(input), kind, prior)
    }

    open spec fn spec_or(first: Seq<char>, second: Seq<char>) -> Seq<char> {
        second
    }

    fn from_error_kind(input: &'a [u8], kind: ErrorKind) -> (e: Self) {
        ErrorStr::failure(debug_bytes(input), kind)
    }

    fn append(self, input: &'a [u8], kind: ErrorKind) -> (e: Self) {
        self.chained(debug_bytes(input), kind)
    }

    fn or(self, other: Self) -> (e: Self) {
        other
    }
}

/// Over a streaming input, which is rendered with its mark.
impl<'a> ParseError<Streaming<&'a [u8]>> for ErrorStr {
    open spec fn spec_from_error_kind(input: Seq<u8>, kind: ErrorKind) -> Seq<char> {
        failure_text(streaming_text(input), kind)
    }

    open spec fn spec_append(prior: Seq<char>, input: Seq<u8>, kind: ErrorKind) -> Seq<char> {
        chained_text(streaming_text(input), kind, prior)
    }

    open spec fn spec_or(first: Seq<char>, second: Seq<char>) -> Seq<char> {
        second
    }

    fn from_error_kind(input: Streaming<&'a [u8]>, kind: ErrorKind) -> (e: Self) {
        ErrorStr::failure(ErrorStr::streaming_place(input.0), kind)
    }

    fn append(self, input: Streaming<&'a [u8]>, kind: ErrorKind) -> (e: Self) {
        self.chained(ErrorStr::streaming_place(input.0), kind)
    }

    fn or(self, other: Self) -> (e: Self) {
        other
    }
}

} // verus!

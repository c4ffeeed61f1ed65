//! The error type of the library.
use vstd::prelude::*;

verus! {

/// What can go wrong while reading or writing a TIFF file.
#[derive(Debug, Clone, PartialEq, Eq)]
pub enum TiffError {
    /// The bytes do not follow the format, or a request is inconsistent.
    InvalidData(String),
    /// The bytes are well formed but use a feature this library lacks.
    Unsupported(String),
}

/// The two classes of failure, without their message.
#[derive(Debug, Clone, Copy, PartialEq, Eq, Structural)]
pub enum ErrorKind {
    /// Class of [`TiffError::InvalidData`].
    Invalid,
    /// Class of [`TiffError::Unsupported`].
    Unsupported,
}

/// Result of every fallible operation of the library.
pub type Result<T> = std::result::Result<T, TiffError>;

/// What a fallible operation yields according to its specification.
pub type Outcome<T> = std::result::Result<T, ErrorKind>;

impl TiffError {
    /// The class of the error.
    pub open spec fn kind(self) -> ErrorKind {
        match self {
            TiffError::InvalidData(_) => ErrorKind::Invalid,
            TiffError::Unsupported(_) => ErrorKind::Unsupported,
        }
    }

    /// The message carried by the error.
    pub open spec fn message(self) -> Seq<char> {
        match self {
            TiffError::InvalidData(s) => s@,
            TiffError::Unsupported(s) => s@,
        }
    }

    /// An [`TiffError::InvalidData`] with the given message.
    pub fn invalid(msg: &str) -> (e: TiffError)
        ensures
            e is InvalidData,
            e.message() == msg@,
    {
        TiffError::InvalidData(msg.to_owned())
    }

    /// An [`TiffError::Unsupported`] with the given message.
    pub fn unsupported(msg: &str) -> (e: TiffError)
        ensures
            e is Unsupported,
            e.message() == msg@,
    {
        TiffError::Unsupported(msg.to_owned())
    }

    /// The error as one line of text: its class, then its message.
    pub fn text(&self) -> (s: String)
        ensures
            s@ == (match *self {
                TiffError::InvalidData(m) => "invalid data: "@ + m@,
                TiffError::Unsupported(m) => "unsupported: "@ + m@,
            }),
    {
        match self {
            TiffError::InvalidData(m) => "invalid data: ".to_owned().concat(m.as_str()),
            TiffError::Unsupported(m) => "unsupported: ".to_owned().concat(m.as_str()),
        }
    }
}

/// The digit of a number below ten.
pub open spec fn digit(d: nat) -> char {
    (48 + d) as char
}

/// A number in decimal digits.
pub open spec fn decimal(n: nat) -> Seq<char>
    decreases n,
{
    if n < 10 { seq![digit(n)] } else { decimal(n / 10) + seq![digit(n % 10)] }
}

fn digit_text(d: u64) -> (s: &'static str)
    requires
        d < 10,
    ensures
        s@ == seq![digit(d as nat)],
{
    proof {
        reveal_strlit("0");
        reveal_strlit("1");
        reveal_strlit("2");
        reveal_strlit("3");
        reveal_strlit("4");
        reveal_strlit("5");
        reveal_strlit("6");
        reveal_strlit("7");
        reveal_strlit("8");
        reveal_strlit("9");
    }
    let s = match d {
        0 => "0",
        1 => "1",
        2 => "2",
        3 => "3",
        4 => "4",
        5 => "5",
        6 => "6",
        7 => "7",
        8 => "8",
        _ => "9",
    };
    assert(s@ =~= seq![digit(d as nat)]);
    s
}

/// Writes a number in decimal digits.
fn decimal_text(n: u64) -> (s: String)
    ensures
        s@ == decimal(n as nat),
    decreases n,
{
    if n < 10 {
        digit_text(n).to_owned()
    } else {
        decimal_text(n / 10).concat(digit_text(n % 10))
    }
}

/// A number between two pieces of text.
fn describe(head: &str, value: u64, tail: &str) -> (s: String)
    ensures
        s@ == head@ + decimal(value as nat) + tail@,
{
    head.to_owned().concat(decimal_text(value).as_str()).concat(tail)
}

/// An [`TiffError::InvalidData`] whose message names a number.
pub(crate) fn invalid_with(head: &str, value: u64, tail: &str) -> (e: TiffError)
    ensures
        e is InvalidData,
        e.message() == head@ + decimal(value as nat) + tail@,
{
    TiffError::InvalidData(describe(head, value, tail))
}

/// An [`TiffError::Unsupported`] whose message names a number.
pub(crate) fn unsupported_with(head: &str, value: u64, tail: &str) -> (e: TiffError)
    ensures
        e is Unsupported,
        e.message() == head@ + decimal(value as nat) + tail@,
{
    TiffError::Unsupported(describe(head, value, tail))
}

/// The result `r` of an operation on bytes is what `s` calls for: the same
/// bytes, or an error of the same class.
pub open spec fn bytes_agree(r: Result<Vec<u8>>, s: Outcome<Seq<u8>>) -> bool {
    match (r, s) {
        (Ok(v), Ok(w)) => v@ == w,
        (Err(e), Err(k)) => e.kind() == k,
        _ => false,
    }
}

} // verus!

//! The error type shared by every module.

use vstd::prelude::*;
use vstd::string::*;

verus! {

/// All errors reported by the parsers, the entropy coders and the sequence
/// engine.
///
/// Most variants stand for malformed input or a violated limit; the message
/// attached to `Corruption` and `InvalidParameter` is a short cause.
#[derive(Debug, Clone, PartialEq, Eq)]
#[non_exhaustive]
#[allow(inconsistent_fields)]
pub enum Error {
    /// An internal invariant failed, or the input is too degenerate to code.
    Generic,
    /// A caller-supplied parameter was rejected; the message names it.
    InvalidParameter(&'static str),
    /// A destination buffer cannot hold the output.
    DstSizeTooSmall,
    /// The size of a source buffer disagrees with what the format encodes.
    SrcSizeWrong,
    /// Input ended before the next required byte.
    UnexpectedEof,
    /// A frame started with an unknown magic number; carries the number seen.
    BadMagic(u32),
    /// Input bytes violate the format; the message names the violation.
    Corruption(&'static str),
    /// An entropy table declares a table log above the permitted one.
    TableLogTooLarge,
    /// A maximum symbol value is larger than permitted.
    MaxSymbolValueTooLarge,
    /// A maximum symbol value is smaller than the data needs.
    MaxSymbolValueTooSmall,
    /// A scratch workspace is too small.
    WorkSpaceTooSmall,
    /// A frame's window exceeds the configured limit.
    WindowSizeTooLarge { window_size: u64, max_window_size: u64 },
    /// A frame needs a dictionary that was not supplied.
    DictionaryRequired(Option<u32>),
    /// The supplied dictionary is not the one the frame names.
    DictionaryMismatch { expected: u32, actual: u32 },
    /// Decoded output would exceed the configured limit.
    OutputSizeTooLarge { output_size: u64, max_output_size: usize },
    /// A declared content size does not fit in a `usize`.
    ContentSizeTooLarge(u64),
    /// A running output size overflowed.
    OutputSizeOverflow,
    /// The decoded size disagrees with the declared one.
    ContentSizeMismatch { expected: u64, actual: u64 },
    /// Input continues after the one frame that was allowed.
    TrailingInput { offset: usize },
    /// The content checksum does not match.
    ChecksumMismatch { expected: u32, actual: u32 },
}

/// `core::result::Result` with this crate's error.
pub type Result<T> = core::result::Result<T, Error>;

// ---------------------------------------------------------------------------
// Messages.

/// A hexadecimal digit.
pub open spec fn digit_text(d: nat) -> Seq<char> {
    if d == 0 {
        "0"@
    } else if d == 1 {
        "1"@
    } else if d == 2 {
        "2"@
    } else if d == 3 {
        "3"@
    } else if d == 4 {
        "4"@
    } else if d == 5 {
        "5"@
    } else if d == 6 {
        "6"@
    } else if d == 7 {
        "7"@
    } else if d == 8 {
        "8"@
    } else if d == 9 {
        "9"@
    } else if d == 10 {
        "a"@
    } else if d == 11 {
        "b"@
    } else if d == 12 {
        "c"@
    } else if d == 13 {
        "d"@
    } else if d == 14 {
        "e"@
    } else {
        "f"@
    }
}

/// A number in decimal.
pub open spec fn decimal_text(n: nat) -> Seq<char>
    decreases n,
{
    if n < 10 {
        digit_text(n)
    } else {
        decimal_text(n / 10) + digit_text(n % 10)
    }
}

/// The lowest `digits` hexadecimal digits of a number.
pub open spec fn hex_text(n: nat, digits: nat) -> Seq<char>
    decreases digits,
{
    if digits == 0 {
        Seq::empty()
    } else {
        hex_text(n / 16, (digits - 1) as nat) + digit_text(n % 16)
    }
}

fn digit(d: u64) -> (r: &'static str)
    requires
        d < 16,
    ensures
        r@ == digit_text(d as nat),
{
    match d {
        0 => "0",
        1 => "1",
        2 => "2",
        3 => "3",
        4 => "4",
        5 => "5",
        6 => "6",
        7 => "7",
        8 => "8",
        9 => "9",
        10 => "a",
        11 => "b",
        12 => "c",
        13 => "d",
        14 => "e",
        _ => "f",
    }
}

fn append_decimal(out: &mut String, n: u64)
    ensures
        final(out)@ == old(out)@ + decimal_text(n as nat),
    decreases n,
{
    if n >= 10 {
        append_decimal(out, n / 10);
        proof {
            assert(old(out)@ + (decimal_text(n as nat / 10) + digit_text(n as nat % 10)) =~= old(
                out,
            )@ + decimal_text(n as nat / 10) + digit_text(n as nat % 10));
        }
    }
    out.append(digit(n % 10));
}

fn append_hex(out: &mut String, n: u64, digits: u8)
    ensures
        final(out)@ == old(out)@ + hex_text(n as nat, digits as nat),
    decreases digits,
{
    if digits == 0 {
        proof {
            assert(old(out)@ + Seq::<char>::empty() =~= old(out)@);
        }
    } else {
        append_hex(out, n / 16, digits - 1);
        proof {
            let high = hex_text(n as nat / 16, (digits - 1) as nat);
            let low = digit_text(n as nat % 16);
            assert(old(out)@ + (high + low) =~= old(out)@ + high + low);
        }
        out.append(digit(n % 16));
    }
}

/// A text followed by a number in decimal.
fn with_decimal(text: &str, n: u64) -> (r: String)
    ensures
        r@ == text@ + decimal_text(n as nat),
{
    let mut out: String = String::from_str(text);
    append_decimal(&mut out, n);
    out
}

/// Two texts, each followed by a number in decimal.
fn with_two(text: &str, n: u64, between: &str, m: u64) -> (r: String)
    ensures
        r@ == text@ + decimal_text(n as nat) + between@ + decimal_text(m as nat),
{
    let mut out: String = with_decimal(text, n);
    out.append(between);
    append_decimal(&mut out, m);
    out
}

impl Error {
    /// What the error says.
    pub open spec fn text(self) -> Seq<char> {
        match self {
            Error::Generic => "generic error"@,
            Error::InvalidParameter(parameter) => "invalid parameter: "@ + parameter@,
            Error::DstSizeTooSmall => "destination buffer too small"@,
            Error::SrcSizeWrong => "source size is invalid"@,
            Error::UnexpectedEof => "unexpected end of input"@,
            Error::BadMagic(magic) => "invalid frame magic number 0x"@ + hex_text(magic as nat, 8),
            Error::Corruption(message) => "corruption detected: "@ + message@,
            Error::TableLogTooLarge => "table log too large"@,
            Error::MaxSymbolValueTooLarge => "maximum symbol value too large"@,
            Error::MaxSymbolValueTooSmall => "maximum symbol value too small"@,
            Error::WorkSpaceTooSmall => "workspace too small"@,
            Error::WindowSizeTooLarge { window_size, max_window_size } => "frame window size "@
                + decimal_text(window_size as nat) + " exceeds configured limit "@ + decimal_text(
                max_window_size as nat,
            ),
            Error::DictionaryRequired(Some(id)) => "frame requires dictionary id "@ + decimal_text(
                id as nat,
            ),
            Error::DictionaryRequired(None) => "frame requires a dictionary"@,
            Error::DictionaryMismatch { expected, actual } =>
                "dictionary mismatch: frame requires id "@ + decimal_text(expected as nat)
                + ", got "@ + decimal_text(actual as nat),
            Error::OutputSizeTooLarge { output_size, max_output_size } => "decoded output size "@
                + decimal_text(output_size as nat) + " exceeds configured limit "@ + decimal_text(
                max_output_size as nat,
            ),
            Error::ContentSizeTooLarge(size) => "frame content size "@ + decimal_text(size as nat)
                + " exceeds this platform"@,
            Error::OutputSizeOverflow => "decoded output size overflowed this platform"@,
            Error::ContentSizeMismatch { expected, actual } =>
                "frame content size mismatch: expected "@ + decimal_text(expected as nat)
                + ", got "@ + decimal_text(actual as nat),
            Error::TrailingInput { offset } =>
                "input is not a single Zstandard frame: unexpected input at byte "@
                + decimal_text(offset as nat),
            Error::ChecksumMismatch { expected, actual } =>
                "content checksum mismatch: expected 0x"@ + hex_text(expected as nat, 8)
                + ", got 0x"@ + hex_text(actual as nat, 8),
        }
    }

    /// What the error says.
    pub fn message(&self) -> (r: String)
        ensures
            r@ == self.text(),
    {
        match self {
            Error::Generic => String::from_str("generic error"),
            Error::InvalidParameter(parameter) => String::from_str("invalid parameter: ").concat(
                parameter,
            ),
            Error::DstSizeTooSmall => String::from_str("destination buffer too small"),
            Error::SrcSizeWrong => String::from_str("source size is invalid"),
            Error::UnexpectedEof => String::from_str("unexpected end of input"),
            Error::BadMagic(magic) => {
                let mut out: String = String::from_str("invalid frame magic number 0x");
                append_hex(&mut out, *magic as u64, 8);
                out
            },
            Error::Corruption(message) => String::from_str("corruption detected: ").concat(message),
            Error::TableLogTooLarge => String::from_str("table log too large"),
            Error::MaxSymbolValueTooLarge => String::from_str("maximum symbol value too large"),
            Error::MaxSymbolValueTooSmall => String::from_str("maximum symbol value too small"),
            Error::WorkSpaceTooSmall => String::from_str("workspace too small"),
            Error::WindowSizeTooLarge { window_size, max_window_size } => with_two(
                "frame window size ",
                *window_size,
                " exceeds configured limit ",
                *max_window_size,
            ),
            Error::DictionaryRequired(Some(id)) => with_decimal(
                "frame requires dictionary id ",
                *id as u64,
            ),
            Error::DictionaryRequired(None) => String::from_str("frame requires a dictionary"),
            Error::DictionaryMismatch { expected, actual } => with_two(
                "dictionary mismatch: frame requires id ",
                *expected as u64,
                ", got ",
                *actual as u64,
            ),
            Error::OutputSizeTooLarge { output_size, max_output_size } => with_two(
                "decoded output size ",
                *output_size,
                " exceeds configured limit ",
                *max_output_size as u64,
            ),
            Error::ContentSizeTooLarge(size) => {
                let mut out: String = with_decimal("frame content size ", *size);
                out.append(" exceeds this platform");
                out
            },
            Error::OutputSizeOverflow => String::from_str(
                "decoded output size overflowed this platform",
            ),
            Error::ContentSizeMismatch { expected, actual } => with_two(
                "frame content size mismatch: expected ",
                *expected,
                ", got ",
                *actual,
            ),
            Error::TrailingInput { offset } => with_decimal(
                "input is not a single Zstandard frame: unexpected input at byte ",
                *offset as u64,
            ),
            Error::ChecksumMismatch { expected, actual } => {
                let mut out: String = String::from_str("content checksum mismatch: expected 0x");
                append_hex(&mut out, *expected as u64, 8);
                out.append(", got 0x");
                append_hex(&mut out, *actual as u64, 8);
                out
            },
        }
    }
}

/// Decimal digits: a number's text is that of its tenth followed by its last
/// digit, which stands that far behind the zero.
pub proof fn law_decimal_digits(n: nat, d: nat)
    requires
        d < 10,
    ensures
        ({
            let digit = decimal_text(d);
            &&& digit.len() == 1
            &&& digit[0] as u32 == '0' as u32 + d
            &&& n > 0 ==> decimal_text(10 * n + d) == decimal_text(n) + digit
        }),
{
    reveal_strlit("0");
    reveal_strlit("1");
    reveal_strlit("2");
    reveal_strlit("3");
    reveal_strlit("4");
    reveal_strlit("5");
    reveal_strlit("6");
    reveal_strlit("7");
    reveal_strlit("8");
    reveal_strlit("9");
}

/// Hexadecimal digits: the last of them stands for what sixteen leaves, the
/// others for the sixteenth. Ten is an a.
pub proof fn law_hexadecimal_digits(n: nat, d: nat, digits: nat)
    requires
        d < 16,
    ensures
        ({
            let digit = hex_text(d, 1);
            &&& digit.len() == 1
            &&& d < 10 ==> digit[0] as u32 == '0' as u32 + d
            &&& d >= 10 ==> digit[0] as u32 == 'a' as u32 + (d - 10)
            &&& hex_text(16 * n + d, digits + 1) == hex_text(n, digits) + digit
            &&& hex_text(n, digits).len() == digits
        }),
    decreases digits,
{
    reveal_strlit("0");
    reveal_strlit("1");
    reveal_strlit("2");
    reveal_strlit("3");
    reveal_strlit("4");
    reveal_strlit("5");
    reveal_strlit("6");
    reveal_strlit("7");
    reveal_strlit("8");
    reveal_strlit("9");
    reveal_strlit("a");
    reveal_strlit("b");
    reveal_strlit("c");
    reveal_strlit("d");
    reveal_strlit("e");
    reveal_strlit("f");
    assert(hex_text(d / 16, 0) == Seq::<char>::empty());
    assert(hex_text(d, 1) =~= digit_text(d));
    assert((16 * n + d) / 16 == n && (16 * n + d) % 16 == d);
    if digits > 0 {
        law_hexadecimal_digits(n / 16, n % 16, (digits - 1) as nat);
    }
}

} // verus!

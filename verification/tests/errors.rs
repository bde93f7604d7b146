//! What errors say.

use zstandard::Error;

#[test]
fn every_error_says_what_happened() {
    let cases = [
        (Error::Generic, "generic error"),
        (Error::InvalidParameter("level"), "invalid parameter: level"),
        (Error::DstSizeTooSmall, "destination buffer too small"),
        (Error::SrcSizeWrong, "source size is invalid"),
        (Error::UnexpectedEof, "unexpected end of input"),
        (
            Error::BadMagic(0x00ab_cd12),
            "invalid frame magic number 0x00abcd12",
        ),
        (Error::Corruption("bad"), "corruption detected: bad"),
        (Error::TableLogTooLarge, "table log too large"),
        (
            Error::MaxSymbolValueTooLarge,
            "maximum symbol value too large",
        ),
        (
            Error::MaxSymbolValueTooSmall,
            "maximum symbol value too small",
        ),
        (Error::WorkSpaceTooSmall, "workspace too small"),
        (
            Error::WindowSizeTooLarge {
                window_size: 1_048_577,
                max_window_size: 10,
            },
            "frame window size 1048577 exceeds configured limit 10",
        ),
        (
            Error::DictionaryRequired(Some(42)),
            "frame requires dictionary id 42",
        ),
        (Error::DictionaryRequired(None), "frame requires a dictionary"),
        (
            Error::DictionaryMismatch {
                expected: 7,
                actual: 1234567890,
            },
            "dictionary mismatch: frame requires id 7, got 1234567890",
        ),
        (
            Error::OutputSizeTooLarge {
                output_size: 100,
                max_output_size: 9,
            },
            "decoded output size 100 exceeds configured limit 9",
        ),
        (
            Error::ContentSizeTooLarge(u64::MAX),
            "frame content size 18446744073709551615 exceeds this platform",
        ),
        (
            Error::OutputSizeOverflow,
            "decoded output size overflowed this platform",
        ),
        (
            Error::ContentSizeMismatch {
                expected: 0,
                actual: 5,
            },
            "frame content size mismatch: expected 0, got 5",
        ),
        (
            Error::TrailingInput { offset: 306 },
            "input is not a single Zstandard frame: unexpected input at byte 306",
        ),
        (
            Error::ChecksumMismatch {
                expected: 0xdead_beef,
                actual: 1,
            },
            "content checksum mismatch: expected 0xdeadbeef, got 0x00000001",
        ),
    ];
    for (error, text) in cases {
        assert_eq!(error.message(), text);
    }
}

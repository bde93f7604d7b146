//! What an encode target of a fuzzer does with an input: the options it
//! encodes with, the body, and how the body is fed to the encoder; and what it
//! then holds the frame's header to.

use crate::error::Error;
use crate::error::Result;
use crate::frame;
use crate::frame::Format;
use crate::frame::FrameHeader;
use crate::fuzz;
use crate::fuzz_config;
use crate::fuzz_config::BodyShape;
use crate::fuzz_config::FUZZ_BLOCK_SIZES;
use crate::options::CompressionLevel;
use crate::options::EncoderOptions;
use crate::options::ParameterLimits;
use vstd::arithmetic::power2::*;
use vstd::prelude::*;

verus! {

/// How many pieces a body is split into at most.
pub const MAX_FUZZ_PUSHES: usize = 4096;

/// The options that seven control bytes name.
///
/// The third byte holds two header flags and, above them, the body's shape.
/// The two frame-format flags stand at the bottom of the last byte, with the
/// long-distance switches above them, and the two modes at the top of the
/// second.
pub open spec fn options_named(control: Seq<u8>, limits: ParameterLimits) -> EncoderOptions {
    EncoderOptions {
        block_size: FUZZ_BLOCK_SIZES@[control[1] as int % 8],
        checksum: control[2] % 2 == 1,
        write_dict_id: control[2] / 2 % 2 == 1,
        compression_level: CompressionLevel {
            level: fuzz_config::level_named(control[0]) as i32,
        },
        parameters: fuzz_config::overrides(
            control[3],
            control[4],
            control[5],
            control[6] / 4,
            control[1] / 8,
            limits,
        ),
        pledged_src_size: None,
        write_content_size: control[6] % 2 == 0,
        format: if control[6] / 2 % 2 == 0 {
            Format::Zstd1
        } else {
            Format::Zstd1Magicless
        },
    }
}

/// The options and the body shape that seven control bytes name.
pub fn encoder_options_from(control: [u8; 7], limits: &ParameterLimits) -> (r: (
    EncoderOptions,
    BodyShape,
))
    requires
        limits.wf(),
    ensures
        r.0 == options_named(control@, *limits),
        r.0.compression_level.wf(),
        r.1 == fuzz_config::shape_named(control@[2], r.0.compression_level),
{
    let level = fuzz_config::level_from(control[0]);
    let options = EncoderOptions {
        block_size: FUZZ_BLOCK_SIZES[(control[1] % 8) as usize],
        checksum: control[2] % 2 == 1,
        write_dict_id: control[2] / 2 % 2 == 1,
        compression_level: level,
        parameters: fuzz_config::overrides_from(
            control[3],
            [control[4], control[5]],
            control[6] / 4,
            control[1] / 8,
            limits,
        ),
        pledged_src_size: None,
        write_content_size: control[6] % 2 == 0,
        format: if control[6] / 2 % 2 == 0 {
            Format::Zstd1
        } else {
            Format::Zstd1Magicless
        },
    };
    (options, fuzz_config::body_shape_from(control[2], level))
}

fn first_seven(control: &[u8]) -> (r: [u8; 7])
    requires
        control@.len() >= 7,
    ensures
        r@ == control@.take(7),
{
    let r: [u8; 7] = [
        control[0],
        control[1],
        control[2],
        control[3],
        control[4],
        control[5],
        control[6],
    ];
    proof {
        assert(r@ =~= control@.take(7));
    }
    r
}

// ---------------------------------------------------------------------------
// In one call.

/// A body to encode in one call.
pub struct EncodePlan {
    pub options: EncoderOptions,
    pub body: Vec<u8>,
}

/// Reads an input as a body to encode in one call. Inputs too short to hold
/// the seven control bytes are declined.
pub fn encode_plan(data: &[u8], limits: &ParameterLimits) -> (r: Option<EncodePlan>)
    requires
        limits.wf(),
    ensures
        r is Some <==> data@.len() >= 7,
        r matches Some(plan) ==> {
            &&& plan.options == options_named(data@.take(7), *limits)
            &&& plan.body@ == fuzz_config::shaped(
                data@.skip(7),
                plan.options.compression_level,
                fuzz_config::shape_named(data@[2], plan.options.compression_level),
            )
        },
{
    let (control, seed) = fuzz_config::split_control(data, 7)?;
    let (options, shape) = encoder_options_from(first_seven(control), limits);
    proof {
        assert(control@.take(7) =~= data@.take(7));
    }
    let body: Vec<u8> = fuzz_config::shape_body(seed, options.compression_level, shape);
    Some(EncodePlan { options, body })
}

// ---------------------------------------------------------------------------
// In pieces.

/// A body to push into a streaming encoder piece by piece.
pub struct StreamingEncodePlan {
    pub options: EncoderOptions,
    pub body: Vec<u8>,
    /// The size of a piece.
    pub chunk: usize,
    /// A flush follows every piece whose number this divides; zero for none.
    pub flush_every: usize,
}

impl StreamingEncodePlan {
    /// Whether a flush follows a piece.
    pub fn flushes_after(&self, index: usize) -> (r: bool)
        ensures
            r == (self.flush_every != 0 && index as int % self.flush_every as int == 0),
    {
        self.flush_every != 0 && index % self.flush_every == 0
    }
}

/// The larger of two sizes.
pub open spec fn larger(a: nat, b: nat) -> nat {
    if a < b {
        b
    } else {
        a
    }
}

fn max_of(a: usize, b: usize) -> (r: usize)
    ensures
        r == larger(a as nat, b as nat),
{
    if a < b {
        b
    } else {
        a
    }
}

/// The size of the pieces: a power of two or everything at once, and in any
/// case enough that there are not too many of them.
pub open spec fn push_size(control: u8, len: nat) -> nat {
    let asked = if control % 16 <= 8 {
        pow2(control as nat % 16)
    } else {
        larger(len, 1)
    };
    larger(larger(asked, len / MAX_FUZZ_PUSHES as nat), 1)
}

fn power(shift: u8) -> (r: usize)
    requires
        shift <= 8,
    ensures
        r == pow2(shift as nat),
        0 < r <= 256,
{
    proof {
        lemma2_to64();
    }
    match shift {
        0 => 1,
        1 => 2,
        2 => 4,
        3 => 8,
        4 => 16,
        5 => 32,
        6 => 64,
        7 => 128,
        _ => 256,
    }
}

/// The size of the pieces that a body of `len` bytes is pushed in.
pub fn push_size_for(control: u8, len: usize) -> (r: usize)
    ensures
        r == push_size(control, len as nat),
        r > 0,
{
    let asked: usize = if control % 16 <= 8 {
        power(control % 16)
    } else {
        max_of(len, 1)
    };
    max_of(max_of(asked, len / MAX_FUZZ_PUSHES), 1)
}

/// Pieces are never so small that a body needs more than twice the number of
/// pushes allowed.
pub proof fn law_pushes_are_bounded(control: u8, len: nat)
    ensures
        push_size(control, len) > 0,
        len <= 2 * (MAX_FUZZ_PUSHES * push_size(control, len)),
{
    let q = len / MAX_FUZZ_PUSHES as nat;
    lemma2_to64();
    let p = push_size(control, len);
    assert(len < 4096 * (q + 1));
    assert(q <= p && 1 <= p);
}

/// Reads an input as a body to encode in pieces. Inputs too short to hold the
/// eight control bytes are declined.
pub fn streaming_encode_plan(data: &[u8], limits: &ParameterLimits) -> (r: Option<
    StreamingEncodePlan,
>)
    requires
        limits.wf(),
    ensures
        r is Some <==> data@.len() >= 8,
        r matches Some(plan) ==> {
            &&& plan.options == options_named(data@.take(7), *limits)
            &&& plan.body@ == fuzz_config::shaped(
                data@.skip(8),
                plan.options.compression_level,
                fuzz_config::shape_named(data@[2], plan.options.compression_level),
            )
            &&& plan.chunk == push_size(data@[7], plan.body@.len())
            &&& plan.flush_every == data@[7] / 16
        },
{
    let (control, seed) = fuzz_config::split_control(data, 8)?;
    let (options, shape) = encoder_options_from(first_seven(control), limits);
    proof {
        assert(control@.take(7) =~= data@.take(7));
    }
    let body: Vec<u8> = fuzz_config::shape_body(seed, options.compression_level, shape);
    let chunk: usize = push_size_for(control[7], body.len());
    Some(StreamingEncodePlan { options, body, chunk, flush_every: (control[7] / 16) as usize })
}

/// The size of the pieces that a frame is fed to a decoder in: a power of two
/// up to 128, or everything at once.
pub open spec fn feed_size(selector: u8, len: nat) -> nat {
    if selector % 9 == 8 {
        larger(len, 1)
    } else {
        pow2(selector as nat % 9)
    }
}

/// The size of the pieces that a frame is fed to a decoder in.
pub fn feed_size_for(selector: u8, len: usize) -> (r: usize)
    ensures
        r == feed_size(selector, len as nat),
        r > 0,
{
    if selector % 9 == 8 {
        max_of(len, 1)
    } else {
        power(selector % 9)
    }
}

// ---------------------------------------------------------------------------
// With a dictionary.

/// A body to encode with a dictionary.
pub struct DictionaryEncodePlan {
    pub options: EncoderOptions,
    pub dictionary: Vec<u8>,
    pub body: Vec<u8>,
}

fn copied(bytes: &[u8], from: usize, to: usize) -> (r: Vec<u8>)
    requires
        from <= to <= bytes@.len(),
    ensures
        r@ == bytes@.subrange(from as int, to as int),
{
    let mut out: Vec<u8> = Vec::new();
    out.extend_from_slice(&bytes[from..to]);
    proof {
        assert(out@ =~= bytes@.subrange(from as int, to as int));
    }
    out
}

/// Reads an input as a dictionary and a body. The eighth control byte says
/// what share of the rest is the dictionary; the body is never tiled.
pub fn dictionary_encode_plan(data: &[u8], limits: &ParameterLimits) -> (r: Option<
    DictionaryEncodePlan,
>)
    requires
        limits.wf(),
    ensures
        r is Some <==> data@.len() >= 8,
        r matches Some(plan) ==> {
            let rest = data@.skip(8);
            let at = data@[7] as int * rest.len() / 256;
            &&& plan.options == options_named(data@.take(7), *limits)
            &&& plan.dictionary@ == rest.subrange(0, at)
            &&& plan.body@ == fuzz_config::shaped(
                rest.subrange(at, rest.len() as int),
                plan.options.compression_level,
                BodyShape::Seed,
            )
        },
{
    let (control, rest) = fuzz_config::split_control(data, 8)?;
    let (options, _) = encoder_options_from(first_seven(control), limits);
    proof {
        assert(control@.take(7) =~= data@.take(7));
        let share = control@[7] as int;
        let len = rest@.len() as int;
        assert(0 <= share * len <= 255 * len) by (nonlinear_arith)
            requires
                0 <= share <= 255,
                0 <= len,
        ;
    }
    let at: usize = (control[7] as u128 * rest.len() as u128 / 256) as usize;
    let dictionary: Vec<u8> = copied(rest, 0, at);
    let seed: Vec<u8> = copied(rest, at, rest.len());
    let body: Vec<u8> = fuzz_config::shape_body(
        seed.as_slice(),
        options.compression_level,
        BodyShape::Seed,
    );
    Some(DictionaryEncodePlan { options, dictionary, body })
}

// ---------------------------------------------------------------------------
// The window that a frame declares.

/// The most that a frame needs of a window: what the parser's history, the
/// blocks and the content take, whichever is largest.
pub open spec fn window_needed(max_history_bytes: nat, block_size: nat, body_len: nat) -> nat {
    larger(larger(max_history_bytes, larger(block_size, 1024)), body_len)
}

/// The frame is one whose header declares no larger window than the smallest
/// representable one that holds `needed` bytes.
pub open spec fn window_within(header: FrameHeader, needed: nat) -> bool {
    header matches FrameHeader::Zstandard(h) && forall|d: u8| #[trigger]
        frame::window_of(d) >= needed ==> h.window_size <= frame::window_of(d)
}

/// Whether a frame declares no larger window than its encoder used. A frame
/// that cannot be parsed is an error, as is a window that no header can
/// declare.
pub fn check_declared_window(
    encoded: &[u8],
    format: Format,
    max_history_bytes: usize,
    block_size: usize,
    body_len: usize,
) -> (r: Result<bool>)
    ensures
        ({
            let needed = window_needed(
                max_history_bytes as nat,
                block_size as nat,
                body_len as nat,
            );
            match frame::frame_header(encoded@, format) {
                Err(e) => r == Err::<bool, Error>(e),
                Ok(header) => if needed > frame::window_of(255) {
                    r == Err::<bool, Error>(Error::InvalidParameter("window_size is too large"))
                } else {
                    r == Ok::<bool, Error>(window_within(header, needed))
                },
            }
        }),
{
    let header = frame::parse_frame_header_with_format(encoded, format)?;
    let needed: usize = max_of(max_of(max_history_bytes, max_of(block_size, 1024)), body_len);
    let ceiling: u64 = frame::representable_window_size(needed as u64)?;
    match header {
        FrameHeader::Zstandard(h) => {
            proof {
                let d = choose|d: u8| #[trigger] frame::window_of(d) == ceiling;
                assert(frame::window_of(d) >= needed);
            }
            Ok(h.window_size <= ceiling)
        },
        FrameHeader::Skippable(_) => Ok(false),
    }
}

// ---------------------------------------------------------------------------
// What an encoder is held to. Each of these takes the frames that the encoder
// gave and what they decode to.

/// What is expected of a frame: its header declares no more than `needed`
/// bytes of window, and it decodes to the body.
pub open spec fn roundtrip_verdict(
    encoded: Seq<u8>,
    decoded: Seq<u8>,
    body: Seq<u8>,
    format: Format,
    needed: nat,
) -> Result<bool> {
    match frame::frame_header(encoded, format) {
        Err(e) => Err(e),
        Ok(header) => if needed > frame::window_of(255) {
            Err(Error::InvalidParameter("window_size is too large"))
        } else {
            Ok(window_within(header, needed) && decoded == body)
        },
    }
}

/// Holds an encode in one call to its plan: the frame parses, declares no
/// larger window than the parser's history, the blocks and the body need, and
/// decodes to the body.
pub fn encode_roundtrip(
    plan: &EncodePlan,
    encoded: &[u8],
    decoded: &[u8],
    max_history_bytes: usize,
) -> (r: Result<bool>)
    ensures
        r == roundtrip_verdict(
            encoded@,
            decoded@,
            plan.body@,
            plan.options.format,
            window_needed(
                max_history_bytes as nat,
                plan.options.block_size as nat,
                plan.body@.len(),
            ),
        ),
{
    let within: bool = check_declared_window(
        encoded,
        plan.options.format,
        max_history_bytes,
        plan.options.block_size,
        plan.body.len(),
    )?;
    let same: bool = fuzz::same_bytes(decoded, plan.body.as_slice());
    Ok(within && same)
}

/// Holds a streaming encode to its plan, and the frame that the same encoder
/// makes of the first half of the body after a reset.
pub fn streaming_encode_roundtrip(
    plan: &StreamingEncodePlan,
    encoded: &[u8],
    decoded: &[u8],
    second_encoded: &[u8],
    second_decoded: &[u8],
    max_history_bytes: usize,
) -> (r: Result<bool>)
    ensures
        ({
            let half = plan.body@.take(plan.body@.len() as int / 2);
            let first = roundtrip_verdict(
                encoded@,
                decoded@,
                plan.body@,
                plan.options.format,
                window_needed(
                    max_history_bytes as nat,
                    plan.options.block_size as nat,
                    plan.body@.len(),
                ),
            );
            let second = roundtrip_verdict(
                second_encoded@,
                second_decoded@,
                half,
                plan.options.format,
                window_needed(
                    max_history_bytes as nat,
                    plan.options.block_size as nat,
                    half.len(),
                ),
            );
            match first {
                Err(e) => r == Err::<bool, Error>(e),
                Ok(a) => match second {
                    Err(e) => r == Err::<bool, Error>(e),
                    Ok(b) => r == Ok::<bool, Error>(a && b),
                },
            }
        }),
{
    let within: bool = check_declared_window(
        encoded,
        plan.options.format,
        max_history_bytes,
        plan.options.block_size,
        plan.body.len(),
    )?;
    let same: bool = fuzz::same_bytes(decoded, plan.body.as_slice());
    let half: &[u8] = &plan.body.as_slice()[0..plan.body.len() / 2];
    proof {
        assert(half@ =~= plan.body@.take(plan.body@.len() as int / 2));
    }
    let second_within: bool = check_declared_window(
        second_encoded,
        plan.options.format,
        max_history_bytes,
        plan.options.block_size,
        half.len(),
    )?;
    let second_same: bool = fuzz::same_bytes(second_decoded, half);
    Ok(within && same && second_within && second_same)
}

/// Holds an encode with a dictionary to its plan: the frame decodes to the
/// body, and encoding again gives the same frame.
pub fn dictionary_encode_roundtrip(
    plan: &DictionaryEncodePlan,
    encoded: &[u8],
    decoded: &[u8],
    again: &[u8],
) -> (r: bool)
    ensures
        r == (decoded@ == plan.body@ && encoded@ == again@),
{
    let same: bool = fuzz::same_bytes(decoded, plan.body.as_slice());
    let repeated: bool = fuzz::same_bytes(encoded, again);
    same && repeated
}

} // verus!

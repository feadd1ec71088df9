//! The codec adapter: the brotli compress/decompress capability behind a
//! block-oriented contract. The codec's algorithm is opaque; only its
//! block-in/block-out behaviour is stated.

use vstd::prelude::*;
use crate::config::{CodecConfig, Mode};
use crate::fault::Fault;
use crate::splitter::Block;
use crate::queue::WriteBuffer;

verus! {

/// The compressed stream the codec emits for one block, as a function of the
/// block's bytes and of the parameter set alone.
pub uninterp spec fn compress_of(
    data: Seq<u8>,
    quality: int,
    lgwin: int,
    lgblock: int,
    mode: int,
) -> Seq<u8>;

/// `compress_of` applied with a configuration's parameters.
pub open spec fn compress_of_cfg(data: Seq<u8>, cfg: CodecConfig) -> Seq<u8> {
    compress_of(data, cfg.quality as int, cfg.lgwin as int, cfg.lgblock as int, cfg.mode.code())
}

/// What decoding the first codec stream of a byte sequence yields: the
/// decompressed bytes, and how many leading bytes that stream occupies.
pub uninterp spec fn first_stream_of(data: Seq<u8>) -> (Seq<u8>, int);

/// Whether a byte sequence begins with one well-formed, complete codec
/// stream; decoding is deterministic, so this is a function of the bytes
/// alone.
pub uninterp spec fn stream_ok(data: Seq<u8>) -> bool;

/// Relies on brotli2's `bufread::BrotliEncoder` read to its end: it encodes
/// the whole input as one brotli stream, deterministically from the input
/// bytes and the `CompressParams` (quality, window, block size, mode) alone.
/// The encoder accepts every input and every parameter combination
/// (out-of-range values are clamped, not rejected), so the call succeeds;
/// only the process running out of memory could fail it, which this model
/// leaves out, as the allocating containers do.
///
/// The last two clauses are the codec's documented losslessness: the
/// emitted stream is never empty (it ends in a final-block marker), it is
/// self-terminating — a decoder stops at its end whatever bytes follow —
/// and decoding it yields back exactly the input block.
#[verifier::external_body]
fn compress_block_raw(data: &Vec<u8>, quality: u32, lgwin: u32, lgblock: u32, mode: Mode) -> (r:
    Result<Vec<u8>, Fault>)
    ensures
        r is Ok,
        r matches Ok(out) ==> out@ == compress_of(
            data@,
            quality as int,
            lgwin as int,
            lgblock as int,
            mode.code(),
        ),
        r matches Ok(out) ==> out@.len() >= 1,
        r matches Ok(out) ==> forall|rest: Seq<u8>| stream_ok(#[trigger] (out@ + rest)),
        r matches Ok(out) ==> forall|rest: Seq<u8>|
            first_stream_of(#[trigger] (out@ + rest)) == (data@, out@.len() as int),
{
    let mut params = brotli2::CompressParams::new();
    params.quality(quality).lgwin(lgwin).lgblock(lgblock).mode(
        match mode {
            Mode::Generic => brotli2::CompressMode::Generic,
            Mode::Text => brotli2::CompressMode::Text,
            Mode::Font => brotli2::CompressMode::Font,
        },
    );
    let mut enc = brotli2::bufread::BrotliEncoder::from_params(data.as_slice(), &params);
    let mut out = Vec::new();
    match std::io::Read::read_to_end(&mut enc, &mut out) {
        Ok(_) => Ok(out),
        Err(_) => Err(Fault::Codec),
    }
}

/// Relies on brotli2's `bufread::BrotliDecoder` read to its end: it decodes
/// exactly the first brotli stream of its input, consumes only that stream's
/// bytes (at least one on success, since the decoder rejects empty input),
/// and fails on a malformed or truncated stream; decoding is deterministic,
/// so success, output and consumption are all functions of the input bytes
/// alone — the call returns `Ok` exactly when the input begins with a
/// well-formed complete stream.
#[verifier::external_body]
fn decompress_first(data: &Vec<u8>, pos: usize) -> (r: Result<(Vec<u8>, usize), Fault>)
    requires
        pos < data@.len(),
    ensures
        r is Ok <==> stream_ok(data@.skip(pos as int)),
        r matches Ok(p) ==> ({
            let s = first_stream_of(data@.skip(pos as int));
            &&& p.0@ == s.0
            &&& p.1 as int == s.1
            &&& 1 <= p.1 <= data@.len() - pos
        }),
{
    let mut dec = brotli2::bufread::BrotliDecoder::new(&data[pos..]);
    let mut out = Vec::new();
    match std::io::Read::read_to_end(&mut dec, &mut out) {
        Ok(_) => {
            let rest: &[u8] = dec.into_inner();
            Ok((out, data.len() - pos - rest.len()))
        },
        Err(_) => Err(Fault::Codec),
    }
}

/// The decompressed form of a whole sequence of codec streams laid end to
/// end: the first stream's output, then the rest's.
pub open spec fn streams_out(data: Seq<u8>) -> Seq<u8>
    decreases data.len(),
{
    if data.len() == 0 {
        Seq::empty()
    } else {
        let s = first_stream_of(data);
        if 1 <= s.1 <= data.len() {
            s.0 + streams_out(data.skip(s.1))
        } else {
            s.0
        }
    }
}

/// Whether every codec stream in `data`, laid end to end, is well formed:
/// empty input holds no stream, and otherwise the first stream must be well
/// formed and the remainder must be in turn.
pub open spec fn streams_all_ok(data: Seq<u8>) -> bool
    decreases data.len(),
{
    if data.len() == 0 {
        true
    } else if !stream_ok(data) {
        false
    } else {
        let s = first_stream_of(data);
        if 1 <= s.1 <= data.len() {
            streams_all_ok(data.skip(s.1))
        } else {
            true
        }
    }
}

/// The concatenated decode of the well-formed streams strictly before the
/// first malformed one (all of them, when none is malformed).
pub open spec fn decoded_prefix(data: Seq<u8>) -> Seq<u8>
    decreases data.len(),
{
    if data.len() == 0 {
        Seq::empty()
    } else if !stream_ok(data) {
        Seq::empty()
    } else {
        let s = first_stream_of(data);
        if 1 <= s.1 <= data.len() {
            s.0 + decoded_prefix(data.skip(s.1))
        } else {
            s.0
        }
    }
}

/// The codec adapter for one unit of worker work: compress a ranked block,
/// preserving its rank unchanged. Compression is owed success, its result
/// is never empty, and the emitted stream decodes back to exactly the
/// block's bytes whatever follows it.
pub fn process_block(block: Block, cfg: &CodecConfig) -> (r: Result<WriteBuffer, Fault>)
    ensures
        r is Ok,
        r matches Ok(wb) ==> wb.rank == block.rank && wb.data@ == compress_of_cfg(
            block.data@,
            *cfg,
        ),
        r matches Ok(wb) ==> wb.data@.len() >= 1,
        r matches Ok(wb) ==> forall|rest: Seq<u8>| stream_ok(#[trigger] (wb.data@ + rest)),
        r matches Ok(wb) ==> forall|rest: Seq<u8>|
            first_stream_of(#[trigger] (wb.data@ + rest)) == (block.data@, wb.data@.len() as int),
{
    match compress_block_raw(&block.data, cfg.quality, cfg.lgwin, cfg.lgblock, cfg.mode) {
        Ok(d) => Ok(WriteBuffer { rank: block.rank, data: d }),
        Err(_) => Err(Fault::Codec),
    }
}

/// Decode the first codec stream of `data` starting at `pos`.
///
/// Succeeds exactly when a well-formed complete stream starts there: then
/// the decoded bytes and the stream's length in `data` are returned, the
/// length at least 1 and at most what remains. A malformed or truncated
/// stream is a codec fault.
pub fn decode_stream(data: &Vec<u8>, pos: usize) -> (r: Result<(Vec<u8>, usize), Fault>)
    requires
        pos < data@.len(),
    ensures
        r is Ok <==> stream_ok(data@.skip(pos as int)),
        r matches Ok(p) ==> ({
            let s = first_stream_of(data@.skip(pos as int));
            &&& p.0@ == s.0
            &&& p.1 as int == s.1
            &&& 1 <= p.1 <= data@.len() - pos
        }),
        r is Err ==> r == Err::<(Vec<u8>, usize), Fault>(Fault::Codec),
{
    match decompress_first(data, pos) {
        Ok(p) => Ok(p),
        Err(_) => Err(Fault::Codec),
    }
}

} // verus!

//! The pipeline driver: split, apply the codec per block, reassemble in rank
//! order, for one full run over an in-memory byte stream.

use vstd::prelude::*;
use crate::codec::{
    compress_of_cfg, decode_stream, decoded_prefix, first_stream_of, process_block, stream_ok,
    streams_all_ok, streams_out,
};
use crate::config::{CodecConfig, Way};
use crate::fault::Fault;
use crate::queue::{
    concat_buffers, data_at_rank, has_rank, is_run, rank_ordered_concat, reassemble, WriteBuffer,
};
use crate::splitter::{block_data, split_blocks, split_spec};

verus! {

/// The concatenation of a sequence of byte chunks, in order.
pub open spec fn concat_chunks(s: Seq<Seq<u8>>) -> Seq<u8>
    decreases s.len(),
{
    if s.len() == 0 {
        Seq::empty()
    } else {
        concat_chunks(s.drop_last()) + s.last()
    }
}

/// Each block of `input`, compressed under `cfg`, in rank order.
pub open spec fn compressed_chunks(input: Seq<u8>, cfg: CodecConfig) -> Seq<Seq<u8>> {
    split_spec(input, cfg.block_size_spec()).map_values(|c: Seq<u8>| compress_of_cfg(c, cfg))
}

/// The compressed form of the whole input stream: its blocks' compressed
/// streams, concatenated in ascending rank order.
pub open spec fn pipeline_output(input: Seq<u8>, cfg: CodecConfig) -> Seq<u8> {
    concat_chunks(compressed_chunks(input, cfg))
}

/// Chunk concatenation can be peeled from the front as well as the back.
proof fn lemma_concat_front(s: Seq<Seq<u8>>)
    requires
        s.len() > 0,
    ensures
        concat_chunks(s) == s[0] + concat_chunks(s.skip(1)),
    decreases s.len(),
{
    if s.len() == 1 {
        assert(s.drop_last() =~= Seq::<Seq<u8>>::empty());
        assert(s.skip(1) =~= Seq::<Seq<u8>>::empty());
        assert(Seq::<u8>::empty() + s[0] =~= s[0]);
        assert(s[0] + Seq::<u8>::empty() =~= s[0]);
    } else {
        lemma_concat_front(s.drop_last());
        assert(s.skip(1).drop_last() =~= s.drop_last().skip(1));
        assert(s.skip(1).last() == s.last());
        assert(s.drop_last()[0] == s[0]);
        assert((s[0] + concat_chunks(s.drop_last().skip(1))) + s.last() =~= s[0] + (
        concat_chunks(s.drop_last().skip(1)) + s.last()));
    }
}

/// The split's chunks laid end to end are the original bytes.
proof fn lemma_split_concat(data: Seq<u8>, bsize: int)
    requires
        bsize >= 1,
    ensures
        concat_chunks(split_spec(data, bsize)) == data,
    decreases data.len(),
{
    if data.len() == 0 {
        assert(split_spec(data, bsize) =~= Seq::<Seq<u8>>::empty());
        assert(data =~= Seq::<u8>::empty());
    } else if data.len() <= bsize {
        let s = seq![data];
        assert(split_spec(data, bsize) == s);
        assert(s.drop_last() =~= Seq::<Seq<u8>>::empty());
        assert(s.last() == data);
        assert(concat_chunks(s) == concat_chunks(Seq::<Seq<u8>>::empty()) + data);
        assert(Seq::<u8>::empty() + data =~= data);
    } else {
        lemma_split_concat(data.skip(bsize), bsize);
        let s = split_spec(data, bsize);
        lemma_concat_front(s);
        assert(s[0] == data.take(bsize));
        assert(s.skip(1) =~= split_spec(data.skip(bsize), bsize));
        assert(concat_chunks(s) == data.take(bsize) + concat_chunks(
            split_spec(data.skip(bsize), bsize),
        ));
        assert(data.take(bsize) + data.skip(bsize) =~= data);
    }
}

/// The round-trip law at the stream level: chunks that each compress to a
/// nonempty, self-terminating codec stream decoding back to the chunk,
/// whatever follows it, concatenate to a wholly well-formed compressed
/// stream whose decode is the chunks laid end to end.
proof fn lemma_decode_concat(raw: Seq<Seq<u8>>, comp: Seq<Seq<u8>>)
    requires
        raw.len() == comp.len(),
        forall|i: int| 0 <= i < comp.len() ==> (#[trigger] comp[i]).len() >= 1,
        forall|i: int, rest: Seq<u8>|
            0 <= i < comp.len() ==> stream_ok(#[trigger] (comp[i] + rest)),
        forall|i: int, rest: Seq<u8>|
            0 <= i < comp.len() ==> first_stream_of(#[trigger] (comp[i] + rest)) == (
            raw[i],
            comp[i].len() as int,
            ),
    ensures
        streams_all_ok(concat_chunks(comp)),
        streams_out(concat_chunks(comp)) == concat_chunks(raw),
    decreases comp.len(),
{
    if comp.len() == 0 {
    } else {
        let rawt = raw.skip(1);
        let compt = comp.skip(1);
        assert forall|i: int| 0 <= i < compt.len() implies (#[trigger] compt[i]).len() >= 1 by {
            assert(compt[i] == comp[i + 1]);
        }
        assert forall|i: int, rest: Seq<u8>| 0 <= i < compt.len() implies stream_ok(
            #[trigger] (compt[i] + rest),
        ) by {
            assert(compt[i] == comp[i + 1]);
            assert(stream_ok(comp[i + 1] + rest));
        }
        assert forall|i: int, rest: Seq<u8>| 0 <= i < compt.len() implies first_stream_of(
            #[trigger] (compt[i] + rest),
        ) == (rawt[i], compt[i].len() as int) by {
            assert(compt[i] == comp[i + 1] && rawt[i] == raw[i + 1]);
            assert(first_stream_of(comp[i + 1] + rest) == (raw[i + 1], comp[i + 1].len() as int));
        }
        lemma_decode_concat(rawt, compt);
        lemma_concat_front(comp);
        let c0 = comp[0];
        let tail = concat_chunks(compt);
        let whole = concat_chunks(comp);
        assert(whole == c0 + tail);
        assert(stream_ok(c0 + tail));
        assert(first_stream_of(c0 + tail) == (raw[0], c0.len() as int));
        assert(whole.len() >= 1);
        assert((c0 + tail).skip(c0.len() as int) =~= tail);
        assert(streams_all_ok(whole));
        lemma_concat_front(raw);
        assert(streams_out(whole) == concat_chunks(raw));
    }
}

/// Releasing ranks `0 .. k-1` in ascending order concatenates the same bytes
/// as laying the chunks those ranks carry end to end.
proof fn lemma_rank_concat(results: Seq<WriteBuffer>, chunks: Seq<Seq<u8>>, k: int)
    requires
        0 <= k <= chunks.len(),
        forall|r: int| 0 <= r < k ==> data_at_rank(results, r) == chunks[r],
    ensures
        rank_ordered_concat(results, k) == concat_chunks(chunks.take(k)),
    decreases k,
{
    if k > 0 {
        lemma_rank_concat(results, chunks, k - 1);
        assert(chunks.take(k).drop_last() =~= chunks.take(k - 1));
        assert(chunks.take(k).last() == chunks[k - 1]);
    }
}

/// Compress a whole input stream: split it into ranked blocks, hand each
/// block to the codec, and reassemble the results in rank order.
///
/// The run is owed success, and its output is exactly the blocks'
/// compressed streams in ascending rank order; two runs over the same bytes
/// and configuration return the same result. The output is a wholly
/// well-formed compressed stream whose decompression is exactly the input
/// again: the round trip holds.
#[verifier::loop_isolation(false)]
pub fn compress_pipeline(input: &Vec<u8>, cfg: &CodecConfig) -> (r: Result<Vec<u8>, Fault>)
    requires
        cfg.wf(),
    ensures
        r is Ok,
        r matches Ok(out) ==> out@ == pipeline_output(input@, *cfg),
        r matches Ok(out) ==> streams_all_ok(out@) && streams_out(out@) == input@,
{
    let bsize = cfg.block_size();
    let ghost chunks = split_spec(input@, cfg.block_size_spec());
    let mut blocks = split_blocks(input, bsize);
    let ghost blocks0 = blocks@;
    let nb = blocks.len();
    let ghost n = nb as int;
    proof {
        assert(chunks.len() == n);
        assert(forall|i: int|
            0 <= i < n ==> (#[trigger] blocks0[i].data@) == block_data(blocks0)[i]);
    }
    let mut results: Vec<WriteBuffer> = Vec::new();
    while blocks.len() > 0
        invariant
            blocks@.len() <= n,
            blocks@ == blocks0.take(blocks@.len() as int),
            results@.len() == n - blocks@.len(),
            forall|k: int|
                0 <= k < results@.len() ==> (#[trigger] results@[k]).rank == n - 1 - k
                    && results@[k].data@ == compress_of_cfg(chunks[n - 1 - k], *cfg)
                    && results@[k].data@.len() >= 1,
            forall|k: int, rest: Seq<u8>|
                0 <= k < results@.len() ==> stream_ok(#[trigger] (results@[k].data@ + rest)),
            forall|k: int, rest: Seq<u8>|
                0 <= k < results@.len() ==> first_stream_of(
                    #[trigger] (results@[k].data@ + rest),
                ) == (chunks[n - 1 - k], results@[k].data@.len() as int),
        decreases blocks@.len(),
    {
        let ghost m = blocks@.len() as int;
        let b = blocks.pop().unwrap();
        proof {
            assert(b == blocks0[m - 1]);
            assert(blocks@ =~= blocks0.take(m - 1));
            assert(b.rank == m - 1);
            assert(b.data@ == chunks[m - 1]);
        }
        match process_block(b, cfg) {
            Ok(wb) => {
                results.push(wb);
            },
            Err(_) => {
                return Err(Fault::Codec);
            },
        }
    }
    proof {
        assert forall|r: int| 0 <= r < n implies has_rank(results@, r) by {
            assert(results@[n - 1 - r].rank == r);
        }
        assert(is_run(results@, n));
        assert forall|r: int| 0 <= r < n implies data_at_rank(results@, r) == compress_of_cfg(
            chunks[r],
            *cfg,
        ) by {
            assert(has_rank(results@, r));
            let w = crate::queue::rank_index(results@, r);
            assert(0 <= w < results@.len() && results@[w].rank == r);
            assert(w == n - 1 - r);
        }
        assert forall|r: int| 0 <= r < n implies data_at_rank(results@, r) == compressed_chunks(
            input@,
            *cfg,
        )[r] by {}
    }
    let ghost results0 = results@;
    let drained = reassemble(results);
    let out = concat_buffers(&drained);
    proof {
        let comps = compressed_chunks(input@, *cfg);
        lemma_rank_concat(results0, comps, n);
        assert(comps.take(n) =~= comps);
        assert forall|i: int| 0 <= i < comps.len() implies (#[trigger] comps[i]).len() >= 1 by {
            assert(results0[n - 1 - i].data@ == comps[i]);
        }
        assert forall|i: int, rest: Seq<u8>| 0 <= i < comps.len() implies stream_ok(
            #[trigger] (comps[i] + rest),
        ) by {
            assert(results0[n - 1 - i].data@ == comps[i]);
            assert(stream_ok(results0[n - 1 - i].data@ + rest));
        }
        assert forall|i: int, rest: Seq<u8>| 0 <= i < comps.len() implies first_stream_of(
            #[trigger] (comps[i] + rest),
        ) == (chunks[i], comps[i].len() as int) by {
            assert(results0[n - 1 - i].data@ == comps[i]);
            assert(first_stream_of(results0[n - 1 - i].data@ + rest) == (
                chunks[n - 1 - (n - 1 - i)],
                results0[n - 1 - i].data@.len() as int,
            ));
        }
        lemma_decode_concat(chunks, comps);
        lemma_split_concat(input@, cfg.block_size_spec());
    }
    Ok(out)
}

/// Decompress a whole stream of codec streams laid end to end.
///
/// Streams are decoded front to back; decoded bytes accumulate in order. A
/// fault is reported exactly when some stream in the sequence is malformed
/// or truncated. A clean run returns the decompression of every stream; a
/// faulted run returns exactly the decode of the well-formed streams
/// strictly before the first malformed one, and nothing of that one.
#[verifier::loop_isolation(false)]
pub fn decompress_pipeline(input: &Vec<u8>) -> (r: (Vec<u8>, Option<Fault>))
    ensures
        r.1 is None <==> streams_all_ok(input@),
        r.1 is None ==> r.0@ == streams_out(input@),
        r.1 is Some ==> r.1 == Some(Fault::Codec) && r.0@ == decoded_prefix(input@),
{
    let mut out: Vec<u8> = Vec::new();
    let mut pos: usize = 0;
    proof {
        assert(input@.skip(0) =~= input@);
        assert(out@ + streams_out(input@) =~= streams_out(input@));
        assert(out@ + decoded_prefix(input@) =~= decoded_prefix(input@));
    }
    while pos < input.len()
        invariant
            pos <= input@.len(),
            out@ + streams_out(input@.skip(pos as int)) == streams_out(input@),
            out@ + decoded_prefix(input@.skip(pos as int)) == decoded_prefix(input@),
            streams_all_ok(input@) == streams_all_ok(input@.skip(pos as int)),
        decreases input@.len() - pos,
    {
        let ghost rem = input@.skip(pos as int);
        match decode_stream(input, pos) {
            Ok((piece, used)) => {
                proof {
                    let s = first_stream_of(rem);
                    assert(rem.len() > 0);
                    assert(stream_ok(rem));
                    assert(streams_out(rem) == s.0 + streams_out(rem.skip(s.1)));
                    assert(decoded_prefix(rem) == s.0 + decoded_prefix(rem.skip(s.1)));
                    assert(streams_all_ok(rem) == streams_all_ok(rem.skip(s.1)));
                    assert(rem.skip(used as int) =~= input@.skip(pos + used));
                }
                let mut piece = piece;
                out.append(&mut piece);
                pos = pos + used;
            },
            Err(_) => {
                proof {
                    assert(rem.len() > 0);
                    assert(!stream_ok(rem));
                    assert(!streams_all_ok(rem));
                    assert(decoded_prefix(rem) =~= Seq::<u8>::empty());
                    assert(out@ + Seq::<u8>::empty() =~= out@);
                }
                return (out, Some(Fault::Codec));
            },
        }
    }
    proof {
        assert(input@.skip(input@.len() as int) =~= Seq::<u8>::empty());
        assert(out@ + Seq::<u8>::empty() =~= out@);
        assert(streams_all_ok(Seq::<u8>::empty()));
    }
    (out, None)
}

/// One full pipeline run over an in-memory stream, in the given direction.
///
/// A compressing run always completes and produces exactly the rank-ordered
/// compressed blocks. A decompressing run faults exactly when some codec
/// stream is malformed, keeping the decode of the streams before it; a clean
/// one produces exactly the decoded streams. The only fault either run
/// surfaces is the codec's.
pub fn run_pipeline(way: Way, input: &Vec<u8>, cfg: &CodecConfig) -> (r: (Vec<u8>, Option<Fault>))
    requires
        way == Way::Compress ==> cfg.wf(),
    ensures
        way == Way::Compress ==> r.1 is None && r.0@ == pipeline_output(input@, *cfg)
            && streams_all_ok(r.0@) && streams_out(r.0@) == input@,
        way == Way::Decompress ==> {
            &&& (r.1 is None <==> streams_all_ok(input@))
            &&& (r.1 is None ==> r.0@ == streams_out(input@))
            &&& (r.1 is Some ==> r.1 == Some(Fault::Codec) && r.0@ == decoded_prefix(input@))
        },
{
    match way {
        Way::Compress => {
            match compress_pipeline(input, cfg) {
                Ok(out) => (out, None),
                Err(_) => (Vec::new(), Some(Fault::Codec)),
            }
        },
        Way::Decompress => decompress_pipeline(input),
    }
}

} // verus!

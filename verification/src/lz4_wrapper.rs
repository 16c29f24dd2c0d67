//! Block-level general compression.
//!
//! The input is split into fixed-size chunks; each chunk is handed to a
//! generic block compressor (flate2's DEFLATE) and framed as
//! `[original_length: u32 LE][compressed_length: u32 LE][compressed_bytes]`
//! behind a leading `[block_count: u32 LE]`. The engine only relies on the
//! collaborator being an exact inverse of itself on blocks it produced.

use vstd::prelude::*;
use vstd::slice::{slice_subrange, slice_to_vec};
use std::io::Read;
use std::io::Write;
use crate::error::CompressError;
use crate::wire::{le32_at, le32_bytes, lemma_le32_at_bytes, read_le32, push_le32, append_bytes};

verus! {

/// Names the bytes that the block compressor produces for a given block:
/// a pure function of the block's bytes at the fixed compression level.
pub uninterp spec fn deflate_of(b: Seq<u8>) -> Seq<u8>;

/// Relies on flate2::write::DeflateEncoder (level `fast`): compressing a
/// block is deterministic in the block's bytes, and write/finish only
/// fail through the underlying writer, which for `Vec<u8>` cannot fail —
/// so compression always succeeds.
#[verifier::external_body]
fn deflate_compress_block(data: &[u8]) -> (r: Result<Vec<u8>, CompressError>)
    ensures
        r is Ok,
        r matches Ok(v) ==> v@ == deflate_of(data@),
{
    let mut encoder = flate2::write::DeflateEncoder::new(Vec::new(), flate2::Compression::fast());
    if let Err(e) = encoder.write_all(data) {
        return Err(CompressError::Lz4Error(e.to_string()));
    }
    encoder.finish().map_err(|e| CompressError::Lz4Error(e.to_string()))
}

/// Relies on flate2::read::DeflateDecoder: decompression exactly inverts
/// the encoder's output, whatever block that output was produced from.
#[verifier::external_body]
fn deflate_decompress_block(data: &[u8]) -> (r: Result<Vec<u8>, CompressError>)
    ensures
        r matches Ok(v) ==> forall|b: Seq<u8>| data@ == deflate_of(b) ==> v@ == b,
        r is Err ==> forall|b: Seq<u8>| data@ != deflate_of(b),
        r matches Err(e) ==> e is Lz4Error,
{
    let mut decoder = flate2::read::DeflateDecoder::new(data);
    let mut output = Vec::new();
    if let Err(e) = decoder.read_to_end(&mut output) {
        return Err(CompressError::Lz4Error(e.to_string()));
    }
    Ok(output)
}

/// The chunking of `d` into blocks of `bs` bytes; the last chunk may be
/// shorter, and an empty input has no chunks.
pub open spec fn chunks_of(d: Seq<u8>, bs: int) -> Seq<Seq<u8>>
    recommends
        bs >= 1,
    decreases d.len(),
{
    if d.len() == 0 || bs < 1 {
        Seq::empty()
    } else if d.len() <= bs {
        seq![d]
    } else {
        seq![d.take(bs)] + chunks_of(d.skip(bs), bs)
    }
}

/// Concatenation of a sequence of byte blocks, in order.
pub open spec fn concat_seqs(ss: Seq<Seq<u8>>) -> Seq<u8>
    decreases ss.len(),
{
    if ss.len() == 0 {
        Seq::empty()
    } else {
        ss[0] + concat_seqs(ss.skip(1))
    }
}

/// Chunking then concatenating gives back the input.
pub proof fn lemma_concat_chunks(d: Seq<u8>, bs: int)
    requires
        bs >= 1,
    ensures
        concat_seqs(chunks_of(d, bs)) == d,
    decreases d.len(),
{
    if d.len() == 0 {
        assert(concat_seqs(chunks_of(d, bs)) =~= d);
    } else if d.len() <= bs {
        let cs = chunks_of(d, bs);
        assert(cs == seq![d]);
        assert(cs.skip(1) =~= Seq::<Seq<u8>>::empty());
        assert(concat_seqs(cs.skip(1)) == Seq::<u8>::empty());
        assert(concat_seqs(cs) =~= d);
    } else {
        lemma_concat_chunks(d.skip(bs), bs);
        let cs = chunks_of(d, bs);
        assert(cs == seq![d.take(bs)] + chunks_of(d.skip(bs), bs));
        assert(cs[0] == d.take(bs));
        assert(cs.skip(1) =~= chunks_of(d.skip(bs), bs));
        assert(concat_seqs(cs) == d.take(bs) + d.skip(bs));
        assert(d.take(bs) + d.skip(bs) =~= d);
    }
}

proof fn lemma_concat_seqs_push(ss: Seq<Seq<u8>>, x: Seq<u8>)
    ensures
        concat_seqs(ss.push(x)) == concat_seqs(ss) + x,
    decreases ss.len(),
{
    let l = ss.push(x);
    assert(concat_seqs(l) == l[0] + concat_seqs(l.skip(1)));
    if ss.len() == 0 {
        assert(l[0] == x);
        assert(l.skip(1) =~= Seq::<Seq<u8>>::empty());
        assert(concat_seqs(l.skip(1)) == Seq::<u8>::empty());
        assert(concat_seqs(ss) == Seq::<u8>::empty());
        assert(concat_seqs(l) =~= concat_seqs(ss) + x);
    } else {
        lemma_concat_seqs_push(ss.skip(1), x);
        assert(l.skip(1) =~= ss.skip(1).push(x));
        assert(l[0] == ss[0]);
        assert(concat_seqs(l.skip(1)) == concat_seqs(ss.skip(1)) + x);
        assert(concat_seqs(ss) == ss[0] + concat_seqs(ss.skip(1)));
        assert(ss[0] + (concat_seqs(ss.skip(1)) + x)
            =~= (ss[0] + concat_seqs(ss.skip(1))) + x);
    }
}

/// Parse `n` frames (`[orig_len][comp_len][comp_bytes]`) starting at
/// `pos`; yields each frame's stored original length and compressed block
/// contents, and the position past them.
pub open spec fn parse_frames(s: Seq<u8>, pos: int, n: int) -> Option<(Seq<(int, Seq<u8>)>, int)>
    decreases n,
{
    if n <= 0 {
        Some((Seq::empty(), pos))
    } else if 0 <= pos && pos + 8 <= s.len() && pos + 8 + le32_at(s, pos + 4) <= s.len() {
        let clen = le32_at(s, pos + 4);
        match parse_frames(s, pos + 8 + clen, n - 1) {
            Some(r) => Some(
                (seq![(le32_at(s, pos), s.subrange(pos + 8, pos + 8 + clen))] + r.0, r.1),
            ),
            None => None,
        }
    } else {
        None
    }
}

/// Parsing `k + m` frames first parses `k`, then continues from where
/// those ended.
proof fn lemma_parse_frames_split(s: Seq<u8>, pos: int, k: int, m: int)
    requires
        0 <= k,
        0 <= m,
        parse_frames(s, pos, k) is Some,
    ensures
        parse_frames(s, pos, k + m) == match parse_frames(
            s,
            parse_frames(s, pos, k)->Some_0.1,
            m,
        ) {
            Some(r) => Some::<(Seq<(int, Seq<u8>)>, int)>(
                (parse_frames(s, pos, k)->Some_0.0 + r.0, r.1),
            ),
            None => None::<(Seq<(int, Seq<u8>)>, int)>,
        },
    decreases k,
{
    let (fs, p) = parse_frames(s, pos, k)->Some_0;
    if k == 0 {
        assert(fs == Seq::<(int, Seq<u8>)>::empty() && p == pos);
        match parse_frames(s, pos, m) {
            Some(r) => {
                assert(fs + r.0 =~= r.0);
            },
            None => {},
        }
    } else {
        let clen = le32_at(s, pos + 4);
        let first = (le32_at(s, pos), s.subrange(pos + 8, pos + 8 + clen));
        let rest = parse_frames(s, pos + 8 + clen, k - 1);
        assert(rest is Some);
        lemma_parse_frames_split(s, pos + 8 + clen, k - 1, m);
        assert(rest->Some_0.1 == p);
        match parse_frames(s, p, m) {
            Some(r) => {
                assert(parse_frames(s, pos + 8 + clen, k - 1 + m)
                    == Some::<(Seq<(int, Seq<u8>)>, int)>((rest->Some_0.0 + r.0, r.1)));
                assert(k + m - 1 == k - 1 + m);
                assert(parse_frames(s, pos, k + m)
                    == Some::<(Seq<(int, Seq<u8>)>, int)>(
                        (seq![first] + (rest->Some_0.0 + r.0), r.1),
                    ));
                assert(seq![first] + (rest->Some_0.0 + r.0) =~= (seq![first] + rest->Some_0.0) + r.0);
                assert(fs == seq![first] + rest->Some_0.0);
            },
            None => {
                assert(parse_frames(s, pos + 8 + clen, k - 1 + m) is None);
                assert(parse_frames(s, pos, k + m) is None);
            },
        }
    }
}

/// The serialized form of one frame: the original and compressed lengths,
/// then the compressed bytes.
pub open spec fn ser_frame(olen: u32, comp: Seq<u8>) -> Seq<u8> {
    le32_bytes(olen) + le32_bytes(comp.len() as u32) + comp
}

/// The serialized frame list.
pub open spec fn ser_frames(fs: Seq<(u32, Seq<u8>)>) -> Seq<u8>
    decreases fs.len(),
{
    if fs.len() == 0 {
        Seq::empty()
    } else {
        ser_frame(fs[0].0, fs[0].1) + ser_frames(fs.skip(1))
    }
}

proof fn lemma_ser_frames_push(fs: Seq<(u32, Seq<u8>)>, olen: u32, comp: Seq<u8>)
    ensures
        ser_frames(fs.push((olen, comp))) == ser_frames(fs) + ser_frame(olen, comp),
    decreases fs.len(),
{
    let l = fs.push((olen, comp));
    assert(ser_frames(l) == ser_frame(l[0].0, l[0].1) + ser_frames(l.skip(1)));
    if fs.len() == 0 {
        assert(l[0] == (olen, comp));
        assert(l.skip(1) =~= Seq::<(u32, Seq<u8>)>::empty());
        assert(ser_frames(l.skip(1)) == Seq::<u8>::empty());
        assert(ser_frames(fs) == Seq::<u8>::empty());
        assert(ser_frames(l) =~= ser_frames(fs) + ser_frame(olen, comp));
    } else {
        lemma_ser_frames_push(fs.skip(1), olen, comp);
        assert(l.skip(1) =~= fs.skip(1).push((olen, comp)));
        assert(l[0] == fs[0]);
        assert(ser_frames(l.skip(1)) == ser_frames(fs.skip(1)) + ser_frame(olen, comp));
        assert(ser_frames(fs) == ser_frame(fs[0].0, fs[0].1) + ser_frames(fs.skip(1)));
        assert(ser_frame(fs[0].0, fs[0].1) + (ser_frames(fs.skip(1)) + ser_frame(olen, comp))
            =~= (ser_frame(fs[0].0, fs[0].1) + ser_frames(fs.skip(1))) + ser_frame(olen, comp));
    }
}

/// A serialized frame list parses back to exactly the compressed block
/// contents it was written from.
proof fn lemma_parse_ser_frames(s: Seq<u8>, pos: int, fs: Seq<(u32, Seq<u8>)>)
    requires
        0 <= pos,
        pos + ser_frames(fs).len() <= s.len(),
        s.subrange(pos, pos + ser_frames(fs).len() as int) == ser_frames(fs),
        forall|i: int| 0 <= i < fs.len() ==> #[trigger] fs[i].1.len() < 0x100000000,
    ensures
        parse_frames(s, pos, fs.len() as int) == Some(
            (
                fs.map_values(|f: (u32, Seq<u8>)| (f.0 as int, f.1)),
                pos + ser_frames(fs).len() as int,
            ),
        ),
    decreases fs.len(),
{
    if fs.len() == 0 {
        assert(fs.map_values(|f: (u32, Seq<u8>)| (f.0 as int, f.1))
            =~= Seq::<(int, Seq<u8>)>::empty());
    } else {
        let olen = fs[0].0;
        let c0 = fs[0].1;
        let clen = c0.len() as int;
        let total = ser_frames(fs);
        let ltot = total.len() as int;
        let rest = ser_frames(fs.skip(1));
        assert(total == ser_frame(olen, c0) + rest);
        assert(ser_frame(olen, c0).len() == 8 + clen);
        assert((c0.len() as u32) as int == clen);
        assert(s.subrange(pos, pos + 4) =~= total.subrange(0, 4));
        assert(total.subrange(0, 4) =~= le32_bytes(olen));
        lemma_le32_at_bytes(s, pos, olen);
        assert(s.subrange(pos + 4, pos + 8) =~= total.subrange(4, 8));
        assert(total.subrange(4, 8) =~= le32_bytes(c0.len() as u32));
        lemma_le32_at_bytes(s, pos + 4, c0.len() as u32);
        assert(le32_at(s, pos + 4) == clen);
        assert(s.subrange(pos + 8, pos + 8 + clen) =~= total.subrange(8, 8 + clen));
        assert(total.subrange(8, 8 + clen) =~= c0);
        let pos2 = pos + 8 + clen;
        assert(s.subrange(pos2, pos2 + rest.len() as int) =~= total.subrange(8 + clen, ltot));
        assert(total.subrange(8 + clen, ltot) =~= rest);
        lemma_parse_ser_frames(s, pos2, fs.skip(1));
        lemma_le32_at_bytes(s, pos, olen);
        assert(seq![(le32_at(s, pos), s.subrange(pos + 8, pos + 8 + clen))]
            + fs.skip(1).map_values(|f: (u32, Seq<u8>)| (f.0 as int, f.1))
            =~= fs.map_values(|f: (u32, Seq<u8>)| (f.0 as int, f.1)));
    }
}

/// A payload is a block-compressed encoding of `d` at block size `bs`
/// when its frame list parses with nothing trailing and holds, in order,
/// each chunk's length and the block compressor's output for that chunk.
pub open spec fn lz4_encoding(enc: Seq<u8>, d: Seq<u8>, bs: int) -> bool {
    &&& bs >= 1
    &&& enc.len() >= 4
    &&& match parse_frames(enc, 4, le32_at(enc, 0)) {
        Some((frames, end)) => {
            &&& end == enc.len()
            &&& frames.len() == chunks_of(d, bs).len()
            &&& forall|i: int| 0 <= i < frames.len()
                ==> #[trigger] frames[i].1 == deflate_of(chunks_of(d, bs)[i])
                    && frames[i].0 == chunks_of(d, bs)[i].len()
        },
        None => false,
    }
}

/// Split `data` into chunks of `block_size` bytes, compress each chunk
/// with the block compressor, and frame the results. On success the
/// output is a block-compressed encoding of `data`, which together with
/// the contract of [`decompress`] gives the round-trip guarantee; the
/// only failures are the collaborator's own.
pub fn compress(data: &[u8], block_size: usize) -> (r: Result<Vec<u8>, CompressError>)
    requires
        block_size >= 1,
        data@.len() < 0x100000000,
    ensures
        r matches Ok(v) ==> lz4_encoding(v@, data@, block_size as int),
        r matches Err(e) ==> e is Lz4Error,
        (forall|i: int| 0 <= i < chunks_of(data@, block_size as int).len()
            ==> #[trigger] deflate_of(chunks_of(data@, block_size as int)[i]).len()
                < 0x100000000) ==> r is Ok,
{
    let n = data.len();
    let ghost bs = block_size as int;
    let ghost chunks = chunks_of(data@, bs);
    let mut frames: Vec<(u32, Vec<u8>)> = Vec::new();
    let ghost mut done: Seq<Seq<u8>> = Seq::empty();
    let mut i: usize = 0;
    proof {
        assert(data@.skip(0) =~= data@);
        assert(done + chunks_of(data@, bs) =~= chunks_of(data@, bs));
    }
    while i < n
        invariant
            n == data@.len(),
            n < 0x100000000,
            block_size >= 1,
            bs == block_size as int,
            chunks == chunks_of(data@, bs),
            i <= n,
            frames@.len() <= i,
            done.len() == frames@.len(),
            chunks == done + chunks_of(data@.skip(i as int), bs),
            forall|j: int| 0 <= j < frames@.len()
                ==> #[trigger] frames@[j].1@ == deflate_of(done[j])
                    && frames@[j].0 as int == done[j].len()
                    && frames@[j].1@.len() < 0x100000000,
        decreases n - i,
    {
        let end = if n - i > block_size { i + block_size } else { n };
        let chunk = slice_subrange(data, i, end);
        let comp = match deflate_compress_block(chunk) {
            Ok(c) => c,
            Err(e) => {
                proof {
                    assert(false);
                }
                return Err(e);
            },
        };
        if comp.len() as u64 > 0xFFFFFFFFu64 {
            proof {
                let rem = data@.skip(i as int);
                if rem.len() <= bs {
                    assert(chunk@ =~= rem);
                    assert(chunks_of(rem, bs) == seq![rem]);
                } else {
                    assert(chunk@ =~= rem.take(bs));
                    assert(chunks_of(rem, bs)
                        == seq![rem.take(bs)] + chunks_of(rem.skip(bs), bs));
                }
                assert(chunks_of(data@, bs)[done.len() as int] == chunk@);
                assert(deflate_of(chunks_of(data@, bs)[done.len() as int]).len()
                    >= 0x100000000);
            }
            return Err(CompressError::Lz4Error("compressed block too large".to_string()));
        }
        proof {
            let rem = data@.skip(i as int);
            if rem.len() <= bs {
                assert(chunk@ =~= rem);
                assert(chunks_of(rem, bs) == seq![rem]);
                assert(chunks_of(data@.skip(end as int), bs)
                    =~= Seq::<Seq<u8>>::empty());
            } else {
                assert(chunk@ =~= rem.take(bs));
                assert(rem.skip(bs) =~= data@.skip(end as int));
                assert(chunks_of(rem, bs)
                    == seq![rem.take(bs)] + chunks_of(data@.skip(end as int), bs));
            }
            assert(done + chunks_of(data@.skip(i as int), bs)
                =~= done.push(chunk@) + chunks_of(data@.skip(end as int), bs));
        }
        frames.push(((end - i) as u32, comp));
        proof {
            done = done.push(chunk@);
        }
        i = end;
    }
    proof {
        assert(data@.skip(n as int) =~= Seq::<u8>::empty());
        assert(chunks_of(Seq::<u8>::empty(), bs) == Seq::<Seq<u8>>::empty());
        assert(done + Seq::<Seq<u8>>::empty() =~= done);
        assert(chunks == done);
    }

    // Serialize: the frame count, then each frame.
    let ghost fsv: Seq<(u32, Seq<u8>)> = frames@.map_values(|f: (u32, Vec<u8>)| (f.0, f.1@));
    let cnt32 = frames.len() as u32;
    let mut output: Vec<u8> = Vec::new();
    push_le32(&mut output, cnt32);
    let mut k: usize = 0;
    while k < frames.len()
        invariant
            fsv == frames@.map_values(|f: (u32, Vec<u8>)| (f.0, f.1@)),
            cnt32 as int == fsv.len(),
            fsv.len() == frames@.len(),
            k <= frames@.len(),
            forall|j: int| 0 <= j < fsv.len() ==> #[trigger] fsv[j].1.len() < 0x100000000,
            output@ == le32_bytes(cnt32) + ser_frames(fsv.take(k as int)),
        decreases frames@.len() - k,
    {
        let olen = frames[k].0;
        proof {
            assert(fsv[k as int].1.len() < 0x100000000);
            assert(fsv[k as int].1 == frames@[k as int].1@);
        }
        let clen32 = frames[k].1.len() as u32;
        push_le32(&mut output, olen);
        push_le32(&mut output, clen32);
        append_bytes(&mut output, &frames[k].1);
        proof {
            lemma_ser_frames_push(fsv.take(k as int), fsv[k as int].0, fsv[k as int].1);
            assert(fsv.take(k as int + 1) =~= fsv.take(k as int).push(fsv[k as int]));
            assert(ser_frame(fsv[k as int].0, fsv[k as int].1)
                == le32_bytes(olen) + le32_bytes(clen32) + frames@[k as int].1@);
            assert(output@ =~= le32_bytes(cnt32) + ser_frames(fsv.take(k as int + 1)));
        }
        k = k + 1;
    }
    proof {
        assert(fsv.take(fsv.len() as int) =~= fsv);
        let s = output@;
        let lf = ser_frames(fsv);
        assert(s == le32_bytes(cnt32) + lf);
        assert(s.subrange(0, 4) =~= le32_bytes(cnt32));
        lemma_le32_at_bytes(s, 0, cnt32);
        assert(s.subrange(4, 4 + lf.len() as int) =~= lf);
        lemma_parse_ser_frames(s, 4, fsv);
        let pf = fsv.map_values(|f: (u32, Seq<u8>)| (f.0 as int, f.1));
        assert(parse_frames(s, 4, fsv.len() as int) == Some((pf, 4 + lf.len() as int)));
        assert(le32_at(s, 0) == cnt32 as int);
        assert(pf.len() == chunks_of(data@, bs).len());
        assert(forall|j: int| 0 <= j < pf.len()
            ==> #[trigger] pf[j].1 == deflate_of(chunks_of(data@, bs)[j])
                && pf[j].0 == chunks_of(data@, bs)[j].len());
        assert(lz4_encoding(s, data@, bs));
    }
    Ok(output)
}

/// Parse the frame list and hand each compressed block to the block
/// decompressor, concatenating the results in frame order. Whatever this
/// payload was produced from at whatever block size, the original bytes
/// come back; `original_size` is only a capacity hint.
pub fn decompress(data: &[u8], original_size: usize) -> (r: Result<Vec<u8>, CompressError>)
    ensures
        forall|d: Seq<u8>, bs: int| lz4_encoding(data@, d, bs)
            ==> (r matches Ok(v) && v@ == d),
        r matches Err(e) ==> e is Lz4Error,
        r is Ok ==> data@.len() >= 4 && parse_frames(data@, 4, le32_at(data@, 0)) is Some,
{
    let n = data.len();
    if n < 4 {
        return Err(CompressError::Lz4Error("data too short".to_string()));
    }
    let num_blocks = read_le32(data, 0);
    let mut pos: usize = 4;
    let mut output: Vec<u8> = Vec::with_capacity(original_size);
    let ghost mut fdone: Seq<(int, Seq<u8>)> = Seq::empty();
    let ghost mut decoded: Seq<Seq<u8>> = Seq::empty();
    let mut t: u32 = 0;
    while t < num_blocks
        invariant
            n == data@.len(),
            n >= 4,
            num_blocks as int == le32_at(data@, 0),
            t <= num_blocks,
            4 <= pos <= n,
            fdone.len() == t as int,
            parse_frames(data@, 4, t as int) == Some((fdone, pos as int)),
            decoded.len() == fdone.len(),
            forall|j: int, b: Seq<u8>| #![trigger decoded[j], deflate_of(b)]
                0 <= j < fdone.len() && fdone[j].1 == deflate_of(b) ==> decoded[j] == b,
            output@ == concat_seqs(decoded),
        decreases num_blocks - t,
    {
        proof {
            lemma_parse_frames_split(data@, 4, t as int, num_blocks - t);
        }
        if n - pos < 8 {
            proof {
                assert(parse_frames(data@, pos as int, num_blocks - t) is None);
                assert(parse_frames(data@, 4, num_blocks as int) is None);
            }
            return Err(CompressError::Lz4Error("truncated block header".to_string()));
        }
        let comp_len = read_le32(data, pos + 4);
        if comp_len as usize > n - pos - 8 {
            proof {
                assert(parse_frames(data@, pos as int, num_blocks - t) is None);
                assert(parse_frames(data@, 4, num_blocks as int) is None);
            }
            return Err(CompressError::Lz4Error("truncated block data".to_string()));
        }
        let comp = slice_subrange(data, pos + 8, pos + 8 + comp_len as usize);
        let ghost old_fdone = fdone;
        let ghost old_decoded = decoded;
        proof {
            lemma_parse_frames_split(data@, 4, t as int, 1);
            assert(parse_frames(data@, pos as int + 8 + comp_len as int, 0)
                == Some((Seq::<(int, Seq<u8>)>::empty(), pos as int + 8 + comp_len as int)));
            let fe = (le32_at(data@, pos as int), comp@);
            assert(seq![fe] + Seq::<(int, Seq<u8>)>::empty() =~= seq![fe]);
            assert(parse_frames(data@, pos as int, 1)
                == Some((seq![fe], pos as int + 8 + comp_len as int)));
            assert(fdone + seq![fe] =~= fdone.push(fe));
            assert(parse_frames(data@, 4, t as int + 1)
                == Some((fdone.push(fe), pos as int + 8 + comp_len as int)));
        }
        let block = match deflate_decompress_block(comp) {
            Ok(b) => b,
            Err(e) => {
                proof {
                    assert forall|d: Seq<u8>, bs: int| !lz4_encoding(data@, d, bs) by {
                        if lz4_encoding(data@, d, bs) {
                            let full = parse_frames(data@, 4, num_blocks as int)->Some_0.0;
                            let rtail = parse_frames(data@, pos as int, num_blocks - t);
                            assert(rtail is Some);
                            assert(full == fdone + rtail->Some_0.0);
                            assert(rtail->Some_0.0[0].1 == comp@);
                            assert(full[t as int].1 == comp@);
                            assert(full[t as int].1
                                == deflate_of(chunks_of(d, bs)[t as int]));
                            assert(false);
                        }
                    }
                }
                return Err(e);
            },
        };
        append_bytes(&mut output, &block);
        proof {
            lemma_concat_seqs_push(old_decoded, block@);
            fdone = fdone.push((le32_at(data@, pos as int), comp@));
            decoded = decoded.push(block@);
        }
        pos = pos + 8 + comp_len as usize;
        t = t + 1;
    }
    proof {
        assert forall|d: Seq<u8>, bs: int| lz4_encoding(data@, d, bs) implies output@ == d by {
            let frames = parse_frames(data@, 4, le32_at(data@, 0))->Some_0.0;
            assert(frames == fdone);
            let chs = chunks_of(d, bs);
            assert(frames.len() == chs.len());
            assert(decoded.len() == chs.len());
            assert forall|j: int| 0 <= j < decoded.len() implies decoded[j] == chs[j] by {
                assert(frames[j].1 == deflate_of(chs[j]));
            }
            assert(decoded =~= chs);
            lemma_concat_chunks(d, bs);
        }
    }
    Ok(output)
}

} // verus!

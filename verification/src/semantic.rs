//! Content-addressable deduplication codec.
//!
//! The input is partitioned into fixed-size 64-byte blocks (the last block
//! may be shorter). Byte-identical blocks are stored once, in first-seen
//! order, in a unique-block table; a reference list (one entry per input
//! block, in original order) reconstructs the input. Deduplication is
//! purely exact-match; the similarity threshold is accepted as
//! configuration but unused by this codec.
//!
//! Wire format: `[unique_block_count: u32 LE]` then, for each unique block
//! in first-seen order, `[block_length: u32 LE][block_bytes]`, then
//! `[reference_count: u32 LE]` and one `u32 LE` index per reference.

use vstd::prelude::*;
use vstd::slice::{slice_subrange, slice_to_vec};
use crate::error::CompressError;
use crate::lz4_wrapper::chunks_of;
use crate::wire::{le32_at, le32_bytes, lemma_le32_at_bytes, read_le32, push_le32, append_bytes, bytes_eq};

verus! {

/// Parse `n` length-prefixed blocks starting at `pos`; yields the blocks
/// and the position just past them, or `None` on truncation.
pub open spec fn parse_blocks(s: Seq<u8>, pos: int, n: int) -> Option<(Seq<Seq<u8>>, int)>
    decreases n,
{
    if n <= 0 {
        Some((Seq::empty(), pos))
    } else if 0 <= pos && pos + 4 <= s.len() && pos + 4 + le32_at(s, pos) <= s.len() {
        let blen = le32_at(s, pos);
        match parse_blocks(s, pos + 4 + blen, n - 1) {
            Some(r) => Some((seq![s.subrange(pos + 4, pos + 4 + blen)] + r.0, r.1)),
            None => None,
        }
    } else {
        None
    }
}

/// Parse `n` little-endian 32-bit references starting at `pos`.
pub open spec fn parse_refs(s: Seq<u8>, pos: int, n: int) -> Option<(Seq<int>, int)>
    decreases n,
{
    if n <= 0 {
        Some((Seq::empty(), pos))
    } else if 0 <= pos && pos + 4 <= s.len() {
        match parse_refs(s, pos + 4, n - 1) {
            Some(r) => Some((seq![le32_at(s, pos)] + r.0, r.1)),
            None => None,
        }
    } else {
        None
    }
}

/// Concatenation of the referenced blocks, in reference order.
pub open spec fn concat_refs(blocks: Seq<Seq<u8>>, refs: Seq<int>) -> Seq<u8>
    decreases refs.len(),
{
    if refs.len() == 0 {
        Seq::empty()
    } else {
        concat_refs(blocks, refs.drop_last()) + blocks[refs.last()]
    }
}

/// What a deduplicated payload decodes to; `None` when malformed
/// (truncated table, truncated reference list, or an out-of-range index).
pub open spec fn dedup_decoding(s: Seq<u8>) -> Option<Seq<u8>> {
    if s.len() < 4 {
        None
    } else {
        match parse_blocks(s, 4, le32_at(s, 0)) {
            None => None,
            Some((blocks, p)) => if p + 4 <= s.len() {
                match parse_refs(s, p + 4, le32_at(s, p)) {
                    None => None,
                    Some((refs, _q)) => if forall|i: int|
                        0 <= i < refs.len() ==> 0 <= #[trigger] refs[i] < blocks.len() {
                        Some(concat_refs(blocks, refs))
                    } else {
                        None
                    },
                }
            } else {
                None
            },
        }
    }
}

/// Parsing `k + m` blocks first parses `k`, then continues from where
/// those ended.
proof fn lemma_parse_blocks_split(s: Seq<u8>, pos: int, k: int, m: int)
    requires
        0 <= k,
        0 <= m,
        parse_blocks(s, pos, k) is Some,
    ensures
        parse_blocks(s, pos, k + m) == match parse_blocks(
            s,
            parse_blocks(s, pos, k)->Some_0.1,
            m,
        ) {
            Some(r) => Some::<(Seq<Seq<u8>>, int)>((parse_blocks(s, pos, k)->Some_0.0 + r.0, r.1)),
            None => None::<(Seq<Seq<u8>>, int)>,
        },
    decreases k,
{
    let (bs, p) = parse_blocks(s, pos, k)->Some_0;
    if k == 0 {
        assert(bs == Seq::<Seq<u8>>::empty() && p == pos);
        match parse_blocks(s, pos, m) {
            Some(r) => {
                assert(bs + r.0 =~= r.0);
            },
            None => {},
        }
    } else {
        let blen = le32_at(s, pos);
        let first = s.subrange(pos + 4, pos + 4 + blen);
        let rest = parse_blocks(s, pos + 4 + blen, k - 1);
        assert(rest is Some);
        lemma_parse_blocks_split(s, pos + 4 + blen, k - 1, m);
        assert(rest->Some_0.1 == p);
        match parse_blocks(s, p, m) {
            Some(r) => {
                assert(parse_blocks(s, pos + 4 + blen, k - 1 + m)
                    == Some::<(Seq<Seq<u8>>, int)>((rest->Some_0.0 + r.0, r.1)));
                assert(k + m - 1 == k - 1 + m);
                assert(parse_blocks(s, pos, k + m)
                    == Some::<(Seq<Seq<u8>>, int)>((seq![first] + (rest->Some_0.0 + r.0), r.1)));
                assert(seq![first] + (rest->Some_0.0 + r.0) =~= (seq![first] + rest->Some_0.0) + r.0);
                assert(bs == seq![first] + rest->Some_0.0);
            },
            None => {
                assert(parse_blocks(s, pos + 4 + blen, k - 1 + m) is None);
                assert(parse_blocks(s, pos, k + m) is None);
            },
        }
    }
}

/// Parsing `k + m` references first parses `k`, then continues from where
/// those ended.
proof fn lemma_parse_refs_split(s: Seq<u8>, pos: int, k: int, m: int)
    requires
        0 <= k,
        0 <= m,
        parse_refs(s, pos, k) is Some,
    ensures
        parse_refs(s, pos, k + m) == match parse_refs(s, parse_refs(s, pos, k)->Some_0.1, m) {
            Some(r) => Some::<(Seq<int>, int)>((parse_refs(s, pos, k)->Some_0.0 + r.0, r.1)),
            None => None::<(Seq<int>, int)>,
        },
    decreases k,
{
    let (rs, p) = parse_refs(s, pos, k)->Some_0;
    if k == 0 {
        assert(rs == Seq::<int>::empty() && p == pos);
        match parse_refs(s, pos, m) {
            Some(r) => {
                assert(rs + r.0 =~= r.0);
            },
            None => {},
        }
    } else {
        let first = le32_at(s, pos);
        let rest = parse_refs(s, pos + 4, k - 1);
        assert(rest is Some);
        lemma_parse_refs_split(s, pos + 4, k - 1, m);
        assert(rest->Some_0.1 == p);
        match parse_refs(s, p, m) {
            Some(r) => {
                assert(parse_refs(s, pos + 4, k - 1 + m)
                    == Some::<(Seq<int>, int)>((rest->Some_0.0 + r.0, r.1)));
                assert(k + m - 1 == k - 1 + m);
                assert(parse_refs(s, pos, k + m)
                    == Some::<(Seq<int>, int)>((seq![first] + (rest->Some_0.0 + r.0), r.1)));
                assert(seq![first] + (rest->Some_0.0 + r.0) =~= (seq![first] + rest->Some_0.0) + r.0);
                assert(rs == seq![first] + rest->Some_0.0);
            },
            None => {
                assert(parse_refs(s, pos + 4, k - 1 + m) is None);
                assert(parse_refs(s, pos, k + m) is None);
            },
        }
    }
}

/// The distinct blocks of a chunk list, in first-seen order.
pub open spec fn first_seen(cs: Seq<Seq<u8>>) -> Seq<Seq<u8>>
    decreases cs.len(),
{
    if cs.len() == 0 {
        Seq::empty()
    } else {
        let p = first_seen(cs.drop_last());
        if p.contains(cs.last()) {
            p
        } else {
            p.push(cs.last())
        }
    }
}

/// The position of the first block equal to `x` in a block list.
pub open spec fn first_index(bs: Seq<Seq<u8>>, x: Seq<u8>) -> int
    decreases bs.len(),
{
    if bs.len() == 0 {
        0
    } else if bs[0] == x {
        0
    } else {
        1 + first_index(bs.skip(1), x)
    }
}

/// An index holding `x` with nothing equal before it is the first index.
proof fn lemma_first_index_char(bs: Seq<Seq<u8>>, x: Seq<u8>, idx: int)
    requires
        0 <= idx < bs.len(),
        bs[idx] == x,
        forall|j: int| 0 <= j < idx ==> #[trigger] bs[j] != x,
    ensures
        first_index(bs, x) == idx,
    decreases idx,
{
    if idx == 0 {
    } else {
        assert(bs[0] != x);
        assert(bs.skip(1)[idx - 1] == x);
        assert(forall|j: int| 0 <= j < idx - 1 ==> #[trigger] bs.skip(1)[j] != x);
        lemma_first_index_char(bs.skip(1), x, idx - 1);
    }
}

/// A serialized reference list is four bytes per reference.
proof fn lemma_ser_refs_len(rs: Seq<u32>)
    ensures
        ser_refs(rs).len() == 4 * rs.len(),
    decreases rs.len(),
{
    if rs.len() > 0 {
        lemma_ser_refs_len(rs.skip(1));
    }
}

/// The serialized form of one unique block: length prefix, then bytes.
pub open spec fn ser_block(b: Seq<u8>) -> Seq<u8> {
    le32_bytes(b.len() as u32) + b
}

/// The serialized unique-block table, in first-seen order.
pub open spec fn ser_blocks(bs: Seq<Seq<u8>>) -> Seq<u8>
    decreases bs.len(),
{
    if bs.len() == 0 {
        Seq::empty()
    } else {
        ser_block(bs[0]) + ser_blocks(bs.skip(1))
    }
}

/// The serialized reference list.
pub open spec fn ser_refs(rs: Seq<u32>) -> Seq<u8>
    decreases rs.len(),
{
    if rs.len() == 0 {
        Seq::empty()
    } else {
        le32_bytes(rs[0]) + ser_refs(rs.skip(1))
    }
}

proof fn lemma_ser_blocks_push(bs: Seq<Seq<u8>>, b: Seq<u8>)
    ensures
        ser_blocks(bs.push(b)) == ser_blocks(bs) + ser_block(b),
    decreases bs.len(),
{
    let l = bs.push(b);
    assert(ser_blocks(l) == ser_block(l[0]) + ser_blocks(l.skip(1)));
    if bs.len() == 0 {
        assert(l[0] == b);
        assert(l.skip(1) =~= Seq::<Seq<u8>>::empty());
        assert(ser_blocks(l.skip(1)) == Seq::<u8>::empty());
        assert(ser_blocks(bs) == Seq::<u8>::empty());
        assert(ser_blocks(l) =~= ser_blocks(bs) + ser_block(b));
    } else {
        lemma_ser_blocks_push(bs.skip(1), b);
        assert(l.skip(1) =~= bs.skip(1).push(b));
        assert(l[0] == bs[0]);
        assert(ser_blocks(l.skip(1)) == ser_blocks(bs.skip(1)) + ser_block(b));
        assert(ser_blocks(bs) == ser_block(bs[0]) + ser_blocks(bs.skip(1)));
        assert(ser_block(bs[0]) + (ser_blocks(bs.skip(1)) + ser_block(b))
            =~= (ser_block(bs[0]) + ser_blocks(bs.skip(1))) + ser_block(b));
    }
}

proof fn lemma_ser_refs_push(rs: Seq<u32>, x: u32)
    ensures
        ser_refs(rs.push(x)) == ser_refs(rs) + le32_bytes(x),
    decreases rs.len(),
{
    let l = rs.push(x);
    assert(ser_refs(l) == le32_bytes(l[0]) + ser_refs(l.skip(1)));
    if rs.len() == 0 {
        assert(l[0] == x);
        assert(l.skip(1) =~= Seq::<u32>::empty());
        assert(ser_refs(l.skip(1)) == Seq::<u8>::empty());
        assert(ser_refs(rs) == Seq::<u8>::empty());
        assert(ser_refs(l) =~= ser_refs(rs) + le32_bytes(x));
    } else {
        lemma_ser_refs_push(rs.skip(1), x);
        assert(l.skip(1) =~= rs.skip(1).push(x));
        assert(l[0] == rs[0]);
        assert(ser_refs(l.skip(1)) == ser_refs(rs.skip(1)) + le32_bytes(x));
        assert(ser_refs(rs) == le32_bytes(rs[0]) + ser_refs(rs.skip(1)));
        assert(le32_bytes(rs[0]) + (ser_refs(rs.skip(1)) + le32_bytes(x))
            =~= (le32_bytes(rs[0]) + ser_refs(rs.skip(1))) + le32_bytes(x));
    }
}

/// A serialized unique-block table parses back to exactly the blocks it
/// was written from.
proof fn lemma_parse_ser_blocks(s: Seq<u8>, pos: int, bs: Seq<Seq<u8>>)
    requires
        0 <= pos,
        pos + ser_blocks(bs).len() <= s.len(),
        s.subrange(pos, pos + ser_blocks(bs).len() as int) == ser_blocks(bs),
        forall|i: int| 0 <= i < bs.len() ==> #[trigger] bs[i].len() < 0x100000000,
    ensures
        parse_blocks(s, pos, bs.len() as int) == Some(
            (bs, pos + ser_blocks(bs).len() as int),
        ),
    decreases bs.len(),
{
    if bs.len() == 0 {
        assert(parse_blocks(s, pos, 0) == Some((Seq::<Seq<u8>>::empty(), pos)));
        assert(bs =~= Seq::<Seq<u8>>::empty());
    } else {
        let b0 = bs[0];
        let blen = b0.len() as int;
        let total = ser_blocks(bs);
        let ltot = total.len() as int;
        let rest = ser_blocks(bs.skip(1));
        assert(total == ser_block(b0) + rest);
        assert(ser_block(b0).len() == 4 + blen);
        assert((b0.len() as u32) as int == blen);
        assert(s.subrange(pos, pos + 4) =~= total.subrange(0, 4));
        assert(total.subrange(0, 4) =~= le32_bytes(b0.len() as u32));
        lemma_le32_at_bytes(s, pos, b0.len() as u32);
        assert(le32_at(s, pos) == blen);
        assert(s.subrange(pos + 4, pos + 4 + blen) =~= total.subrange(4, 4 + blen));
        assert(total.subrange(4, 4 + blen) =~= b0);
        let pos2 = pos + 4 + blen;
        assert(s.subrange(pos2, pos2 + rest.len() as int)
            =~= total.subrange(4 + blen, ltot));
        assert(total.subrange(4 + blen, ltot) =~= rest);
        assert(forall|i: int| 0 <= i < bs.skip(1).len() ==> #[trigger] bs.skip(1)[i].len() < 0x100000000);
        lemma_parse_ser_blocks(s, pos2, bs.skip(1));
        assert(parse_blocks(s, pos2, bs.len() - 1) == Some(
            (bs.skip(1), pos2 + rest.len() as int),
        ));
        assert(seq![s.subrange(pos + 4, pos + 4 + blen)] + bs.skip(1) =~= bs);
        assert(pos2 + rest.len() == pos + ltot);
    }
}

/// A serialized reference list parses back to exactly the references it
/// was written from.
proof fn lemma_parse_ser_refs(s: Seq<u8>, pos: int, rs: Seq<u32>)
    requires
        0 <= pos,
        pos + ser_refs(rs).len() <= s.len(),
        s.subrange(pos, pos + ser_refs(rs).len() as int) == ser_refs(rs),
    ensures
        parse_refs(s, pos, rs.len() as int) == Some(
            (rs.map_values(|r: u32| r as int), pos + ser_refs(rs).len() as int),
        ),
    decreases rs.len(),
{
    if rs.len() == 0 {
        assert(rs.map_values(|r: u32| r as int) =~= Seq::<int>::empty());
    } else {
        let x = rs[0];
        let total = ser_refs(rs);
        let rest = ser_refs(rs.skip(1));
        assert(total == le32_bytes(x) + rest);
        assert(s.subrange(pos, pos + 4) =~= total.subrange(0, 4));
        assert(total.subrange(0, 4) =~= le32_bytes(x));
        lemma_le32_at_bytes(s, pos, x);
        let pos2 = pos + 4;
        assert(s.subrange(pos2, pos2 + rest.len() as int)
            =~= total.subrange(4, total.len() as int));
        assert(total.subrange(4, total.len() as int) =~= rest);
        lemma_parse_ser_refs(s, pos2, rs.skip(1));
        assert(seq![x as int] + rs.skip(1).map_values(|r: u32| r as int)
            =~= rs.map_values(|r: u32| r as int));
    }
}

/// Appending a block that no reference points to does not change the
/// referenced concatenation.
proof fn lemma_concat_refs_grow(blocks: Seq<Seq<u8>>, b: Seq<u8>, refs: Seq<int>)
    requires
        forall|i: int| 0 <= i < refs.len() ==> 0 <= #[trigger] refs[i] < blocks.len(),
    ensures
        concat_refs(blocks.push(b), refs) == concat_refs(blocks, refs),
    decreases refs.len(),
{
    if refs.len() > 0 {
        assert(forall|i: int| 0 <= i < refs.drop_last().len()
            ==> 0 <= #[trigger] refs.drop_last()[i] < blocks.len());
        lemma_concat_refs_grow(blocks, b, refs.drop_last());
        assert(blocks.push(b)[refs.last()] == blocks[refs.last()]);
    }
}

/// Encode `data` via exact-match content-addressable deduplication:
/// partition into 64-byte blocks (the last may be shorter), store each
/// distinct block once in first-seen order, and emit one reference per
/// input block. The output always decodes back to exactly `data`, which
/// together with the contract of [`decompress`] gives the round-trip
/// guarantee. The similarity threshold is accepted but unused: grouping
/// is byte-identical only.
#[verifier::rlimit(50)]
pub fn compress(data: &[u8], _threshold: u32) -> (r: Result<Vec<u8>, CompressError>)
    requires
        data@.len() < 0x100000000,
    ensures
        r matches Ok(v) && dedup_decoding(v@) == Some(data@),
        r matches Ok(v) ==> (parse_blocks(v@, 4, le32_at(v@, 0)) matches Some(bp)
            && bp.0 == first_seen(chunks_of(data@, 64))),
        r matches Ok(v) ==> v@.len() == 8 + ser_blocks(first_seen(chunks_of(data@, 64))).len()
            + 4 * chunks_of(data@, 64).len(),
        r matches Ok(v) ==> match parse_blocks(v@, 4, le32_at(v@, 0)) {
            Some((blocks, p)) => match parse_refs(v@, p + 4, le32_at(v@, p)) {
                Some((refs, _q)) => {
                    &&& refs.len() == chunks_of(data@, 64).len()
                    &&& forall|i: int| 0 <= i < refs.len()
                        ==> #[trigger] refs[i] == first_index(
                            first_seen(chunks_of(data@, 64)),
                            chunks_of(data@, 64)[i],
                        )
                },
                None => false,
            },
            None => false,
        },
{
    let n = data.len();
    let mut unique: Vec<Vec<u8>> = Vec::new();
    let mut refs: Vec<u32> = Vec::new();
    let ghost mut done_chunks: Seq<Seq<u8>> = Seq::empty();
    let mut i: usize = 0;
    proof {
        assert(data@.skip(0) =~= data@);
        assert(done_chunks + chunks_of(data@, 64) =~= chunks_of(data@, 64));
        assert(unique.deep_view() =~~= first_seen(done_chunks));
    }
    while i < n
        invariant
            n == data@.len(),
            n < 0x100000000,
            i <= n,
            refs@.len() <= i,
            refs@.len() == done_chunks.len(),
            chunks_of(data@, 64) == done_chunks + chunks_of(data@.skip(i as int), 64),
            unique.deep_view() == first_seen(done_chunks),
            forall|k: int| 0 <= k < refs@.len() ==> {
                &&& 0 <= (#[trigger] refs@[k] as int) < unique.deep_view().len()
                &&& unique.deep_view()[refs@[k] as int] == done_chunks[k]
                &&& forall|j2: int| 0 <= j2 < refs@[k] as int
                    ==> unique.deep_view()[j2] != done_chunks[k]
            },
            unique@.len() <= refs@.len(),
            forall|j: int| 0 <= j < refs@.len()
                ==> 0 <= #[trigger] refs@[j] < unique.deep_view().len(),
            forall|j: int| 0 <= j < unique.deep_view().len()
                ==> 1 <= #[trigger] unique.deep_view()[j].len() <= 64,
            concat_refs(unique.deep_view(), refs@.map_values(|r: u32| r as int))
                == data@.take(i as int),
        decreases n - i,
    {
        let end = if n - i > 64 { i + 64 } else { n };
        let chunk: Vec<u8> = slice_to_vec(slice_subrange(data, i, end));
        proof {
            assert(chunk@ == data@.subrange(i as int, end as int));
        }
        let mut idx: usize = 0;
        let mut found = false;
        let mut j: usize = 0;
        while j < unique.len()
            invariant
                j <= unique@.len(),
                found ==> idx < unique@.len()
                    && unique.deep_view()[idx as int] == chunk@
                    && forall|j2: int| 0 <= j2 < idx
                        ==> #[trigger] unique.deep_view()[j2] != chunk@,
                !found ==> idx == 0 && forall|j2: int| 0 <= j2 < j
                    ==> #[trigger] unique.deep_view()[j2] != chunk@,
            decreases unique@.len() - j,
        {
            if !found {
                if bytes_eq(&unique[j], &chunk) {
                    found = true;
                    idx = j;
                }
                proof {
                    assert(unique.deep_view()[j as int] =~= unique@[j as int]@);
                }
            }
            j = j + 1;
        }
        proof {
            // The scan decides membership, so pushing mirrors `first_seen`.
            let rem = data@.skip(i as int);
            if rem.len() <= 64 {
                assert(chunk@ =~= rem);
                assert(chunks_of(rem, 64) == seq![rem]);
                assert(chunks_of(data@.skip(end as int), 64) =~= Seq::<Seq<u8>>::empty());
            } else {
                assert(chunk@ =~= rem.take(64));
                assert(rem.skip(64) =~= data@.skip(end as int));
                assert(chunks_of(rem, 64)
                    == seq![rem.take(64)] + chunks_of(data@.skip(end as int), 64));
            }
            assert(done_chunks + chunks_of(data@.skip(i as int), 64)
                =~= done_chunks.push(chunk@) + chunks_of(data@.skip(end as int), 64));
            assert(done_chunks.push(chunk@).drop_last() =~= done_chunks);
            if found {
                assert(first_seen(done_chunks).contains(chunk@));
                assert(first_seen(done_chunks.push(chunk@)) == first_seen(done_chunks));
            } else {
                if first_seen(done_chunks).contains(chunk@) {
                    let w = choose|w: int| 0 <= w < first_seen(done_chunks).len()
                        && first_seen(done_chunks)[w] == chunk@;
                    assert(unique.deep_view()[w] == chunk@);
                    assert(false);
                }
                assert(first_seen(done_chunks.push(chunk@))
                    == first_seen(done_chunks).push(chunk@));
            }
        }
        let ghost old_unique = unique.deep_view();
        let ghost old_refs = refs@.map_values(|r: u32| r as int);
        if !found {
            idx = unique.len();
            unique.push(chunk);
            proof {
                assert(unique.deep_view() =~~= old_unique.push(data@.subrange(i as int, end as int)));
                lemma_concat_refs_grow(
                    old_unique,
                    data@.subrange(i as int, end as int),
                    old_refs,
                );
            }
        }
        proof {
            assert(unique.deep_view()[idx as int] == data@.subrange(i as int, end as int));
            assert(concat_refs(unique.deep_view(), old_refs) == data@.take(i as int));
        }
        refs.push(idx as u32);
        proof {
            let new_refs = refs@.map_values(|r: u32| r as int);
            assert(new_refs =~= old_refs.push(idx as int));
            assert(new_refs.drop_last() =~= old_refs);
            assert(concat_refs(unique.deep_view(), new_refs)
                == data@.take(i as int) + data@.subrange(i as int, end as int));
            assert(data@.take(i as int) + data@.subrange(i as int, end as int)
                =~= data@.take(end as int));
            done_chunks = done_chunks.push(chunk@);
        }
        i = end;
    }
    proof {
        assert(data@.take(n as int) =~= data@);
        assert(data@.skip(n as int) =~= Seq::<u8>::empty());
        assert(chunks_of(Seq::<u8>::empty(), 64) == Seq::<Seq<u8>>::empty());
        assert(done_chunks + Seq::<Seq<u8>>::empty() =~= done_chunks);
        assert(chunks_of(data@, 64) == done_chunks);
    }

    // Serialize: unique-block count, the blocks, then the reference list.
    let ghost ubv = unique.deep_view();
    let nu32 = unique.len() as u32;
    let mut output: Vec<u8> = Vec::new();
    push_le32(&mut output, nu32);
    let mut k: usize = 0;
    while k < unique.len()
        invariant
            nu32 as int == unique@.len(),
            ubv == unique.deep_view(),
            k <= unique@.len(),
            forall|j: int| 0 <= j < ubv.len() ==> 1 <= #[trigger] ubv[j].len() <= 64,
            output@ == le32_bytes(nu32) + ser_blocks(ubv.take(k as int)),
        decreases unique@.len() - k,
    {
        let blen32 = unique[k].len() as u32;
        proof {
            assert(unique.deep_view()[k as int] =~= unique@[k as int]@);
        }
        push_le32(&mut output, blen32);
        append_bytes(&mut output, &unique[k]);
        proof {
            lemma_ser_blocks_push(ubv.take(k as int), ubv[k as int]);
            assert(ubv.take(k as int + 1) =~= ubv.take(k as int).push(ubv[k as int]));
            assert(ser_block(ubv[k as int]) == le32_bytes(blen32) + unique@[k as int]@);
            assert(output@ =~= le32_bytes(nu32) + ser_blocks(ubv.take(k as int + 1)));
        }
        k = k + 1;
    }
    proof {
        assert(ubv.take(ubv.len() as int) =~= ubv);
    }
    let nr32 = refs.len() as u32;
    push_le32(&mut output, nr32);
    let ghost rsv = refs@;
    let mut t: usize = 0;
    while t < refs.len()
        invariant
            rsv == refs@,
            nr32 as int == refs@.len(),
            t <= refs@.len(),
            output@ == le32_bytes(nu32) + ser_blocks(ubv) + le32_bytes(nr32)
                + ser_refs(rsv.take(t as int)),
        decreases refs@.len() - t,
    {
        let x = refs[t];
        push_le32(&mut output, x);
        proof {
            lemma_ser_refs_push(rsv.take(t as int), x);
            assert(rsv.take(t as int + 1) =~= rsv.take(t as int).push(x));
            assert(output@ =~= le32_bytes(nu32) + ser_blocks(ubv) + le32_bytes(nr32)
                + ser_refs(rsv.take(t as int + 1)));
        }
        t = t + 1;
    }
    proof {
        assert(rsv.take(rsv.len() as int) =~= rsv);
        let s = output@;
        let lb = ser_blocks(ubv);
        let lr = ser_refs(rsv);
        let p = 4 + lb.len() as int;
        assert(s == le32_bytes(nu32) + lb + le32_bytes(nr32) + lr);
        assert(s.subrange(0, 4) =~= le32_bytes(nu32));
        lemma_le32_at_bytes(s, 0, nu32);
        assert(s.subrange(4, 4 + lb.len() as int) =~= lb);
        lemma_parse_ser_blocks(s, 4, ubv);
        assert(parse_blocks(s, 4, ubv.len() as int) == Some((ubv, p)));
        assert(s.subrange(p, p + 4) =~= le32_bytes(nr32));
        lemma_le32_at_bytes(s, p, nr32);
        assert(s.subrange(p + 4, p + 4 + lr.len() as int) =~= lr);
        lemma_parse_ser_refs(s, p + 4, rsv);
        let refs_int = rsv.map_values(|r: u32| r as int);
        assert(parse_refs(s, p + 4, rsv.len() as int) == Some((refs_int, p + 4 + lr.len() as int)));
        assert(le32_at(s, 0) == nu32 as int && nu32 as int == ubv.len());
        assert(le32_at(s, p) == nr32 as int && nr32 as int == refs_int.len());
        assert(forall|i2: int| 0 <= i2 < refs_int.len()
            ==> 0 <= #[trigger] refs_int[i2] < ubv.len());
        assert(concat_refs(ubv, refs_int) == data@);
        assert(dedup_decoding(s) == Some(data@));
        lemma_ser_refs_len(rsv);
        assert(s.len() == 8 + lb.len() + 4 * rsv.len());
        assert(ubv == first_seen(chunks_of(data@, 64)));
        assert(rsv.len() == chunks_of(data@, 64).len());
        assert forall|i2: int| 0 <= i2 < refs_int.len() implies
            #[trigger] refs_int[i2] == first_index(
                first_seen(chunks_of(data@, 64)),
                chunks_of(data@, 64)[i2],
            ) by {
            assert(refs_int[i2] == rsv[i2] as int);
            assert(unique.deep_view()[rsv[i2] as int] == chunks_of(data@, 64)[i2]);
            assert(forall|j2: int| 0 <= j2 < rsv[i2] as int
                ==> unique.deep_view()[j2] != chunks_of(data@, 64)[i2]);
            lemma_first_index_char(ubv, chunks_of(data@, 64)[i2], rsv[i2] as int);
        }
    }
    Ok(output)
}

/// Decode a deduplicated payload: parse the unique-block table, then emit
/// the referenced blocks in reference order. The table is self-consistent,
/// so `_original_size` is not consulted.
pub fn decompress(data: &[u8], _original_size: usize) -> (r: Result<Vec<u8>, CompressError>)
    ensures
        match dedup_decoding(data@) {
            Some(v) => r matches Ok(out) && out@ == v,
            None => r matches Err(e) && e is SemanticError,
        },
{
    let n = data.len();
    if n < 4 {
        return Err(CompressError::SemanticError("data too short".to_string()));
    }
    let num_unique = read_le32(data, 0);
    let mut pos: usize = 4;
    let mut blocks: Vec<Vec<u8>> = Vec::new();
    let mut k: u32 = 0;
    while k < num_unique
        invariant
            n == data@.len(),
            n >= 4,
            num_unique as int == le32_at(data@, 0),
            k <= num_unique,
            4 <= pos <= n,
            parse_blocks(data@, 4, k as int) == Some((blocks.deep_view(), pos as int)),
        decreases num_unique - k,
    {
        proof {
            lemma_parse_blocks_split(data@, 4, k as int, num_unique - k);
        }
        if n - pos < 4 {
            proof {
                assert(parse_blocks(data@, pos as int, num_unique - k) is None);
                assert(dedup_decoding(data@) is None);
            }
            return Err(CompressError::SemanticError("truncated".to_string()));
        }
        let blen = read_le32(data, pos);
        if blen as usize > n - pos - 4 {
            proof {
                assert(parse_blocks(data@, pos as int, num_unique - k) is None);
                assert(dedup_decoding(data@) is None);
            }
            return Err(CompressError::SemanticError("truncated block".to_string()));
        }
        let block: Vec<u8> = slice_to_vec(slice_subrange(data, pos + 4, pos + 4 + blen as usize));
        proof {
            lemma_parse_blocks_split(data@, 4, k as int, 1);
            let sub = data@.subrange(pos as int + 4, pos as int + 4 + blen as int);
            assert(parse_blocks(data@, pos as int + 4 + blen as int, 0)
                == Some((Seq::<Seq<u8>>::empty(), pos as int + 4 + blen as int)));
            assert(seq![sub] + Seq::<Seq<u8>>::empty() =~= seq![sub]);
            assert(parse_blocks(data@, pos as int, 1) == Some(
                (seq![sub], pos as int + 4 + blen as int),
            ));
            let ghost old_bv = blocks.deep_view();
            assert(old_bv + seq![data@.subrange(pos as int + 4, pos as int + 4 + blen as int)]
                =~= old_bv.push(data@.subrange(pos as int + 4, pos as int + 4 + blen as int)));
        }
        let ghost old_bv = blocks.deep_view();
        blocks.push(block);
        proof {
            assert(blocks.deep_view()
                =~~= old_bv.push(data@.subrange(pos as int + 4, pos as int + 4 + blen as int)));
        }
        pos = pos + 4 + blen as usize;
        k = k + 1;
    }
    if n - pos < 4 {
        proof {
            assert(dedup_decoding(data@) is None);
        }
        return Err(CompressError::SemanticError("missing refs".to_string()));
    }
    let num_refs = read_le32(data, pos);
    let refs_start = pos + 4;
    let mut rpos: usize = refs_start;
    let mut output: Vec<u8> = Vec::new();
    let ghost mut refs_done: Seq<int> = Seq::empty();
    let mut t: u32 = 0;
    while t < num_refs
        invariant
            n == data@.len(),
            n >= 4,
            num_unique as int == le32_at(data@, 0),
            parse_blocks(data@, 4, num_unique as int) == Some((blocks.deep_view(), pos as int)),
            pos + 4 <= n,
            refs_start == pos + 4,
            num_refs as int == le32_at(data@, pos as int),
            t <= num_refs,
            refs_start <= rpos <= n,
            refs_done.len() == t as int,
            parse_refs(data@, refs_start as int, t as int) == Some((refs_done, rpos as int)),
            forall|i2: int| 0 <= i2 < refs_done.len()
                ==> 0 <= #[trigger] refs_done[i2] < blocks.deep_view().len(),
            output@ == concat_refs(blocks.deep_view(), refs_done),
        decreases num_refs - t,
    {
        proof {
            lemma_parse_refs_split(data@, refs_start as int, t as int, num_refs - t);
        }
        if n - rpos < 4 {
            proof {
                assert(parse_refs(data@, rpos as int, num_refs - t) is None);
                assert(parse_refs(data@, refs_start as int, num_refs as int) is None);
                assert(dedup_decoding(data@) is None);
            }
            return Err(CompressError::SemanticError("truncated ref".to_string()));
        }
        let idx = read_le32(data, rpos);
        if idx as usize >= blocks.len() {
            proof {
                match parse_refs(data@, rpos as int, num_refs - t) {
                    Some(r) => {
                        let full = refs_done + r.0;
                        assert(r.0[0] == le32_at(data@, rpos as int));
                        assert(full[t as int] == idx as int);
                        assert(!(0 <= full[t as int] < blocks.deep_view().len()));
                        assert(dedup_decoding(data@) is None);
                    },
                    None => {
                        assert(dedup_decoding(data@) is None);
                    },
                }
            }
            return Err(CompressError::SemanticError("invalid ref".to_string()));
        }
        append_bytes(&mut output, &blocks[idx as usize]);
        proof {
            lemma_parse_refs_split(data@, refs_start as int, t as int, 1);
            assert(parse_refs(data@, rpos as int + 4, 0)
                == Some((Seq::<int>::empty(), rpos as int + 4)));
            assert(seq![le32_at(data@, rpos as int)] + Seq::<int>::empty()
                =~= seq![le32_at(data@, rpos as int)]);
            assert(parse_refs(data@, rpos as int, 1) == Some(
                (seq![le32_at(data@, rpos as int)], rpos as int + 4),
            ));
            assert(refs_done + seq![idx as int] =~= refs_done.push(idx as int));
            let new_refs = refs_done.push(idx as int);
            assert(new_refs.drop_last() =~= refs_done);
            assert(concat_refs(blocks.deep_view(), new_refs)
                == concat_refs(blocks.deep_view(), refs_done)
                    + blocks.deep_view()[idx as int]);
            assert(blocks.deep_view()[idx as int] =~= blocks@[idx as int]@);
        }
        proof {
            refs_done = refs_done.push(idx as int);
        }
        rpos = rpos + 4;
        t = t + 1;
    }
    proof {
        assert(dedup_decoding(data@) == Some(concat_refs(blocks.deep_view(), refs_done)));
    }
    Ok(output)
}


} // verus!

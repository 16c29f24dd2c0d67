//! Run-length codec: a trivial entropy-aware fallback coder.
//!
//! The wire format is a sequence of `[run_length, byte_value]` pairs.
//! The maximum run length is 255; longer runs are split into several
//! pairs. Decoding fails when the payload length is odd.

use vstd::prelude::*;
use crate::error::CompressError;

verus! {

/// The byte sequence that a run-length payload expands to: the payload is
/// read as `[run_length, byte_value]` pairs, each contributing `run_length`
/// copies of `byte_value`, concatenated in order.
pub open spec fn rle_expansion(s: Seq<u8>) -> Seq<u8>
    decreases s.len(),
{
    if s.len() < 2 {
        Seq::empty()
    } else {
        Seq::new(s[0] as nat, |i: int| s[1]) + rle_expansion(s.skip(2))
    }
}

/// Appending one `[run, byte]` pair to an even-length payload appends
/// `run` copies of `byte` to its expansion.
proof fn lemma_rle_expansion_append(a: Seq<u8>, run: u8, b: u8)
    requires
        a.len() % 2 == 0,
    ensures
        rle_expansion(a.push(run).push(b))
            == rle_expansion(a) + Seq::new(run as nat, |i: int| b),
    decreases a.len(),
{
    let s = a.push(run).push(b);
    if a.len() == 0 {
        assert(s.len() == 2);
        assert(s[0] == run && s[1] == b);
        assert(s.skip(2) =~= Seq::<u8>::empty());
        assert(rle_expansion(s) == Seq::new(s[0] as nat, |i: int| s[1]) + rle_expansion(s.skip(2)));
        assert(rle_expansion(s.skip(2)) =~= Seq::<u8>::empty());
        assert(rle_expansion(a) =~= Seq::<u8>::empty());
        assert(rle_expansion(s) =~= rle_expansion(a) + Seq::new(run as nat, |i: int| b));
    } else {
        assert(a.len() >= 2);
        lemma_rle_expansion_append(a.skip(2), run, b);
        assert(s.skip(2) =~= a.skip(2).push(run).push(b));
        assert(s[0] == a[0] && s[1] == a[1]);
        assert(rle_expansion(s) =~= rle_expansion(a) + Seq::new(run as nat, |i: int| b));
    }
}

/// Encode `data` as `[run_length, byte_value]` pairs, splitting runs longer
/// than 255 bytes. Never fails; the `Result` mirrors the other codecs.
/// The output always expands back to exactly `data`, which together with
/// the contract of [`decompress`] gives the round-trip guarantee. Every
/// run is 1 to 255 long and maximal (a run under 255 is never followed by
/// the same byte value), which pins the output bytes uniquely, and the
/// output is at most twice the input.
pub fn compress(data: &[u8]) -> (r: Result<Vec<u8>, CompressError>)
    ensures
        r matches Ok(v) && v@.len() % 2 == 0 && rle_expansion(v@) == data@,
        r matches Ok(v) ==> v@.len() <= 2 * data@.len(),
        r matches Ok(v) ==> forall|q: int| 0 <= q < v@.len() && q % 2 == 0
            ==> #[trigger] v@[q] >= 1,
        r matches Ok(v) ==> forall|q: int| 0 <= q && q + 3 < v@.len() && q % 2 == 0
            && #[trigger] v@[q] < 255 ==> v@[q + 3] != v@[q + 1],
{
    let n = data.len();
    let mut output: Vec<u8> = Vec::new();
    let mut i: usize = 0;
    while i < n
        invariant
            n == data@.len(),
            i <= n,
            output@.len() % 2 == 0,
            output@.len() <= 2 * i,
            rle_expansion(output@) == data@.take(i as int),
            forall|q: int| 0 <= q < output@.len() && q % 2 == 0 ==> #[trigger] output@[q] >= 1,
            forall|q: int| 0 <= q && q + 3 < output@.len() && q % 2 == 0
                && #[trigger] output@[q] < 255 ==> output@[q + 3] != output@[q + 1],
            output@.len() >= 2 ==> (output@[output@.len() - 2] < 255
                ==> i == n || (i < n && data@[i as int] != output@[output@.len() - 1])),
        decreases data@.len() - i,
    {
        let byte = data[i];
        let mut run: u16 = 1;
        while i + (run as usize) < n && data[i + (run as usize)] == byte && run < 255
            invariant
                n == data@.len(),
                1 <= run <= 255,
                i < n,
                i + run <= n,
                byte == data@[i as int],
                forall|j: int| i <= j < i + run ==> data@[j] == byte,
            decreases data@.len() - i - run,
        {
            run = run + 1;
        }
        proof {
            lemma_rle_expansion_append(output@, run as u8, byte);
            assert((run as u8) as nat == run as nat);
            assert(data@.take(i as int + run as int)
                =~= data@.take(i as int) + Seq::new(run as nat, |k: int| byte));
        }
        let ghost pre = output@;
        output.push(run as u8);
        output.push(byte);
        proof {
            assert forall|q: int| 0 <= q && q + 3 < output@.len() && q % 2 == 0
                && #[trigger] output@[q] < 255 implies output@[q + 3] != output@[q + 1] by {
                if q + 3 < pre.len() {
                    assert(output@[q] == pre[q] && output@[q + 1] == pre[q + 1]
                        && output@[q + 3] == pre[q + 3]);
                } else {
                    // the new pair follows the old last pair
                    assert(q == pre.len() - 2);
                    assert(output@[q] == pre[pre.len() - 2]);
                    assert(output@[q + 1] == pre[pre.len() - 1]);
                    assert(output@[q + 3] == byte);
                    assert(byte == data@[i as int]);
                }
            }
        }
        i = i + run as usize;
    }
    proof {
        assert(data@.take(data@.len() as int) =~= data@);
    }
    Ok(output)
}

/// Decode `[run_length, byte_value]` pairs back into the expanded bytes.
/// Fails exactly when the payload length is odd; `original_size` is only
/// a capacity hint and is not validated against.
pub fn decompress(data: &[u8], original_size: usize) -> (r: Result<Vec<u8>, CompressError>)
    ensures
        data@.len() % 2 != 0 ==> (r matches Err(e) && e is EntropyError),
        data@.len() % 2 == 0 ==> (r matches Ok(v) && v@ == rle_expansion(data@)),
{
    if data.len() % 2 != 0 {
        return Err(CompressError::EntropyError("invalid RLE data".to_string()));
    }
    let n = data.len();
    let mut output: Vec<u8> = Vec::with_capacity(original_size);
    let mut i: usize = 0;
    while i < n
        invariant
            n == data@.len(),
            data@.len() % 2 == 0,
            i % 2 == 0,
            i <= n,
            output@ == rle_expansion(data@.take(i as int)),
        decreases data@.len() - i,
    {
        let run = data[i];
        let byte = data[i + 1];
        let mut k: usize = 0;
        proof {
            assert(output@ =~= rle_expansion(data@.take(i as int)) + Seq::new(0nat, |j: int| byte));
        }
        while k < run as usize
            invariant
                k <= run as usize,
                output@ == rle_expansion(data@.take(i as int)) + Seq::new(k as nat, |j: int| byte),
            decreases run as usize - k,
        {
            output.push(byte);
            k = k + 1;
            proof {
                assert(output@ =~= rle_expansion(data@.take(i as int)) + Seq::new(k as nat, |j: int| byte));
            }
        }
        proof {
            lemma_rle_expansion_append(data@.take(i as int), run, byte);
            assert(data@.take(i as int + 2)
                =~= data@.take(i as int).push(data@[i as int]).push(data@[i as int + 1]));
        }
        i = i + 2;
    }
    proof {
        assert(data@.take(data@.len() as int) =~= data@);
    }
    Ok(output)
}

} // verus!

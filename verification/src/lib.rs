//! Multi-strategy byte-stream compression engine.
//!
//! Given an input buffer, the engine selects among several encoding
//! strategies (symbol-frequency coding, block-level general compression,
//! run-length coding, content-addressable deduplication), applies the
//! chosen strategy, and produces a self-describing compressed envelope
//! that can be decoded back to the exact original bytes. Selection is
//! either a static heuristic over entropy and size, or an adaptive search
//! that runs several candidates and keeps the smallest result.

use vstd::prelude::*;
use vstd::arithmetic::power2::pow2;

pub mod config;
pub mod entropy;
pub mod error;
pub mod huffman;
pub mod lz4_wrapper;
pub mod ryzanstein_integration;
pub mod semantic;
pub mod wire;

use crate::config::CompressionConfig;
use crate::entropy::rle_expansion;
use crate::error::CompressError;
use crate::huffman::huffman_decoding;
use crate::lz4_wrapper::chunks_of;
use crate::lz4_wrapper::lz4_encoding;
use crate::semantic::dedup_decoding;
use crate::semantic::first_seen;
use crate::semantic::ser_blocks;

verus! {

/// The closed set of encoding strategies. `Auto` is resolved before any
/// codec runs and is never stored on an envelope.
#[derive(Debug, Clone, Copy, PartialEq, Eq, Structural)]
pub enum CompressionMethod {
    Huffman,
    Lz4Semantic,
    EntropyCoding,
    SemanticDedupe,
    Auto,
}

/// Diagnostics computed at encode time. Entropy is in millibits per byte
/// (fixed point); `semantic_dedup_count` mirrors the engine's current
/// behavior of never populating it.
#[derive(Debug, Clone)]
pub struct CompressionMetadata {
    pub entropy_millibits: u64,
    pub semantic_dedup_count: usize,
    pub block_count: usize,
}

/// The self-describing result of a successful encode.
#[derive(Debug, Clone)]
pub struct CompressedOutput {
    pub method: CompressionMethod,
    pub original_size: usize,
    pub compressed_size: usize,
    pub data: Vec<u8>,
    pub metadata: CompressionMetadata,
}

/// `compressed * 1000 / original`, rounded down, saturating at `u64::MAX`.
pub open spec fn ratio_permille_of(compressed: int, original: int) -> int {
    let v = compressed * 1000 / original;
    if v > u64::MAX {
        u64::MAX as int
    } else {
        v
    }
}

impl CompressedOutput {
    /// The compression ratio in thousandths: below 1000 means the output
    /// is smaller than the input.
    pub fn ratio_permille(&self) -> (r: u64)
        requires
            self.original_size >= 1,
        ensures
            r as int == ratio_permille_of(self.compressed_size as int, self.original_size as int),
    {
        let v = (self.compressed_size as u128) * 1000 / (self.original_size as u128);
        if v > u64::MAX as u128 {
            u64::MAX
        } else {
            v as u64
        }
    }
}

// ----- Fixed-point base-2 logarithm -----

/// Halvings needed to bring `z` under `2^33`.
pub open spec fn norm_steps(z: int) -> int
    decreases z,
{
    if z >= 0x200000000 {
        1 + norm_steps(z / 2)
    } else {
        0
    }
}

/// `z` after those halvings: the mantissa, scaled into `[2^32, 2^33)`.
pub open spec fn norm_mantissa(z: int) -> int
    decreases z,
{
    if z >= 0x200000000 {
        norm_mantissa(z / 2)
    } else {
        z
    }
}

/// One squaring step of the fractional-bit extraction: square the
/// mantissa, renormalize, and shift the extracted bit into the fraction.
pub open spec fn frac_step(s: (int, int)) -> (int, int) {
    let z2 = s.0 * s.0 / 0x100000000;
    if z2 >= 0x200000000 {
        (z2 / 2, s.1 * 2 + 1)
    } else {
        (z2, s.1 * 2)
    }
}

/// `k` squaring steps.
pub open spec fn frac_iter(s: (int, int), k: nat) -> (int, int)
    decreases k,
{
    if k == 0 {
        s
    } else {
        frac_step(frac_iter(s, (k - 1) as nat))
    }
}

/// Fixed-point base-2 logarithm of `x >= 1`, in millibits: the integer
/// part from normalization, ten fractional bits from repeated squaring,
/// scaled from 1024ths to 1000ths.
pub open spec fn milli_log2(x: int) -> int {
    let z0 = x * 0x100000000;
    let f = norm_steps(z0);
    let m = norm_mantissa(z0);
    let fr = frac_iter((m, 0), 10).1;
    (f * 1024 + fr) * 1000 / 1024
}

/// `pow2(k)` is at least `2^64` once `k` reaches 64.
proof fn lemma_pow2_ge_64(k: nat)
    requires
        k >= 64,
    ensures
        pow2(k) >= 0x10000000000000000,
{
    vstd::arithmetic::power2::lemma2_to64();
    if k > 64 {
        vstd::arithmetic::power2::lemma_pow2_strictly_increases(64, k);
    }
}

/// `pow2` steps by doubling.
proof fn lemma_pow2_step(k: nat)
    ensures
        pow2((k + 1) as nat) == 2 * pow2(k),
{
    vstd::arithmetic::power2::lemma_pow2_adds(k, 1);
    vstd::arithmetic::power2::lemma2_to64();
}

/// Compute [`milli_log2`] executably.
fn milli_log2_exec(x: u64) -> (r: u64)
    requires
        x >= 1,
    ensures
        r as int == milli_log2(x as int),
        r < 64000,
{
    let ghost z0 = (x as int) * 0x100000000;
    let mut z: u128 = (x as u128) * 0x100000000;
    let mut f: u64 = 0;
    proof {
        vstd::arithmetic::power2::lemma2_to64();
    }
    while z >= 0x200000000
        invariant
            z0 == (x as int) * 0x100000000,
            z0 < 0x1000000000000000000000000,
            z as int >= 0x100000000,
            (z as int) * pow2(f as nat) <= z0,
            norm_steps(z0) == f + norm_steps(z as int),
            norm_mantissa(z0) == norm_mantissa(z as int),
        decreases z,
    {
        proof {
            if f >= 64 {
                lemma_pow2_ge_64(f as nat);
                assert((z as int) * pow2(f as nat) >= 0x100000000 * 0x10000000000000000)
                    by (nonlinear_arith)
                    requires
                        z as int >= 0x100000000,
                        pow2(f as nat) >= 0x10000000000000000,
                ;
                assert(false);
            }
            lemma_pow2_step(f as nat);
            vstd::arithmetic::power2::lemma_pow2_pos(f as nat);
            assert((z as int / 2) * (2 * pow2(f as nat)) <= (z as int) * pow2(f as nat))
                by (nonlinear_arith)
                requires
                    pow2(f as nat) >= 1,
                    z as int >= 2,
            ;
        }
        z = z / 2;
        f = f + 1;
    }
    proof {
        if f >= 64 {
            lemma_pow2_ge_64(f as nat);
            assert((z as int) * pow2(f as nat) >= 0x100000000 * 0x10000000000000000)
                by (nonlinear_arith)
                requires
                    z as int >= 0x100000000,
                    pow2(f as nat) >= 0x10000000000000000,
            ;
            assert(false);
        }
        assert(f <= 63);
        assert(norm_steps(z as int) == 0);
        assert(norm_mantissa(z as int) == z as int);
    }
    let ghost m0 = z as int;
    let mut frac: u64 = 0;
    let mut k: usize = 0;
    proof {
        vstd::arithmetic::power2::lemma2_to64();
    }
    while k < 10
        invariant
            k <= 10,
            0x100000000 <= (z as int) < 0x200000000,
            (frac as int) <= pow2(k as nat) - 1,
            pow2(k as nat) <= 1024,
            (z as int, frac as int) == frac_iter((m0, 0), k as nat),
        decreases 10 - k,
    {
        proof {
            lemma_pow2_step(k as nat);
            assert((z as int) * (z as int) < 0x40000000000000000)
                by (nonlinear_arith)
                requires
                    0 <= (z as int) < 0x200000000,
            ;
            assert((z as int) * (z as int) >= 0x10000000000000000)
                by (nonlinear_arith)
                requires
                    z as int >= 0x100000000,
            ;
            vstd::arithmetic::power2::lemma2_to64();
            if k + 1 < 10 {
                vstd::arithmetic::power2::lemma_pow2_strictly_increases((k + 1) as nat, 10);
            }
        }
        z = (z * z) / 0x100000000;
        frac = frac * 2;
        if z >= 0x200000000 {
            frac = frac + 1;
            z = z / 2;
        }
        k = k + 1;
        proof {
            assert(frac_iter((m0, 0), k as nat)
                == frac_step(frac_iter((m0, 0), (k - 1) as nat)));
        }
    }
    proof {
        assert(frac <= 1023);
    }
    (f * 1024 + frac) * 1000 / 1024
}

// ----- Byte counts and entropy -----

/// Occurrences of byte value `b` in `s`.
pub open spec fn count_byte(s: Seq<u8>, b: int) -> int
    decreases s.len(),
{
    if s.len() == 0 {
        0
    } else {
        count_byte(s.drop_last(), b) + if s.last() == b {
            1int
        } else {
            0int
        }
    }
}

/// One histogram bin's contribution to the entropy sum: `c` copies of a
/// byte each carry `log2(n) - log2(c)` millibits (clamped below at zero).
pub open spec fn entropy_term(c: int, ln: int) -> int {
    if c <= 0 {
        0
    } else {
        let lc = milli_log2(c);
        if lc > ln {
            0
        } else {
            c * (ln - lc)
        }
    }
}

/// Entropy sum over byte values `0 .. nsyms`.
pub open spec fn entropy_sum(d: Seq<u8>, nsyms: int) -> int
    decreases nsyms,
{
    if nsyms <= 0 {
        0
    } else {
        entropy_sum(d, nsyms - 1) + entropy_term(
            count_byte(d, nsyms - 1),
            milli_log2(d.len() as int),
        )
    }
}

/// Order-0 Shannon entropy of `d` in millibits per byte (fixed point),
/// clamped to the 8-bit maximum of 8000; 0 for empty input.
pub open spec fn entropy_millibits(d: Seq<u8>) -> int {
    if d.len() == 0 {
        0
    } else {
        let s = entropy_sum(d, 256) / d.len() as int;
        if s > 8000 {
            8000
        } else {
            s
        }
    }
}

/// Counts are never negative.
pub proof fn lemma_count_nonneg(s: Seq<u8>, b: int)
    ensures
        count_byte(s, b) >= 0,
    decreases s.len(),
{
    if s.len() > 0 {
        lemma_count_nonneg(s.drop_last(), b);
    }
}

/// A byte that occurs in `s` has a positive count.
pub proof fn lemma_count_occurs(s: Seq<u8>, i: int)
    requires
        0 <= i < s.len(),
    ensures
        count_byte(s, s[i] as int) >= 1,
    decreases s.len(),
{
    lemma_count_nonneg(s.drop_last(), s[i] as int);
    if i == s.len() - 1 {
    } else {
        lemma_count_occurs(s.drop_last(), i);
    }
}

/// A positive count names an occurrence.
pub proof fn lemma_count_witness(s: Seq<u8>, b: int)
    requires
        count_byte(s, b) > 0,
    ensures
        exists|i: int| 0 <= i < s.len() && #[trigger] s[i] as int == b,
    decreases s.len(),
{
    if s.len() > 0 {
        if s.last() as int == b {
            assert(s[s.len() - 1] as int == b);
        } else {
            lemma_count_witness(s.drop_last(), b);
            let i0 = choose|i: int| 0 <= i < s.drop_last().len()
                && #[trigger] s.drop_last()[i] as int == b;
            assert(s[i0] as int == b);
        }
    }
}

proof fn lemma_count_uniform(s: Seq<u8>, b: int)
    requires
        forall|i: int| 0 <= i < s.len() ==> #[trigger] s[i] == s[0],
    ensures
        count_byte(s, b) == if s.len() > 0 && b == s[0] as int {
            s.len() as int
        } else {
            0int
        },
    decreases s.len(),
{
    if s.len() > 0 {
        assert(forall|i: int| 0 <= i < s.drop_last().len()
            ==> #[trigger] s.drop_last()[i] == s.drop_last()[0]);
        lemma_count_uniform(s.drop_last(), b);
    }
}

proof fn lemma_entropy_sum_zero(d: Seq<u8>, k: int)
    requires
        forall|b: int| 0 <= b < k
            ==> #[trigger] entropy_term(count_byte(d, b), milli_log2(d.len() as int)) == 0,
    ensures
        entropy_sum(d, k) == 0,
    decreases k,
{
    if k > 0 {
        lemma_entropy_sum_zero(d, k - 1);
    }
}

// ----- Block repetition signal -----

/// One step of the 64-bit FNV-1a-style rolling hash: XOR the byte in,
/// then multiply by the fixed prime, wrapping.
pub open spec fn fnv_step(h: u64, b: u8) -> u64 {
    (h ^ (b as u64)).wrapping_mul(0x100000001b3u64)
}

/// The rolling hash of a whole block, from the fixed seed.
pub open spec fn fnv64(s: Seq<u8>) -> u64
    decreases s.len(),
{
    if s.len() == 0 {
        0xcbf29ce484222325u64
    } else {
        fnv_step(fnv64(s.drop_last()), s.last())
    }
}

/// Hash of the `i`-th full 64-byte block.
pub open spec fn block_hash(d: Seq<u8>, i: int) -> u64 {
    fnv64(d.subrange(64 * i, 64 * i + 64))
}

/// Among the first `k` full blocks, how many repeat an earlier block's
/// hash.
pub open spec fn dup_blocks(d: Seq<u8>, k: int) -> int
    decreases k,
{
    if k <= 0 {
        0
    } else {
        dup_blocks(d, k - 1) + if exists|j: int|
            0 <= j < k - 1 && #[trigger] block_hash(d, j) == block_hash(d, k - 1) {
            1int
        } else {
            0int
        }
    }
}

/// The repetition signal: more than a tenth of the full 64-byte blocks
/// repeat an earlier block's hash. Inputs under 128 bytes never signal.
pub open spec fn repetition_signal(d: Seq<u8>) -> bool {
    d.len() >= 128 && dup_blocks(d, d.len() as int / 64) * 10 > d.len() as int / 64
}

// ----- Method selection -----

/// The static selection policy: low entropy picks symbol coding, large
/// inputs pick block compression, the rest run-length coding.
pub open spec fn static_selection(d: Seq<u8>) -> CompressionMethod {
    if entropy_millibits(d) < 3000 {
        CompressionMethod::Huffman
    } else if d.len() > 4096 {
        CompressionMethod::Lz4Semantic
    } else {
        CompressionMethod::EntropyCoding
    }
}

/// The method an encode call actually dispatches to: `Auto` resolves via
/// the static policy, anything else stands.
pub open spec fn resolved_method(d: Seq<u8>, m: CompressionMethod) -> CompressionMethod {
    if m is Auto {
        static_selection(d)
    } else {
        m
    }
}

/// The adaptive policy's ordered candidate list.
pub open spec fn adaptive_candidates(d: Seq<u8>) -> Seq<CompressionMethod> {
    if entropy_millibits(d) < 2000 {
        seq![CompressionMethod::Huffman]
    } else if repetition_signal(d) && d.len() > 256 {
        seq![CompressionMethod::SemanticDedupe, CompressionMethod::Lz4Semantic]
    } else if d.len() > 4096 {
        seq![CompressionMethod::Lz4Semantic, CompressionMethod::Huffman]
    } else {
        seq![CompressionMethod::EntropyCoding, CompressionMethod::Huffman]
    }
}

/// Everything `compress` promises of a successful envelope for input `d`
/// at block size `bs`: sizes and diagnostics are filled in, and the
/// payload decodes back to `d` under the stored method's codec.
pub open spec fn envelope_ok(out: CompressedOutput, d: Seq<u8>, bs: int) -> bool {
    &&& !(out.method is Auto)
    &&& out.original_size == d.len()
    &&& out.original_size >= 1
    &&& out.compressed_size == out.data@.len()
    &&& out.metadata.entropy_millibits as int == entropy_millibits(d)
    &&& out.metadata.semantic_dedup_count == 0
    &&& out.metadata.block_count as int == (if d.len() as int / bs >= 1 {
        d.len() as int / bs
    } else {
        1int
    })
    &&& (out.method is EntropyCoding ==> {
        &&& out.data@.len() % 2 == 0
        &&& rle_expansion(out.data@) == d
        &&& out.data@.len() <= 2 * d.len()
        &&& forall|q: int| 0 <= q < out.data@.len() && q % 2 == 0 ==> #[trigger] out.data@[q] >= 1
        &&& forall|q: int| 0 <= q && q + 3 < out.data@.len() && q % 2 == 0
            && #[trigger] out.data@[q] < 255 ==> out.data@[q + 3] != out.data@[q + 1]
    })
    &&& (out.method is SemanticDedupe ==> dedup_decoding(out.data@) == Some(d)
        && out.data@.len() == 8 + ser_blocks(first_seen(chunks_of(d, 64))).len()
            + 4 * chunks_of(d, 64).len())
    &&& (out.method is Lz4Semantic ==> lz4_encoding(out.data@, d, bs))
    &&& (out.method is Huffman ==> out.data@.len() >= 3
        && huffman_decoding(out.data@, d.len() as int) == Some(d))
}

/// The main compressor engine.
pub struct Compressor {
    pub config: CompressionConfig,
}

impl Compressor {
    /// Create a new compressor with the given configuration.
    pub fn new(config: CompressionConfig) -> (r: Self)
        ensures
            r.config == config,
    {
        Compressor { config }
    }

    /// Create a compressor with the default configuration.
    pub fn default() -> (r: Self)
        ensures
            r.config.ryzanstein_url@ == "http://localhost:8000"@,
            r.config.lz4_block_size == 65536,
            r.config.dedup_threshold_permille == 950,
            r.config.max_input_size == 104857600,
            r.config.enable_semantic == true,
    {
        Compressor::new(CompressionConfig::default())
    }

    /// Order-0 Shannon entropy of `data` in millibits per byte (fixed
    /// point), in `[0, 8000]`; exactly 0 for empty input and for a single
    /// repeated byte value.
    pub fn compute_entropy(&self, data: &[u8]) -> (r: u64)
        ensures
            r as int == entropy_millibits(data@),
            r <= 8000,
            data@.len() > 0 && (forall|i: int| 0 <= i < data@.len()
                ==> #[trigger] data@[i] == data@[0]) ==> r == 0,
    {
        let n = data.len();
        if n == 0 {
            return 0;
        }
        let mut freq: Vec<u64> = Vec::new();
        let mut s: usize = 0;
        while s < 256
            invariant
                s <= 256,
                freq@.len() == s,
                forall|j: int| 0 <= j < s ==> freq@[j] == 0,
            decreases 256 - s,
        {
            freq.push(0);
            s = s + 1;
        }
        proof {
            assert(data@.take(0) =~= Seq::<u8>::empty());
        }
        let mut i: usize = 0;
        while i < n
            invariant
                n == data@.len(),
                i <= n,
                freq@.len() == 256,
                forall|b: int| 0 <= b < 256
                    ==> #[trigger] freq@[b] == count_byte(data@.take(i as int), b)
                        && freq@[b] <= i,
            decreases n - i,
        {
            let b = data[i] as usize;
            let old_count = freq[b];
            freq.set(b, old_count + 1);
            proof {
                assert(data@.take(i as int + 1).drop_last() =~= data@.take(i as int));
                assert(data@.take(i as int + 1).last() == data@[i as int]);
            }
            i = i + 1;
        }
        proof {
            assert(data@.take(n as int) =~= data@);
        }
        let ln = milli_log2_exec(n as u64);
        let mut sum: u128 = 0;
        let mut b: usize = 0;
        while b < 256
            invariant
                n == data@.len(),
                n >= 1,
                b <= 256,
                freq@.len() == 256,
                forall|j: int| 0 <= j < 256
                    ==> #[trigger] freq@[j] == count_byte(data@, j) && freq@[j] <= n,
                ln as int == milli_log2(n as int),
                ln < 64000,
                sum as int == entropy_sum(data@, b as int),
                sum as int <= (b as int) * (n as int) * 64000,
            decreases 256 - b,
        {
            let c = freq[b];
            if c > 0 {
                let lc = milli_log2_exec(c);
                if lc <= ln {
                    proof {
                        assert((c as int) * ((ln - lc) as int) <= (n as int) * 64000)
                            by (nonlinear_arith)
                            requires
                                0 <= (c as int) <= (n as int),
                                0 <= ((ln - lc) as int) < 64000,
                        ;
                        assert((b as int) * (n as int) * 64000 + (n as int) * 64000
                            == (b as int + 1) * (n as int) * 64000) by (nonlinear_arith);
                        assert((b as int) * (n as int) * 64000 + (n as int) * 64000
                            < 0x100000000000000000000000000000000)
                            by (nonlinear_arith)
                            requires
                                0 <= (b as int) <= 255,
                                0 <= (n as int) <= 0xFFFFFFFFFFFFFFFF,
                        ;
                    }
                    let term: u128 = (c as u128) * ((ln - lc) as u128);
                    sum = sum + term;
                } else {
                    proof {
                        assert((b as int) * (n as int) * 64000
                            <= (b as int + 1) * (n as int) * 64000)
                            by (nonlinear_arith)
                            requires
                                b as int >= 0,
                                n as int >= 0,
                        ;
                    }
                }
            } else {
                proof {
                    assert((b as int) * (n as int) * 64000
                        <= (b as int + 1) * (n as int) * 64000)
                        by (nonlinear_arith)
                        requires
                            b as int >= 0,
                            n as int >= 0,
                    ;
                }
            }
            proof {
                assert(entropy_sum(data@, b as int + 1)
                    == entropy_sum(data@, b as int)
                        + entropy_term(count_byte(data@, b as int), milli_log2(n as int)));
            }
            b = b + 1;
        }
        let total = sum / (n as u128);
        let r = if total > 8000 {
            8000u64
        } else {
            total as u64
        };
        proof {
            if data@.len() > 0 && (forall|i2: int| 0 <= i2 < data@.len()
                ==> #[trigger] data@[i2] == data@[0]) {
                assert forall|b2: int| 0 <= b2 < 256 implies
                    #[trigger] entropy_term(count_byte(data@, b2), milli_log2(n as int)) == 0 by {
                    lemma_count_uniform(data@, b2);
                    if b2 == data@[0] as int {
                        assert(count_byte(data@, b2) == n as int);
                        assert(milli_log2(count_byte(data@, b2)) == milli_log2(n as int));
                        assert(entropy_term(count_byte(data@, b2), milli_log2(n as int)) == 0);
                    } else {
                        assert(count_byte(data@, b2) == 0);
                        assert(entropy_term(count_byte(data@, b2), milli_log2(n as int)) == 0);
                    }
                }
                lemma_entropy_sum_zero(data@, 256);
            }
        }
        r
    }

    /// True when more than a tenth of the full 64-byte blocks repeat an
    /// earlier block's rolling hash.
    pub fn detect_block_repetition(&self, data: &[u8]) -> (r: bool)
        ensures
            r == repetition_signal(data@),
    {
        let n = data.len();
        if n < 128 {
            return false;
        }
        let total_blocks = n / 64;
        let mut seen: Vec<u64> = Vec::new();
        let mut duplicates: usize = 0;
        let mut k: usize = 0;
        while k < total_blocks
            invariant
                n == data@.len(),
                n >= 128,
                total_blocks == n / 64,
                k <= total_blocks,
                seen@.len() == k,
                forall|j: int| 0 <= j < k ==> seen@[j] == block_hash(data@, j),
                duplicates <= k,
                duplicates as int == dup_blocks(data@, k as int),
            decreases total_blocks - k,
        {
            proof {
                vstd::arithmetic::div_mod::lemma_fundamental_div_mod(n as int, 64);
            }
            let start = k * 64;
            let mut h: u64 = 0xcbf29ce484222325;
            let mut t: usize = 0;
            proof {
                assert(data@.subrange(start as int, start as int) =~= Seq::<u8>::empty());
            }
            while t < 64
                invariant
                    n == data@.len(),
                    start + 64 <= n,
                    t <= 64,
                    h == fnv64(data@.subrange(start as int, start as int + t as int)),
                decreases 64 - t,
            {
                proof {
                    assert(data@.subrange(start as int, start as int + t as int + 1).drop_last()
                        =~= data@.subrange(start as int, start as int + t as int));
                    assert(data@.subrange(start as int, start as int + t as int + 1).last()
                        == data@[start as int + t as int]);
                }
                h = (h ^ (data[start + t] as u64)).wrapping_mul(0x100000001b3);
                t = t + 1;
            }
            proof {
                assert(data@.subrange(start as int, start as int + 64)
                    =~= data@.subrange(64 * (k as int), 64 * (k as int) + 64));
                assert(h == block_hash(data@, k as int));
            }
            let mut dup = false;
            let mut j: usize = 0;
            while j < seen.len()
                invariant
                    j <= seen@.len(),
                    seen@.len() == k,
                    forall|j2: int| 0 <= j2 < k ==> seen@[j2] == block_hash(data@, j2),
                    h == block_hash(data@, k as int),
                    dup == exists|j2: int|
                        0 <= j2 < j && #[trigger] block_hash(data@, j2) == block_hash(
                            data@,
                            k as int,
                        ),
                decreases seen@.len() - j,
            {
                if seen[j] == h {
                    dup = true;
                }
                j = j + 1;
            }
            if dup {
                duplicates = duplicates + 1;
            }
            seen.push(h);
            k = k + 1;
        }
        duplicates * 10 > total_blocks
    }

    /// Pick a strategy with the static heuristic, without running any
    /// codec.
    pub fn select_method(&self, data: &[u8]) -> (r: CompressionMethod)
        ensures
            r == static_selection(data@),
    {
        let entropy = self.compute_entropy(data);
        if entropy < 3000 {
            CompressionMethod::Huffman
        } else if data.len() > 4096 {
            CompressionMethod::Lz4Semantic
        } else {
            CompressionMethod::EntropyCoding
        }
    }

    /// Encode `data` with `method`, resolving `Auto` through the static
    /// policy first. Empty input is rejected before any codec runs.
    /// Success is owed whenever the resolved strategy does not call the
    /// outside block compressor; the configured `max_input_size` ceiling
    /// is deliberately not enforced here, matching the engine's observed
    /// behavior.
    pub fn compress(&self, data: &[u8], method: CompressionMethod) -> (r: Result<
        CompressedOutput,
        CompressError,
    >)
        requires
            self.config.lz4_block_size >= 1,
            data@.len() < 0x100000000,
        ensures
            data@.len() == 0 ==> (r matches Err(e) && e is EmptyInput),
            data@.len() > 0 ==> {
                let m = resolved_method(data@, method);
                &&& (r matches Ok(out) ==> out.method == m
                    && envelope_ok(out, data@, self.config.lz4_block_size as int))
                &&& (r is Err ==> m is Lz4Semantic)
                &&& (r matches Err(e) ==> e is Lz4Error)
            },
    {
        if data.len() == 0 {
            return Err(CompressError::EmptyInput);
        }
        let method = if method == CompressionMethod::Auto {
            self.select_method(data)
        } else {
            method
        };

        let compressed = match method {
            CompressionMethod::Huffman => match huffman::compress(data) {
                Ok(v) => v,
                Err(e) => {
                    proof {
                        assert(false);
                    }
                    return Err(e);
                },
            },
            CompressionMethod::Lz4Semantic => match lz4_wrapper::compress(
                data,
                self.config.lz4_block_size,
            ) {
                Ok(v) => v,
                Err(e) => {
                    return Err(e);
                },
            },
            CompressionMethod::EntropyCoding => match entropy::compress(data) {
                Ok(v) => v,
                Err(e) => {
                    proof {
                        assert(false);
                    }
                    return Err(e);
                },
            },
            CompressionMethod::SemanticDedupe => match semantic::compress(
                data,
                self.config.dedup_threshold_permille,
            ) {
                Ok(v) => v,
                Err(e) => {
                    proof {
                        assert(false);
                    }
                    return Err(e);
                },
            },
            CompressionMethod::Auto => {
                proof {
                    assert(false);
                }
                return Err(CompressError::InvalidMethod);
            },
        };

        let entropy_bits = self.compute_entropy(data);
        let bc = data.len() / self.config.lz4_block_size;
        let block_count = if bc == 0 {
            1
        } else {
            bc
        };
        let compressed_size = compressed.len();
        Ok(CompressedOutput {
            method,
            original_size: data.len(),
            compressed_size,
            data: compressed,
            metadata: CompressionMetadata {
                entropy_millibits: entropy_bits,
                semantic_dedup_count: 0,
                block_count,
            },
        })
    }

    /// Decode an envelope by dispatching on its stored method. A stored
    /// `Auto` tag is always an error: encode never writes it.
    pub fn decompress(&self, output: &CompressedOutput) -> (r: Result<Vec<u8>, CompressError>)
        ensures
            output.method is Auto ==> (r matches Err(e) && e is InvalidMethod),
            output.method is EntropyCoding ==> {
                &&& output.data@.len() % 2 != 0 ==> (r matches Err(e) && e is EntropyError)
                &&& output.data@.len() % 2 == 0 ==> (r matches Ok(v)
                    && v@ == rle_expansion(output.data@))
            },
            output.method is SemanticDedupe ==> match dedup_decoding(output.data@) {
                Some(v) => r matches Ok(o) && o@ == v,
                None => r matches Err(e) && e is SemanticError,
            },
            output.method is Lz4Semantic ==> forall|d: Seq<u8>, bs: int|
                lz4_encoding(output.data@, d, bs) ==> (r matches Ok(v) && v@ == d),
            output.method is Huffman ==> match huffman_decoding(
                output.data@,
                output.original_size as int,
            ) {
                Some(v) => r matches Ok(o) && o@ == v,
                None => r matches Err(e) && e is HuffmanError,
            },
            output.method is Huffman ==> (r matches Ok(v) ==> v@.len() <= output.original_size),
    {
        match output.method {
            CompressionMethod::Huffman => huffman::decompress(
                output.data.as_slice(),
                output.original_size,
            ),
            CompressionMethod::Lz4Semantic => lz4_wrapper::decompress(
                output.data.as_slice(),
                output.original_size,
            ),
            CompressionMethod::EntropyCoding => entropy::decompress(
                output.data.as_slice(),
                output.original_size,
            ),
            CompressionMethod::SemanticDedupe => semantic::decompress(
                output.data.as_slice(),
                output.original_size,
            ),
            CompressionMethod::Auto => Err(CompressError::InvalidMethod),
        }
    }

    /// Adaptive encoding: run every candidate strategy the data's
    /// characteristics suggest and keep the smallest result; ratio ties
    /// keep the earlier candidate. A candidate's failure is skipped, and
    /// every candidate list holds a strategy that cannot fail, so
    /// non-empty input always encodes. Where a candidate list opens with a
    /// strategy whose output size the contracts pin — deduplication, or
    /// run-length coding — the kept result is no larger than that size.
    pub fn compress_adaptive(&self, data: &[u8]) -> (r: Result<CompressedOutput, CompressError>)
        requires
            self.config.lz4_block_size >= 1,
            data@.len() < 0x100000000,
        ensures
            data@.len() == 0 ==> (r matches Err(e) && e is EmptyInput),
            data@.len() > 0 ==> (r matches Ok(out)
                && adaptive_candidates(data@).contains(out.method)
                && envelope_ok(out, data@, self.config.lz4_block_size as int)),
            data@.len() > 0 && entropy_millibits(data@) >= 2000 && repetition_signal(data@)
                && data@.len() > 256 ==> (r matches Ok(out)
                && out.compressed_size <= 8 + ser_blocks(first_seen(chunks_of(data@, 64))).len()
                    + 4 * chunks_of(data@, 64).len()),
            data@.len() > 0 && entropy_millibits(data@) >= 2000
                && !(repetition_signal(data@) && data@.len() > 256) && data@.len() <= 4096
                ==> (r matches Ok(out) && out.compressed_size <= 2 * data@.len()),
    {
        if data.len() == 0 {
            return Err(CompressError::EmptyInput);
        }

        let entropy = self.compute_entropy(data);
        let has_repeated_blocks = self.detect_block_repetition(data);

        let mut candidates: Vec<CompressionMethod> = Vec::new();
        if entropy < 2000 {
            candidates.push(CompressionMethod::Huffman);
        } else if has_repeated_blocks && data.len() > 256 {
            candidates.push(CompressionMethod::SemanticDedupe);
            candidates.push(CompressionMethod::Lz4Semantic);
        } else if data.len() > 4096 {
            candidates.push(CompressionMethod::Lz4Semantic);
            candidates.push(CompressionMethod::Huffman);
        } else {
            candidates.push(CompressionMethod::EntropyCoding);
            candidates.push(CompressionMethod::Huffman);
        }
        proof {
            assert(candidates@ =~= adaptive_candidates(data@));
        }

        let mut best: Option<CompressedOutput> = None;
        let mut i: usize = 0;
        while i < candidates.len()
            invariant
                self.config.lz4_block_size >= 1,
                data@.len() > 0,
                data@.len() < 0x100000000,
                candidates@ == adaptive_candidates(data@),
                i <= candidates@.len(),
                forall|j: int| 0 <= j < candidates@.len()
                    ==> !(#[trigger] candidates@[j] is Auto),
                best matches Some(b) ==> candidates@.contains(b.method)
                    && envelope_ok(b, data@, self.config.lz4_block_size as int),
                best is None ==> forall|j: int| 0 <= j < i
                    ==> #[trigger] candidates@[j] is Lz4Semantic,
                entropy_millibits(data@) >= 2000 && repetition_signal(data@)
                    && data@.len() > 256 && i >= 1 ==> (best matches Some(b2)
                    && b2.compressed_size <= 8
                        + ser_blocks(first_seen(chunks_of(data@, 64))).len()
                        + 4 * chunks_of(data@, 64).len()),
                entropy_millibits(data@) >= 2000
                    && !(repetition_signal(data@) && data@.len() > 256) && data@.len() <= 4096
                    && i >= 1 ==> (best matches Some(b3)
                    && b3.compressed_size <= 2 * data@.len()),
            decreases candidates@.len() - i,
        {
            let m = candidates[i];
            proof {
                if i == 0 && entropy_millibits(data@) >= 2000 {
                    if repetition_signal(data@) && data@.len() > 256 {
                        assert(m is SemanticDedupe);
                    } else if data@.len() <= 4096 {
                        assert(m is EntropyCoding);
                    }
                }
            }
            match self.compress(data, m) {
                Ok(result) => {
                    let take = match &best {
                        Some(b) => result.compressed_size < b.compressed_size,
                        None => true,
                    };
                    if take {
                        proof {
                            assert(resolved_method(data@, m) == m);
                            assert(candidates@.contains(m)) by {
                                assert(candidates@[i as int] == m);
                            }
                        }
                        best = Some(result);
                    }
                },
                Err(_) => {
                    proof {
                        assert(resolved_method(data@, m) == m);
                        assert(m is Lz4Semantic);
                    }
                },
            }
            i = i + 1;
        }

        match best {
            Some(out) => Ok(out),
            None => {
                proof {
                    let cs = adaptive_candidates(data@);
                    if entropy_millibits(data@) < 2000 {
                        assert(!(cs[0] is Lz4Semantic));
                    } else if repetition_signal(data@) && data@.len() > 256 {
                        assert(!(cs[0] is Lz4Semantic));
                    } else if data@.len() > 4096 {
                        assert(!(cs[1] is Lz4Semantic));
                    } else {
                        assert(!(cs[0] is Lz4Semantic));
                    }
                    assert(false);
                }
                Err(CompressError::EmptyInput)
            },
        }
    }
}

} // verus!

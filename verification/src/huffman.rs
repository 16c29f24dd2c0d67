//! Huffman symbol codec.
//!
//! Builds a prefix-code tree from byte frequencies, serializes the code
//! table plus the bit-packed payload, and reverses the process. The tree
//! lives in an arena (a flat vector of nodes whose children are smaller
//! indices), which avoids recursive ownership. Ties between equal
//! frequencies are broken deterministically by scan order, which follows
//! symbol/insertion order.
//!
//! Wire format: `[symbol_count: u16 LE]` then, per symbol,
//! `[byte_value: u8][code_bit_length: u8][code bits, LSB-first]`, then
//! `[original_length: u32 LE]` and the payload bits, LSB-first, with the
//! final byte zero-padded.

use vstd::prelude::*;
use crate::count_byte;
use crate::error::CompressError;
use crate::lemma_count_nonneg;
use crate::lemma_count_occurs;
use crate::lemma_count_witness;
use crate::wire::le32_bytes;

verus! {

/// One node of the prefix-code tree arena. Children always have smaller
/// arena indices than their parent, so walks terminate.
pub struct HuffNode {
    pub freq: u64,
    pub symbol: Option<u8>,
    pub left: Option<usize>,
    pub right: Option<usize>,
}

/// Every node's children sit strictly below it in the arena.
pub open spec fn wf_arena(a: Seq<HuffNode>) -> bool {
    forall|i: int| 0 <= i < a.len() ==> {
        &&& (#[trigger] a[i].left matches Some(l) ==> (l as int) < i)
        &&& (a[i].right matches Some(r) ==> (r as int) < i)
    }
}

/// Height of the subtree rooted at `i` (0 for a leaf). Children at or
/// above their parent are not descended into, so this is total even on
/// an ill-formed arena.
pub open spec fn tree_depth(a: Seq<HuffNode>, i: int) -> int
    decreases i,
{
    if i < 0 || i >= a.len() {
        0
    } else {
        let dl = match a[i].left {
            Some(l) => if (l as int) < i && l as int >= 0 {
                1 + tree_depth(a, l as int)
            } else {
                0
            },
            None => 0,
        };
        let dr = match a[i].right {
            Some(r) => if (r as int) < i && r as int >= 0 {
                1 + tree_depth(a, r as int)
            } else {
                0
            },
            None => 0,
        };
        if dl >= dr {
            dl
        } else {
            dr
        }
    }
}

/// A subtree's height is never negative.
proof fn lemma_tree_depth_nonneg(a: Seq<HuffNode>, i: int)
    ensures
        tree_depth(a, i) >= 0,
    decreases i,
{
    if 0 <= i < a.len() {
        match a[i].left {
            Some(l) => {
                if (l as int) < i {
                    lemma_tree_depth_nonneg(a, l as int);
                }
            },
            None => {},
        }
        match a[i].right {
            Some(r) => {
                if (r as int) < i {
                    lemma_tree_depth_nonneg(a, r as int);
                }
            },
            None => {},
        }
    }
}

/// Appending nodes to the arena does not change existing subtrees.
proof fn lemma_tree_depth_push(a: Seq<HuffNode>, x: HuffNode, i: int)
    requires
        i < a.len(),
    ensures
        tree_depth(a.push(x), i) == tree_depth(a, i),
    decreases i,
{
    if 0 <= i {
        assert(a.push(x)[i] == a[i]);
        match a[i].left {
            Some(l) => {
                if (l as int) < i {
                    lemma_tree_depth_push(a, x, l as int);
                }
            },
            None => {},
        }
        match a[i].right {
            Some(r) => {
                if (r as int) < i {
                    lemma_tree_depth_push(a, x, r as int);
                }
            },
            None => {},
        }
    }
}

/// Appending nodes to the arena does not change which symbols existing
/// subtrees hold.
proof fn lemma_has_sym_push(a: Seq<HuffNode>, x: HuffNode, i: int, s: u8)
    requires
        i < a.len(),
    ensures
        has_sym(a.push(x), i, s) == has_sym(a, i, s),
    decreases i,
{
    if 0 <= i {
        assert(a.push(x)[i] == a[i]);
        match a[i].left {
            Some(l) => {
                if (l as int) < i {
                    lemma_has_sym_push(a, x, l as int, s);
                }
            },
            None => {},
        }
        match a[i].right {
            Some(r) => {
                if (r as int) < i {
                    lemma_has_sym_push(a, x, r as int, s);
                }
            },
            None => {},
        }
    }
}

/// Total frequency over the leaves of the subtree at `i`.
pub open spec fn tree_weight(a: Seq<HuffNode>, i: int) -> int
    decreases i,
{
    if i < 0 || i >= a.len() {
        0
    } else {
        match a[i].symbol {
            Some(_) => a[i].freq as int,
            None => {
                let wl = match a[i].left {
                    Some(l) => if (l as int) < i {
                        tree_weight(a, l as int)
                    } else {
                        0
                    },
                    None => 0,
                };
                let wr = match a[i].right {
                    Some(r) => if (r as int) < i {
                        tree_weight(a, r as int)
                    } else {
                        0
                    },
                    None => 0,
                };
                wl + wr
            },
        }
    }
}

/// Summed frequency of the leaves labelled `s` in the subtree at `i`.
pub open spec fn sym_freq(a: Seq<HuffNode>, i: int, s: u8) -> int
    decreases i,
{
    if i < 0 || i >= a.len() {
        0
    } else {
        match a[i].symbol {
            Some(s2) => if s2 == s {
                a[i].freq as int
            } else {
                0
            },
            None => {
                let wl = match a[i].left {
                    Some(l) => if (l as int) < i {
                        sym_freq(a, l as int, s)
                    } else {
                        0
                    },
                    None => 0,
                };
                let wr = match a[i].right {
                    Some(r) => if (r as int) < i {
                        sym_freq(a, r as int, s)
                    } else {
                        0
                    },
                    None => 0,
                };
                wl + wr
            },
        }
    }
}

/// Number of leaves labelled `s` in the subtree at `i`.
pub open spec fn sym_leaves(a: Seq<HuffNode>, i: int, s: u8) -> int
    decreases i,
{
    if i < 0 || i >= a.len() {
        0
    } else {
        match a[i].symbol {
            Some(s2) => if s2 == s {
                1
            } else {
                0
            },
            None => {
                let wl = match a[i].left {
                    Some(l) => if (l as int) < i {
                        sym_leaves(a, l as int, s)
                    } else {
                        0
                    },
                    None => 0,
                };
                let wr = match a[i].right {
                    Some(r) => if (r as int) < i {
                        sym_leaves(a, r as int, s)
                    } else {
                        0
                    },
                    None => 0,
                };
                wl + wr
            },
        }
    }
}

/// Appending nodes to the arena changes no existing subtree's weight,
/// per-symbol frequency or leaf count.
proof fn lemma_weights_push(a: Seq<HuffNode>, x: HuffNode, i: int, s: u8)
    requires
        i < a.len(),
    ensures
        tree_weight(a.push(x), i) == tree_weight(a, i),
        sym_freq(a.push(x), i, s) == sym_freq(a, i, s),
        sym_leaves(a.push(x), i, s) == sym_leaves(a, i, s),
    decreases i,
{
    if 0 <= i {
        assert(a.push(x)[i] == a[i]);
        match a[i].left {
            Some(l) => {
                if (l as int) < i {
                    lemma_weights_push(a, x, l as int, s);
                }
            },
            None => {},
        }
        match a[i].right {
            Some(r) => {
                if (r as int) < i {
                    lemma_weights_push(a, x, r as int, s);
                }
            },
            None => {},
        }
    }
}

/// Weights and leaf counts are never negative.
proof fn lemma_weights_nonneg(a: Seq<HuffNode>, i: int, s: u8)
    ensures
        tree_weight(a, i) >= 0,
        sym_freq(a, i, s) >= 0,
        sym_leaves(a, i, s) >= 0,
    decreases i,
{
    if 0 <= i < a.len() {
        match a[i].left {
            Some(l) => {
                if (l as int) < i {
                    lemma_weights_nonneg(a, l as int, s);
                }
            },
            None => {},
        }
        match a[i].right {
            Some(r) => {
                if (r as int) < i {
                    lemma_weights_nonneg(a, r as int, s);
                }
            },
            None => {},
        }
    }
}

/// Total frequency over a list of roots.
pub open spec fn active_weight(a: Seq<HuffNode>, act: Seq<usize>) -> int
    decreases act.len(),
{
    if act.len() == 0 {
        0
    } else {
        active_weight(a, act.drop_last()) + tree_weight(a, act.last() as int)
    }
}

proof fn lemma_active_weight_nonneg(a: Seq<HuffNode>, act: Seq<usize>)
    ensures
        active_weight(a, act) >= 0,
    decreases act.len(),
{
    if act.len() > 0 {
        lemma_active_weight_nonneg(a, act.drop_last());
        lemma_weights_nonneg(a, act.last() as int, 0);
    }
}

/// Removing one root removes exactly its weight from the total.
proof fn lemma_active_weight_remove(a: Seq<HuffNode>, act: Seq<usize>, p: int)
    requires
        0 <= p < act.len(),
    ensures
        active_weight(a, act) == active_weight(a, act.remove(p)) + tree_weight(a, act[p] as int),
    decreases act.len(),
{
    if p == act.len() - 1 {
        assert(act.remove(p) =~= act.drop_last());
    } else {
        assert(act.remove(p).drop_last() =~= act.drop_last().remove(p));
        assert(act.remove(p).last() == act.last());
        lemma_active_weight_remove(a, act.drop_last(), p);
    }
}

/// Appending nodes to the arena does not change a root list's weight.
proof fn lemma_active_weight_push(a: Seq<HuffNode>, x: HuffNode, act: Seq<usize>)
    requires
        forall|j: int| 0 <= j < act.len() ==> (#[trigger] act[j] as int) < a.len(),
    ensures
        active_weight(a.push(x), act) == active_weight(a, act),
    decreases act.len(),
{
    if act.len() > 0 {
        lemma_active_weight_push(a, x, act.drop_last());
        lemma_weights_push(a, x, act.last() as int, 0);
    }
}

/// Per-byte counts over the values `0 .. k`.
pub open spec fn sum_counts(d: Seq<u8>, k: int) -> int
    decreases k,
{
    if k <= 0 {
        0
    } else {
        sum_counts(d, k - 1) + count_byte(d, k - 1)
    }
}

proof fn lemma_sum_counts_drop(s: Seq<u8>, k: int)
    requires
        s.len() > 0,
    ensures
        sum_counts(s, k) == sum_counts(s.drop_last(), k) + (if (s.last() as int) < k {
            1int
        } else {
            0int
        }),
    decreases k,
{
    if k > 0 {
        lemma_sum_counts_drop(s, k - 1);
    }
}

/// The 256 per-byte counts sum to the input length.
proof fn lemma_sum_counts_total(s: Seq<u8>)
    ensures
        sum_counts(s, 256) == s.len(),
    decreases s.len(),
{
    if s.len() == 0 {
        lemma_sum_counts_zero(s, 256);
    } else {
        lemma_sum_counts_drop(s, 256);
        lemma_sum_counts_total(s.drop_last());
    }
}

proof fn lemma_sum_counts_zero(s: Seq<u8>, k: int)
    requires
        s.len() == 0,
    ensures
        sum_counts(s, k) == 0,
    decreases k,
{
    if k > 0 {
        lemma_sum_counts_zero(s, k - 1);
    }
}

/// The synthesized two-leaf tree for a single distinct byte: the symbol's
/// leaf on the left (bit 0) and a frequency-0, symbol-less, childless
/// placeholder on the right.
pub open spec fn single_symbol_shape(a: Seq<HuffNode>, root: int, s: u8, n: int) -> bool {
    &&& 0 <= root < a.len()
    &&& a[root].symbol is None
    &&& match a[root].left {
        Some(l) => (l as int) < root && a[l as int].symbol == Some(s)
            && a[l as int].freq as int == n && a[l as int].left is None
            && a[l as int].right is None,
        None => false,
    }
    &&& match a[root].right {
        Some(rr) => (rr as int) < root && a[rr as int].symbol is None && a[rr as int].freq == 0
            && a[rr as int].left is None && a[rr as int].right is None,
        None => false,
    }
}

/// Build the frequency histogram and the prefix-code tree. Returns the
/// arena and the root index, or `None` exactly when `data` is empty. The
/// tree's height never exceeds 255 (so every code fits in a `u8` length);
/// its leaves carry exactly the nonzero byte histogram — one leaf per
/// occurring byte value, holding that value's count — and the root's
/// frequency is the input length. A single distinct byte yields the
/// synthesized two-leaf shape: the symbol's leaf on the left, a
/// frequency-0 placeholder on the right.
pub fn build_tree(data: &[u8]) -> (r: Option<(Vec<HuffNode>, usize)>)
    ensures
        r is Some <==> data@.len() > 0,
        r matches Some(t) ==> {
            &&& wf_arena(t.0@)
            &&& (t.1 as int) < t.0@.len()
            &&& tree_depth(t.0@, t.1 as int) <= 255
            &&& forall|i: int| 0 <= i < data@.len()
                ==> has_sym(t.0@, t.1 as int, #[trigger] data@[i])
            &&& forall|b: u8| #[trigger] has_sym(t.0@, t.1 as int, b)
                ==> count_byte(data@, b as int) > 0
            &&& (t.0@[t.1 as int].freq as int) == data@.len()
            &&& forall|b: u8| #[trigger] sym_freq(t.0@, t.1 as int, b)
                == count_byte(data@, b as int)
            &&& forall|b: u8| #[trigger] sym_leaves(t.0@, t.1 as int, b)
                == (if count_byte(data@, b as int) > 0 {
                    1int
                } else {
                    0int
                })
            &&& (data@.len() > 0 && (forall|i: int| 0 <= i < data@.len()
                ==> #[trigger] data@[i] == data@[0])
                ==> single_symbol_shape(t.0@, t.1 as int, data@[0], data@.len() as int))
        },
{
    let n = data.len();
    let mut freq: Vec<u64> = Vec::new();
    let mut s: usize = 0;
    while s < 256
        invariant
            s <= 256,
            freq@.len() == s,
            forall|j: int| 0 <= j < s ==> freq@[j] == 0,
        decreases 256 - s,
    {
        freq.push(0);
        s = s + 1;
    }
    proof {
        assert(data@.take(0) =~= Seq::<u8>::empty());
    }
    let first: usize = if n > 0 { data[0] as usize } else { 0 };
    let mut i: usize = 0;
    while i < n
        invariant
            n == data@.len(),
            i <= n,
            freq@.len() == 256,
            first < 256,
            n > 0 ==> first == data@[0] as int,
            forall|j: int| 0 <= j < 256
                ==> #[trigger] freq@[j] == count_byte(data@.take(i as int), j)
                    && freq@[j] <= i,
            i > 0 ==> freq@[first as int] >= 1,
        decreases n - i,
    {
        let b = data[i] as usize;
        let old_count = freq[b];
        freq.set(b, old_count + 1);
        proof {
            assert(data@.take(i as int + 1).drop_last() =~= data@.take(i as int));
            assert(data@.take(i as int + 1).last() == data@[i as int]);
        }
        i = i + 1;
    }
    proof {
        assert(data@.take(n as int) =~= data@);
    }

    // One leaf per occurring byte value, in ascending symbol order.
    let mut arena: Vec<HuffNode> = Vec::new();
    let mut active: Vec<usize> = Vec::new();
    let mut sym: usize = 0;
    while sym < 256
        invariant
            n == data@.len(),
            freq@.len() == 256,
            first < 256,
            n > 0 ==> first == data@[0] as int && freq@[first as int] >= 1,
            sym <= 256,
            forall|j: int| 0 <= j < 256
                ==> #[trigger] freq@[j] == count_byte(data@, j) && freq@[j] <= n,
            n == 0 ==> active@.len() == 0,
            arena@.len() == active@.len(),
            active@.len() <= sym,
            wf_arena(arena@),
            forall|j: int| 0 <= j < active@.len()
                ==> (#[trigger] active@[j] as int) < arena@.len()
                    && tree_depth(arena@, active@[j] as int) == 0,
            forall|b: int| 0 <= b < sym && #[trigger] freq@[b] > 0
                ==> exists|j: int| 0 <= j < active@.len()
                    && #[trigger] has_sym(arena@, active@[j] as int, b as u8),
            forall|j: int, b: u8| 0 <= j < active@.len()
                && #[trigger] has_sym(arena@, active@[j] as int, b)
                ==> freq@[b as int] > 0,
            active_weight(arena@, active@) == sum_counts(data@, sym as int),
            forall|j: int| 0 <= j < active@.len() ==> {
                let nd = #[trigger] arena@[active@[j] as int];
                &&& nd.symbol is Some
                &&& nd.left is None
                &&& nd.right is None
                &&& nd.freq as int == count_byte(data@, nd.symbol->0 as int)
                &&& nd.freq >= 1
                &&& (nd.symbol->0 as int) < sym
            },
            forall|j1: int, j2: int| 0 <= j1 < j2 < active@.len()
                ==> ((#[trigger] arena@[active@[j1] as int].symbol)->0 as int)
                    < ((#[trigger] arena@[active@[j2] as int].symbol)->0 as int),
            n > 0 && sym > first ==> active@.len() >= 1,
        decreases 256 - sym,
    {
        let f = freq[sym];
        if f > 0 {
            let idx = arena.len();
            let node = HuffNode { freq: f, symbol: Some(sym as u8), left: None, right: None };
            let ghost pre = arena@;
            let ghost pre_active = active@;
            arena.push(node);
            active.push(idx);
            proof {
                assert forall|j: int| 0 <= j < active@.len() implies
                    (#[trigger] active@[j] as int) < arena@.len()
                        && tree_depth(arena@, active@[j] as int) == 0 by {
                    if j < active@.len() - 1 {
                        lemma_tree_depth_push(pre, node, active@[j] as int);
                    } else {
                        assert(arena@[idx as int] == node);
                    }
                }
                assert forall|b: int| 0 <= b < sym + 1 && #[trigger] freq@[b] > 0 implies
                    exists|j: int| 0 <= j < active@.len()
                        && #[trigger] has_sym(arena@, active@[j] as int, b as u8) by {
                    if b == sym {
                        assert(arena@[idx as int] == node);
                        assert(has_sym(arena@, idx as int, b as u8));
                        assert(active@[active@.len() - 1] == idx);
                    } else {
                        let j0 = choose|j: int| 0 <= j < pre_active.len()
                            && has_sym(pre, pre_active[j] as int, b as u8);
                        lemma_has_sym_push(pre, node, pre_active[j0] as int, b as u8);
                        assert(active@[j0] == pre_active[j0]);
                        assert(has_sym(arena@, active@[j0] as int, b as u8));
                    }
                }
                assert forall|j: int, b: u8| 0 <= j < active@.len()
                    && #[trigger] has_sym(arena@, active@[j] as int, b) implies
                    freq@[b as int] > 0 by {
                    if j == active@.len() - 1 {
                        assert(arena@[idx as int] == node);
                        assert(b == sym as u8);
                    } else {
                        lemma_has_sym_push(pre, node, pre_active[j] as int, b);
                        assert(has_sym(pre, pre_active[j] as int, b));
                    }
                }
                assert forall|j: int| 0 <= j < active@.len() implies {
                    let nd = #[trigger] arena@[active@[j] as int];
                    &&& nd.symbol is Some
                    &&& nd.left is None
                    &&& nd.right is None
                    &&& nd.freq as int == count_byte(data@, nd.symbol->0 as int)
                    &&& nd.freq >= 1
                    &&& (nd.symbol->0 as int) < sym + 1
                } by {
                    if j < active@.len() - 1 {
                        assert(arena@[active@[j] as int] == pre[pre_active[j] as int]);
                    } else {
                        assert(arena@[idx as int] == node);
                    }
                }
                lemma_active_weight_push(pre, node, pre_active);
                assert(active@.drop_last() =~= pre_active);
                assert(active_weight(arena@, active@)
                    == active_weight(arena@, pre_active) + tree_weight(arena@, idx as int));
                assert(tree_weight(arena@, idx as int) == f);
            }
        } else {
            proof {
                assert(sum_counts(data@, sym as int + 1)
                    == sum_counts(data@, sym as int) + count_byte(data@, sym as int));
            }
        }
        sym = sym + 1;
    }

    if active.len() == 0 {
        return None;
    }
    let ghost init_active = active@.len() as int;
    if active.len() == 1 {
        // Single distinct byte: synthesize a two-leaf tree so the symbol
        // still gets a one-bit code.
        let leaf = active[0];
        let ghost pre = arena@;
        let ghost pre_active = active@;
        let placeholder = arena.len();
        let pnode = HuffNode { freq: 0, symbol: None, left: None, right: None };
        arena.push(pnode);
        let root = arena.len();
        let f = arena[leaf].freq;
        let rnode = HuffNode { freq: f, symbol: None, left: Some(leaf), right: Some(placeholder) };
        arena.push(rnode);
        proof {
            lemma_tree_depth_push(pre, pnode, leaf as int);
            lemma_tree_depth_push(pre.push(pnode), rnode, leaf as int);
            lemma_tree_depth_push(pre.push(pnode), rnode, placeholder as int);
            assert(arena@ =~= pre.push(pnode).push(rnode));
            assert(tree_depth(arena@, root as int) <= 1);
            assert forall|i2: int| 0 <= i2 < data@.len() implies
                has_sym(arena@, root as int, #[trigger] data@[i2]) by {
                lemma_count_occurs(data@, i2);
                let b = data@[i2] as int;
                assert(freq@[b] > 0);
                let j0 = choose|j: int| 0 <= j < pre_active.len()
                    && has_sym(pre, pre_active[j] as int, b as u8);
                assert(j0 == 0);
                assert(pre_active[0] == leaf);
                lemma_has_sym_push(pre, pnode, leaf as int, b as u8);
                lemma_has_sym_push(pre.push(pnode), rnode, leaf as int, b as u8);
                assert(has_sym(arena@, leaf as int, b as u8));
                assert(arena@[root as int] == rnode);
                assert(has_sym(arena@, root as int, b as u8));
                assert(data@[i2] == b as u8);
            }
            assert forall|b: u8| #[trigger] has_sym(arena@, root as int, b) implies
                count_byte(data@, b as int) > 0 by {
                assert(arena@[root as int] == rnode);
                assert(arena@[placeholder as int] == pnode);
                assert(!has_sym(arena@, placeholder as int, b));
                assert(has_sym(arena@, leaf as int, b));
                lemma_has_sym_push(pre, pnode, leaf as int, b);
                lemma_has_sym_push(pre.push(pnode), rnode, leaf as int, b);
                assert(has_sym(pre, leaf as int, b));
                assert(pre_active[0] == leaf);
                assert(freq@[b as int] > 0);
            }
            // The lone leaf carries the whole input: its frequency is the
            // input length, and it is the only leaf of any symbol.
            let s0 = pre[leaf as int].symbol->0;
            assert(pre_active.drop_last() =~= Seq::<usize>::empty());
            assert(active_weight(pre, Seq::<usize>::empty()) == 0);
            assert(pre_active.last() == leaf);
            assert(active_weight(pre, pre_active)
                == active_weight(pre, pre_active.drop_last()) + tree_weight(pre, leaf as int));
            assert(active_weight(pre, pre_active) == tree_weight(pre, leaf as int));
            assert(tree_weight(pre, leaf as int) == f);
            lemma_sum_counts_total(data@);
            assert(f as int == data@.len());
            assert(arena@[root as int].freq == f);
            assert forall|b: u8| #[trigger] sym_freq(arena@, root as int, b)
                == count_byte(data@, b as int) by {
                lemma_weights_push(pre, pnode, leaf as int, b);
                lemma_weights_push(pre.push(pnode), rnode, leaf as int, b);
                assert(arena@[root as int] == rnode && arena@[placeholder as int] == pnode);
                assert(sym_freq(arena@, placeholder as int, b) == 0);
                assert(sym_freq(arena@, root as int, b) == sym_freq(pre, leaf as int, b));
                if b == s0 {
                    assert(sym_freq(pre, leaf as int, b) == f as int);
                    assert(count_byte(data@, b as int) == f as int);
                } else {
                    assert(sym_freq(pre, leaf as int, b) == 0);
                    if count_byte(data@, b as int) > 0 {
                        assert(freq@[b as int] > 0);
                        let j0 = choose|j: int| 0 <= j < pre_active.len()
                            && has_sym(pre, pre_active[j] as int, b);
                        assert(has_sym(pre, leaf as int, b));
                        assert(false);
                    }
                    lemma_count_nonneg(data@, b as int);
                }
            }
            assert forall|b: u8| #[trigger] sym_leaves(arena@, root as int, b)
                == (if count_byte(data@, b as int) > 0 { 1int } else { 0int }) by {
                lemma_weights_push(pre, pnode, leaf as int, b);
                lemma_weights_push(pre.push(pnode), rnode, leaf as int, b);
                assert(arena@[root as int] == rnode && arena@[placeholder as int] == pnode);
                assert(sym_leaves(arena@, placeholder as int, b) == 0);
                assert(sym_leaves(arena@, root as int, b) == sym_leaves(pre, leaf as int, b));
                if b == s0 {
                    assert(sym_leaves(pre, leaf as int, b) == 1);
                    assert(count_byte(data@, b as int) == f as int);
                } else {
                    assert(sym_leaves(pre, leaf as int, b) == 0);
                    if count_byte(data@, b as int) > 0 {
                        assert(freq@[b as int] > 0);
                        let j0 = choose|j: int| 0 <= j < pre_active.len()
                            && has_sym(pre, pre_active[j] as int, b);
                        assert(has_sym(pre, leaf as int, b));
                        assert(false);
                    }
                    lemma_count_nonneg(data@, b as int);
                }
            }
            // Shape clause: the unique occurring byte labels the left leaf.
            if data@.len() > 0 {
                assert(count_byte(data@, data@[0] as int) > 0) by {
                    lemma_count_occurs(data@, 0);
                }
                if s0 != data@[0] {
                    assert(sym_freq(arena@, root as int, data@[0])
                        == count_byte(data@, data@[0] as int));
                    let j0 = choose|j: int| 0 <= j < pre_active.len()
                        && has_sym(pre, pre_active[j] as int, data@[0]);
                    assert(has_sym(pre, leaf as int, data@[0]));
                    assert(false);
                }
                assert(single_symbol_shape(arena@, root as int, data@[0], data@.len() as int));
            }
        }
        return Some((arena, root));
    }

    proof {
        // With at least two leaves the input holds two distinct byte
        // values, so it is not uniform.
        let s0 = arena@[active@[0] as int].symbol->0;
        let s1 = arena@[active@[1] as int].symbol->0;
        assert((s0 as int) < (s1 as int));
        assert(count_byte(data@, s0 as int) >= 1 && count_byte(data@, s1 as int) >= 1);
        lemma_count_witness(data@, s0 as int);
        lemma_count_witness(data@, s1 as int);
        let w0 = choose|i: int| 0 <= i < data@.len() && #[trigger] data@[i] as int == s0 as int;
        let w1 = choose|i: int| 0 <= i < data@.len() && #[trigger] data@[i] as int == s1 as int;
        if forall|i: int| 0 <= i < data@.len() ==> #[trigger] data@[i] == data@[0] {
            assert(data@[w0] == data@[0]);
            assert(data@[w1] == data@[0]);
            assert(false);
        }
        // Entry facts for the merge rounds: the leaves carry the exact
        // histogram, pairwise disjointly, summing to the input length.
        lemma_sum_counts_total(data@);
        assert forall|j: int| 0 <= j < active@.len() implies
            (#[trigger] arena@[active@[j] as int].freq as int)
                == tree_weight(arena@, active@[j] as int) by {
        }
        assert forall|j: int, b: u8| 0 <= j < active@.len() implies
            #[trigger] sym_freq(arena@, active@[j] as int, b)
                == (if has_sym(arena@, active@[j] as int, b) {
                    count_byte(data@, b as int)
                } else {
                    0int
                }) by {
            let nd = arena@[active@[j] as int];
            if nd.symbol == Some(b) {
            } else {
                lemma_count_nonneg(data@, b as int);
            }
        }
        assert forall|j: int, b: u8| 0 <= j < active@.len() implies
            #[trigger] sym_leaves(arena@, active@[j] as int, b)
                == (if has_sym(arena@, active@[j] as int, b) {
                    1int
                } else {
                    0int
                }) by {
        }
        assert forall|j1: int, j2: int, b: u8|
            #![trigger has_sym(arena@, active@[j1] as int, b), has_sym(arena@, active@[j2] as int, b)]
            0 <= j1 < j2 < active@.len() implies
            !(has_sym(arena@, active@[j1] as int, b)
                && has_sym(arena@, active@[j2] as int, b)) by {
            if has_sym(arena@, active@[j1] as int, b)
                && has_sym(arena@, active@[j2] as int, b) {
                assert(arena@[active@[j1] as int].symbol == Some(b));
                assert(arena@[active@[j2] as int].symbol == Some(b));
                assert(false);
            }
        }
    }

    // Repeatedly merge the two lowest-frequency roots. Each round removes
    // one root, so a tree's height never exceeds the number of rounds.
    while active.len() > 1
        invariant
            n == data@.len(),
            freq@.len() == 256,
            forall|j: int| 0 <= j < 256 ==> #[trigger] freq@[j] == count_byte(data@, j),
            2 <= init_active <= 256,
            1 <= active@.len() <= init_active,
            wf_arena(arena@),
            forall|j: int| 0 <= j < active@.len()
                ==> (#[trigger] active@[j] as int) < arena@.len()
                    && tree_depth(arena@, active@[j] as int) <= init_active - active@.len(),
            forall|b: int| 0 <= b < 256 && #[trigger] freq@[b] > 0
                ==> exists|j: int| 0 <= j < active@.len()
                    && #[trigger] has_sym(arena@, active@[j] as int, b as u8),
            forall|j: int, b: u8| 0 <= j < active@.len()
                && #[trigger] has_sym(arena@, active@[j] as int, b)
                ==> freq@[b as int] > 0,
            active_weight(arena@, active@) == data@.len(),
            forall|j: int| 0 <= j < active@.len()
                ==> (#[trigger] arena@[active@[j] as int].freq as int)
                    == tree_weight(arena@, active@[j] as int),
            forall|j: int, b: u8| 0 <= j < active@.len()
                ==> #[trigger] sym_freq(arena@, active@[j] as int, b)
                    == (if has_sym(arena@, active@[j] as int, b) {
                        count_byte(data@, b as int)
                    } else {
                        0int
                    }),
            forall|j: int, b: u8| 0 <= j < active@.len()
                ==> #[trigger] sym_leaves(arena@, active@[j] as int, b)
                    == (if has_sym(arena@, active@[j] as int, b) {
                        1int
                    } else {
                        0int
                    }),
            forall|j1: int, j2: int, b: u8|
                #![trigger has_sym(arena@, active@[j1] as int, b), has_sym(arena@, active@[j2] as int, b)]
                0 <= j1 < j2 < active@.len()
                ==> !(has_sym(arena@, active@[j1] as int, b)
                    && has_sym(arena@, active@[j2] as int, b)),
        decreases active@.len(),
    {
        // Position of the smallest frequency, then of the second smallest.
        let mut m1: usize = 0;
        let mut p: usize = 1;
        while p < active.len()
            invariant
                active@.len() >= 2,
                m1 < active@.len(),
                p <= active@.len(),
                forall|j: int| 0 <= j < active@.len()
                    ==> (#[trigger] active@[j] as int) < arena@.len(),
            decreases active@.len() - p,
        {
            if arena[active[p]].freq < arena[active[m1]].freq {
                m1 = p;
            }
            p = p + 1;
        }
        let mut m2: usize = if m1 == 0 { 1 } else { 0 };
        let mut q: usize = 0;
        while q < active.len()
            invariant
                active@.len() >= 2,
                m1 < active@.len(),
                m2 < active@.len(),
                m2 != m1,
                q <= active@.len(),
                forall|j: int| 0 <= j < active@.len()
                    ==> (#[trigger] active@[j] as int) < arena@.len(),
            decreases active@.len() - q,
        {
            if q != m1 && arena[active[q]].freq < arena[active[m2]].freq {
                m2 = q;
            }
            q = q + 1;
        }
        let ghost rounds_before = init_active - active@.len();
        let ghost old_active = active@;
        let li = active[m1];
        let ri = active[m2];
        // Remove the higher position first so the lower stays valid.
        let (hi, lo) = if m1 > m2 { (m1, m2) } else { (m2, m1) };
        active.remove(hi);
        active.remove(lo);
        proof {
            assert forall|j: int| 0 <= j < active@.len() implies
                active@[j] == old_active[hole_source(j, lo as int, hi as int)]
                    && 0 <= hole_source(j, lo as int, hi as int) < old_active.len() by {
                assert(active@ =~= old_active.remove(hi as int).remove(lo as int));
            }
        }
        let fl = arena[li].freq;
        let fr = arena[ri].freq;
        proof {
            // Both weights are part of the total input length, so their sum
            // fits and the saturating guard below never fires.
            lemma_active_weight_remove(arena@, old_active, hi as int);
            lemma_active_weight_remove(arena@, old_active.remove(hi as int), lo as int);
            assert(old_active.remove(hi as int)[lo as int] == old_active[lo as int]);
            lemma_active_weight_nonneg(arena@, old_active.remove(hi as int).remove(lo as int));
            assert(old_active[m1 as int] == li && old_active[m2 as int] == ri);
            assert(tree_weight(arena@, li as int) + tree_weight(arena@, ri as int)
                <= data@.len());
            assert(fl as int + fr as int <= data@.len());
        }
        // Saturate rather than overflow: frequencies only order the merges.
        let fsum = if fl <= u64::MAX - fr { fl + fr } else { u64::MAX };
        let merged = arena.len();
        let node = HuffNode { freq: fsum, symbol: None, left: Some(li), right: Some(ri) };
        let ghost pre = arena@;
        arena.push(node);
        active.push(merged);
        proof {
            assert forall|j: int| 0 <= j < active@.len() implies
                (#[trigger] active@[j] as int) < arena@.len()
                    && tree_depth(arena@, active@[j] as int) <= init_active - active@.len() by {
                if j < active@.len() - 1 {
                    lemma_tree_depth_push(pre, node, active@[j] as int);
                } else {
                    lemma_tree_depth_push(pre, node, li as int);
                    lemma_tree_depth_push(pre, node, ri as int);
                    assert(arena@[merged as int].left == Some(li));
                    assert(arena@[merged as int].right == Some(ri));
                    assert(tree_depth(arena@, merged as int) <= 1 + rounds_before);
                }
            }
            assert(wf_arena(arena@)) by {
                assert(forall|i2: int| 0 <= i2 < pre.len() ==> arena@[i2] == pre[i2]);
            }
            assert forall|b: int| 0 <= b < 256 && #[trigger] freq@[b] > 0 implies
                exists|j: int| 0 <= j < active@.len()
                    && #[trigger] has_sym(arena@, active@[j] as int, b as u8) by {
                let j0 = choose|j: int| 0 <= j < old_active.len()
                    && has_sym(pre, old_active[j] as int, b as u8);
                lemma_has_sym_push(pre, node, old_active[j0] as int, b as u8);
                if j0 == lo as int || j0 == hi as int {
                    assert(old_active[j0] == li || old_active[j0] == ri);
                    assert(arena@[merged as int] == node);
                    assert(has_sym(arena@, merged as int, b as u8));
                    assert(active@[active@.len() - 1] == merged);
                } else {
                    let jj = if j0 > hi as int {
                        j0 - 2
                    } else if j0 > lo as int {
                        j0 - 1
                    } else {
                        j0
                    };
                    assert(active@.drop_last() =~= old_active.remove(hi as int).remove(lo as int));
                    assert(hole_source(jj, lo as int, hi as int) == j0);
                    assert(active@[jj] == old_active[j0]);
                    assert(has_sym(arena@, active@[jj] as int, b as u8));
                }
            }
            assert forall|j: int, b: u8| 0 <= j < active@.len()
                && #[trigger] has_sym(arena@, active@[j] as int, b) implies
                freq@[b as int] > 0 by {
                if j == active@.len() - 1 {
                    assert(arena@[merged as int] == node);
                    lemma_has_sym_push(pre, node, li as int, b);
                    lemma_has_sym_push(pre, node, ri as int, b);
                    assert(has_sym(pre, li as int, b) || has_sym(pre, ri as int, b));
                    assert(old_active[m1 as int] == li && old_active[m2 as int] == ri);
                    assert(has_sym(pre, old_active[m1 as int] as int, b)
                        || has_sym(pre, old_active[m2 as int] as int, b));
                } else {
                    assert(active@.drop_last() =~= old_active.remove(hi as int).remove(lo as int));
                    let j0 = hole_source(j, lo as int, hi as int);
                    assert(active@[j] == old_active[j0] && 0 <= j0 < old_active.len());
                    lemma_has_sym_push(pre, node, old_active[j0] as int, b);
                    assert(has_sym(pre, old_active[j0] as int, b));
                }
            }
            // Weights: the merged node carries both removed weights, the
            // rest is untouched, so the total stays the input length.
            let ghost v2 = old_active.remove(hi as int).remove(lo as int);
            assert(active@.drop_last() =~= v2);
            assert forall|j: int| 0 <= j < v2.len() implies
                (#[trigger] v2[j] as int) < pre.len() by {
                let j0 = hole_source(j, lo as int, hi as int);
                assert(v2[j] == old_active[j0] && 0 <= j0 < old_active.len());
            }
            lemma_active_weight_push(pre, node, v2);
            lemma_weights_push(pre, node, li as int, 0);
            lemma_weights_push(pre, node, ri as int, 0);
            assert(arena@[merged as int] == node);
            assert(tree_weight(arena@, merged as int)
                == tree_weight(pre, li as int) + tree_weight(pre, ri as int));
            assert(active_weight(arena@, active@)
                == active_weight(pre, v2) + tree_weight(arena@, merged as int));
            assert(active_weight(arena@, active@) == data@.len());
            assert forall|j: int| 0 <= j < active@.len() implies
                (#[trigger] arena@[active@[j] as int].freq as int)
                    == tree_weight(arena@, active@[j] as int) by {
                if j < active@.len() - 1 {
                    let j0 = hole_source(j, lo as int, hi as int);
                    assert(active@[j] == old_active[j0] && 0 <= j0 < old_active.len());
                    lemma_weights_push(pre, node, old_active[j0] as int, 0);
                    assert(arena@[active@[j] as int] == pre[active@[j] as int]);
                } else {
                    assert(node.freq as int
                        == tree_weight(pre, li as int) + tree_weight(pre, ri as int));
                }
            }
            // Per-symbol frequencies and leaf counts carry over; the two
            // merged subtrees were symbol-disjoint.
            assert forall|j: int, b: u8| 0 <= j < active@.len() implies
                #[trigger] sym_freq(arena@, active@[j] as int, b)
                    == (if has_sym(arena@, active@[j] as int, b) {
                        count_byte(data@, b as int)
                    } else {
                        0int
                    }) by {
                if j < active@.len() - 1 {
                    let j0 = hole_source(j, lo as int, hi as int);
                    assert(active@[j] == old_active[j0] && 0 <= j0 < old_active.len());
                    lemma_weights_push(pre, node, old_active[j0] as int, b);
                    lemma_has_sym_push(pre, node, old_active[j0] as int, b);
                } else {
                    lemma_weights_push(pre, node, li as int, b);
                    lemma_weights_push(pre, node, ri as int, b);
                    lemma_has_sym_push(pre, node, li as int, b);
                    lemma_has_sym_push(pre, node, ri as int, b);
                    assert(sym_freq(arena@, merged as int, b)
                        == sym_freq(pre, li as int, b) + sym_freq(pre, ri as int, b));
                    if has_sym(pre, li as int, b) && has_sym(pre, ri as int, b) {
                        let p1 = if m1 < m2 { m1 as int } else { m2 as int };
                        let p2 = if m1 < m2 { m2 as int } else { m1 as int };
                        assert(has_sym(pre, old_active[p1] as int, b)
                            && has_sym(pre, old_active[p2] as int, b));
                        assert(false);
                    }
                }
            }
            assert forall|j: int, b: u8| 0 <= j < active@.len() implies
                #[trigger] sym_leaves(arena@, active@[j] as int, b)
                    == (if has_sym(arena@, active@[j] as int, b) {
                        1int
                    } else {
                        0int
                    }) by {
                if j < active@.len() - 1 {
                    let j0 = hole_source(j, lo as int, hi as int);
                    assert(active@[j] == old_active[j0] && 0 <= j0 < old_active.len());
                    lemma_weights_push(pre, node, old_active[j0] as int, b);
                    lemma_has_sym_push(pre, node, old_active[j0] as int, b);
                } else {
                    lemma_weights_push(pre, node, li as int, b);
                    lemma_weights_push(pre, node, ri as int, b);
                    lemma_has_sym_push(pre, node, li as int, b);
                    lemma_has_sym_push(pre, node, ri as int, b);
                    assert(sym_leaves(arena@, merged as int, b)
                        == sym_leaves(pre, li as int, b) + sym_leaves(pre, ri as int, b));
                    if has_sym(pre, li as int, b) && has_sym(pre, ri as int, b) {
                        let p1 = if m1 < m2 { m1 as int } else { m2 as int };
                        let p2 = if m1 < m2 { m2 as int } else { m1 as int };
                        assert(has_sym(pre, old_active[p1] as int, b)
                            && has_sym(pre, old_active[p2] as int, b));
                        assert(false);
                    }
                }
            }
            assert forall|j1: int, j2: int, b: u8|
                #![trigger has_sym(arena@, active@[j1] as int, b), has_sym(arena@, active@[j2] as int, b)]
                0 <= j1 < j2 < active@.len() implies
                !(has_sym(arena@, active@[j1] as int, b)
                    && has_sym(arena@, active@[j2] as int, b)) by {
                if has_sym(arena@, active@[j1] as int, b)
                    && has_sym(arena@, active@[j2] as int, b) {
                    let j01 = hole_source(j1, lo as int, hi as int);
                    assert(active@[j1] == old_active[j01] && 0 <= j01 < old_active.len());
                    lemma_has_sym_push(pre, node, old_active[j01] as int, b);
                    assert(j01 != m1 as int && j01 != m2 as int);
                    if j2 < active@.len() - 1 {
                        let j02 = hole_source(j2, lo as int, hi as int);
                        assert(active@[j2] == old_active[j02] && 0 <= j02 < old_active.len());
                        lemma_has_sym_push(pre, node, old_active[j02] as int, b);
                        assert(j01 < j02);
                        assert(false);
                    } else {
                        lemma_has_sym_push(pre, node, li as int, b);
                        lemma_has_sym_push(pre, node, ri as int, b);
                        assert(has_sym(pre, li as int, b) || has_sym(pre, ri as int, b));
                        assert(has_sym(pre, old_active[j01] as int, b));
                        assert(false);
                    }
                }
            }
        }
    }
    let root = active[0];
    proof {
        assert(tree_depth(arena@, root as int) <= init_active - 1);
        assert forall|i2: int| 0 <= i2 < data@.len() implies
            has_sym(arena@, root as int, #[trigger] data@[i2]) by {
            lemma_count_occurs(data@, i2);
            let b = data@[i2] as int;
            assert(freq@[b] > 0);
            let j0 = choose|j: int| 0 <= j < active@.len()
                && has_sym(arena@, active@[j] as int, b as u8);
            assert(j0 == 0);
            assert(data@[i2] == b as u8);
        }
        assert forall|b: u8| #[trigger] has_sym(arena@, root as int, b) implies
            count_byte(data@, b as int) > 0 by {
            assert(active@[0] == root);
            assert(freq@[b as int] > 0);
        }
        // The lone remaining root carries the whole input weight and the
        // exact per-symbol frequencies and leaf counts.
        assert(active@.drop_last() =~= Seq::<usize>::empty());
        assert(active_weight(arena@, Seq::<usize>::empty()) == 0);
        assert(active@.last() == root);
        assert(active_weight(arena@, active@)
            == active_weight(arena@, active@.drop_last())
                + tree_weight(arena@, active@.last() as int));
        assert(active_weight(arena@, active@) == tree_weight(arena@, root as int));
        assert(arena@[root as int].freq as int == data@.len());
        assert forall|b: u8| #[trigger] sym_freq(arena@, root as int, b)
            == count_byte(data@, b as int) by {
            assert(active@[0] == root);
            if has_sym(arena@, root as int, b) {
            } else {
                if count_byte(data@, b as int) > 0 {
                    assert(freq@[b as int] > 0);
                    let j0 = choose|j: int| 0 <= j < active@.len()
                        && has_sym(arena@, active@[j] as int, b);
                    assert(j0 == 0);
                    assert(false);
                }
                lemma_count_nonneg(data@, b as int);
            }
        }
        assert forall|b: u8| #[trigger] sym_leaves(arena@, root as int, b)
            == (if count_byte(data@, b as int) > 0 { 1int } else { 0int }) by {
            assert(active@[0] == root);
            if has_sym(arena@, root as int, b) {
                assert(count_byte(data@, b as int) > 0);
            } else {
                if count_byte(data@, b as int) > 0 {
                    assert(freq@[b as int] > 0);
                    let j0 = choose|j: int| 0 <= j < active@.len()
                        && has_sym(arena@, active@[j] as int, b);
                    assert(j0 == 0);
                    assert(false);
                }
                lemma_count_nonneg(data@, b as int);
            }
        }
    }
    Some((arena, root))
}

/// Where element `j` of a sequence with positions `lo < hi` removed came
/// from in the original.
pub open spec fn hole_source(j: int, lo: int, hi: int) -> int {
    if j >= hi - 1 {
        j + 2
    } else if j >= lo {
        j + 1
    } else {
        j
    }
}

/// The `len` code bits packed LSB-first starting at byte `pos`.
pub open spec fn code_bits(s: Seq<u8>, pos: int, len: int) -> Seq<bool> {
    Seq::new(len as nat, |i: int| (s[pos + i / 8] >> ((i % 8) as u8)) & 1 == 1)
}

/// Parse `n` code-table entries starting at `pos`: byte value, code
/// length, then the packed code bits. Yields the entries as
/// (code, symbol) pairs and the position just past them.
pub open spec fn parse_code_table(s: Seq<u8>, pos: int, n: int) -> Option<
    (Seq<(Seq<bool>, u8)>, int),
>
    decreases n,
{
    if n <= 0 {
        Some((Seq::empty(), pos))
    } else if 0 <= pos && pos + 2 <= s.len() && pos + 2 + (s[pos + 1] + 7) / 8 <= s.len() {
        let clen = s[pos + 1] as int;
        let nbytes = (clen + 7) / 8;
        match parse_code_table(s, pos + 2 + nbytes, n - 1) {
            Some(r) => Some((seq![(code_bits(s, pos + 2, clen), s[pos])] + r.0, r.1)),
            None => None,
        }
    } else {
        None
    }
}

/// Parsing `k + m` table entries first parses `k`, then continues from
/// where those ended.
proof fn lemma_parse_code_table_split(s: Seq<u8>, pos: int, k: int, m: int)
    requires
        0 <= k,
        0 <= m,
        parse_code_table(s, pos, k) is Some,
    ensures
        parse_code_table(s, pos, k + m) == match parse_code_table(
            s,
            parse_code_table(s, pos, k)->Some_0.1,
            m,
        ) {
            Some(r) => Some::<(Seq<(Seq<bool>, u8)>, int)>(
                (parse_code_table(s, pos, k)->Some_0.0 + r.0, r.1),
            ),
            None => None::<(Seq<(Seq<bool>, u8)>, int)>,
        },
    decreases k,
{
    let (es, p) = parse_code_table(s, pos, k)->Some_0;
    if k == 0 {
        assert(es == Seq::<(Seq<bool>, u8)>::empty() && p == pos);
        match parse_code_table(s, pos, m) {
            Some(r) => {
                assert(es + r.0 =~= r.0);
            },
            None => {},
        }
    } else {
        let clen = s[pos + 1] as int;
        let nbytes = (clen + 7) / 8;
        let first = (code_bits(s, pos + 2, clen), s[pos]);
        let rest = parse_code_table(s, pos + 2 + nbytes, k - 1);
        assert(rest is Some);
        lemma_parse_code_table_split(s, pos + 2 + nbytes, k - 1, m);
        assert(rest->Some_0.1 == p);
        match parse_code_table(s, p, m) {
            Some(r) => {
                assert(parse_code_table(s, pos + 2 + nbytes, k - 1 + m)
                    == Some::<(Seq<(Seq<bool>, u8)>, int)>((rest->Some_0.0 + r.0, r.1)));
                assert(k + m - 1 == k - 1 + m);
                assert(parse_code_table(s, pos, k + m)
                    == Some::<(Seq<(Seq<bool>, u8)>, int)>(
                        (seq![first] + (rest->Some_0.0 + r.0), r.1),
                    ));
                assert(seq![first] + (rest->Some_0.0 + r.0)
                    =~= (seq![first] + rest->Some_0.0) + r.0);
                assert(es == seq![first] + rest->Some_0.0);
            },
            None => {
                assert(parse_code_table(s, pos + 2 + nbytes, k - 1 + m) is None);
                assert(parse_code_table(s, pos, k + m) is None);
            },
        }
    }
}

/// The first table entry whose code equals `code`, in table order.
pub open spec fn first_code_match(table: Seq<(Seq<bool>, u8)>, code: Seq<bool>) -> Option<u8>
    decreases table.len(),
{
    if table.len() == 0 {
        None
    } else if table[0].0 == code {
        Some(table[0].1)
    } else {
        first_code_match(table.skip(1), code)
    }
}

/// Greedy streaming decode: feed payload bits into an accumulator and, on
/// each exact table match, emit the byte and reset; stop strictly once
/// `target` bytes have been emitted, so pad bits are never interpreted.
pub open spec fn greedy_decode(
    bits: Seq<bool>,
    table: Seq<(Seq<bool>, u8)>,
    acc: Seq<bool>,
    out: Seq<u8>,
    target: int,
) -> Seq<u8>
    decreases bits.len(),
{
    if out.len() >= target || bits.len() == 0 {
        out
    } else {
        let acc2 = acc.push(bits[0]);
        match first_code_match(table, acc2) {
            Some(sym) => greedy_decode(bits.skip(1), table, Seq::empty(), out.push(sym), target),
            None => greedy_decode(bits.skip(1), table, acc2, out, target),
        }
    }
}

/// All payload bits from byte `pos` on, LSB-first within each byte.
pub open spec fn payload_bits(s: Seq<u8>, pos: int) -> Seq<bool> {
    Seq::new(((s.len() - pos) * 8) as nat, |i: int| (s[pos + i / 8] >> ((i % 8) as u8)) & 1 == 1)
}

/// What a Huffman payload decodes to against a caller-supplied target
/// length: parse the table, skip the stored length field, then decode the
/// payload bits greedily. `None` when the header or table is truncated.
pub open spec fn huffman_decoding(s: Seq<u8>, target: int) -> Option<Seq<u8>> {
    if s.len() < 2 {
        None
    } else {
        match parse_code_table(s, 2, s[0] + 0x100 * s[1]) {
            None => None,
            Some((table, p)) => if p + 4 <= s.len() {
                Some(
                    greedy_decode(
                        payload_bits(s, p + 4),
                        table,
                        Seq::empty(),
                        Seq::empty(),
                        target,
                    ),
                )
            } else {
                None
            },
        }
    }
}

/// Splitting an index into its byte and bit parts.
proof fn lemma_bit_index(q: int, r: int)
    requires
        q >= 0,
        0 <= r < 8,
    ensures
        (8 * q + r) / 8 == q,
        (8 * q + r) % 8 == r,
{
    assert((8 * q + r) / 8 == q && (8 * q + r) % 8 == r) by (nonlinear_arith)
        requires
            q >= 0,
            0 <= r < 8,
    ;
}


/// Symbol `s` is decoded somewhere in the subtree at `i`: either the node
/// itself carries `s`, or (for an internal node) a child subtree does.
/// A node with a symbol is a leaf to the code walk: children are ignored.
pub open spec fn has_sym(a: Seq<HuffNode>, i: int, s: u8) -> bool
    decreases i,
{
    if i < 0 || i >= a.len() {
        false
    } else {
        match a[i].symbol {
            Some(s2) => s2 == s,
            None => {
                let inl = match a[i].left {
                    Some(l) => (l as int) < i && has_sym(a, l as int, s),
                    None => false,
                };
                let inr = match a[i].right {
                    Some(r) => (r as int) < i && has_sym(a, r as int, s),
                    None => false,
                };
                inl || inr
            },
        }
    }
}

/// `a` is an initial segment of `b`.
pub open spec fn is_prefix(a: Seq<bool>, b: Seq<bool>) -> bool {
    a.len() <= b.len() && a == b.take(a.len() as int)
}

/// Neither code is an initial segment of the other (so in particular the
/// codes differ): the defining property of a prefix code.
pub open spec fn non_prefix(a: Seq<bool>, b: Seq<bool>) -> bool {
    !is_prefix(a, b) && !is_prefix(b, a)
}

/// Two codes that agree on neither side's initial segment cannot both
/// extend the same stem with different bits.
proof fn lemma_non_prefix_branch(a: Seq<bool>, b: Seq<bool>, p: int)
    requires
        0 <= p < a.len(),
        p < b.len(),
        a[p] != b[p],
    ensures
        non_prefix(a, b),
{
    if is_prefix(a, b) {
        assert(a[p] == b.take(a.len() as int)[p]);
    }
    if is_prefix(b, a) {
        assert(b[p] == a.take(b.len() as int)[p]);
    }
}

/// Walk the tree and record each symbol's code: left edge 0, right edge 1;
/// a leaf at the root gets the one-bit code 0. `codes` is a 256-slot table
/// indexed by byte value. Exactly the slots of symbols in the subtree are
/// filled; each filled slot extends `prefix`, is 1 to 255 bits long, and
/// slots filled by one call are pairwise prefix-free.
pub fn build_codes(arena: &Vec<HuffNode>, idx: usize, prefix: Vec<bool>, codes: &mut Vec<Option<Vec<bool>>>)
    requires
        wf_arena(arena@),
        (idx as int) < arena@.len(),
        old(codes)@.len() == 256,
        prefix@.len() + tree_depth(arena@, idx as int) <= 255,
        forall|j: int| 0 <= j < 256
            ==> (#[trigger] old(codes)@[j] matches Some(c) ==> 1 <= c@.len() <= 255),
    ensures
        final(codes)@.len() == 256,
        forall|j: int| 0 <= j < 256
            ==> (#[trigger] final(codes)@[j] matches Some(c) ==> 1 <= c@.len() <= 255),
        forall|j: int| 0 <= j < 256 && !has_sym(arena@, idx as int, j as u8)
            ==> #[trigger] final(codes)@[j] == old(codes)@[j],
        forall|j: int| 0 <= j < 256 && has_sym(arena@, idx as int, j as u8)
            ==> #[trigger] final(codes)@[j] is Some,
        forall|j: int| 0 <= j < 256 && final(codes)@[j] != old(codes)@[j]
            ==> (#[trigger] final(codes)@[j] matches Some(c)
                && c@.len() >= prefix@.len()
                && c@.len() >= 1
                && c@.take(prefix@.len() as int) == prefix@),
        forall|j1: int, j2: int| #![trigger final(codes)@[j1], final(codes)@[j2]]
            0 <= j1 < 256 && 0 <= j2 < 256 && j1 != j2
            && final(codes)@[j1] != old(codes)@[j1] && final(codes)@[j2] != old(codes)@[j2]
            ==> non_prefix(final(codes)@[j1]->Some_0@, final(codes)@[j2]->Some_0@),
    decreases idx,
{
    proof {
        lemma_tree_depth_nonneg(arena@, idx as int);
    }
    let node_symbol = arena[idx].symbol;
    let node_left = arena[idx].left;
    let node_right = arena[idx].right;
    match node_symbol {
        Some(sym) => {
            let code: Vec<bool> = if prefix.len() == 0 {
                let mut c: Vec<bool> = Vec::new();
                c.push(false);
                c
            } else {
                prefix
            };
            let ghost cv = code@;
            codes.set(sym as usize, Some(code));
            proof {
                assert(cv.take(0) =~= Seq::<bool>::empty());
                assert(cv.take(cv.len() as int) =~= cv);
                assert(forall|j: int| 0 <= j < 256 && j != sym as int
                    ==> #[trigger] codes@[j] == old(codes)@[j]);
                assert(forall|s: u8| has_sym(arena@, idx as int, s) <==> s == sym);
            }
            return ;
        },
        None => {},
    }
    let ghost orig = codes@;
    let ghost plen = prefix@.len() as int;
    match node_left {
        Some(l) => {
            proof {
                assert(1 + tree_depth(arena@, l as int) <= tree_depth(arena@, idx as int));
            }
            let mut p = clone_bits(&prefix);
            p.push(false);
            build_codes(arena, l, p, codes);
        },
        None => {},
    }
    let ghost mid = codes@;
    proof {
        // Slots changed so far extend prefix + [false].
        assert forall|j: int| 0 <= j < 256 && mid[j] != orig[j] implies
            (#[trigger] mid[j] matches Some(c) && c@.len() > plen
                && c@.take(plen) == prefix@ && c@[plen] == false) by {
            match node_left {
                Some(_) => {
                    let c = mid[j]->Some_0;
                    let p1 = prefix@.push(false);
                    assert(c@.take(p1.len() as int) == p1);
                    assert(c@.take(plen) =~= c@.take(p1.len() as int).take(plen));
                    assert(p1.take(plen) =~= prefix@);
                    assert(c@[plen] == p1[plen]);
                },
                None => {},
            }
        }
    }
    match node_right {
        Some(r) => {
            proof {
                assert(1 + tree_depth(arena@, r as int) <= tree_depth(arena@, idx as int));
            }
            let mut p = clone_bits(&prefix);
            p.push(true);
            build_codes(arena, r, p, codes);
        },
        None => {},
    }
    proof {
        let fin = codes@;
        // Slots changed by the right walk extend prefix + [true].
        assert forall|j: int| 0 <= j < 256 && fin[j] != mid[j] implies
            (#[trigger] fin[j] matches Some(c) && c@.len() > plen
                && c@.take(plen) == prefix@ && c@[plen] == true) by {
            match node_right {
                Some(_) => {
                    let c = fin[j]->Some_0;
                    let p2 = prefix@.push(true);
                    assert(c@.take(p2.len() as int) == p2);
                    assert(c@.take(plen) =~= c@.take(p2.len() as int).take(plen));
                    assert(p2.take(plen) =~= prefix@);
                    assert(c@[plen] == p2[plen]);
                },
                None => {},
            }
        }
        // Membership: a symbol of this subtree sits in one child's subtree.
        assert forall|j: int| 0 <= j < 256 && has_sym(arena@, idx as int, j as u8) implies
            #[trigger] fin[j] is Some by {
            let inl = match arena@[idx as int].left {
                Some(l) => (l as int) < idx && has_sym(arena@, l as int, j as u8),
                None => false,
            };
            if inl {
                assert(mid[j] is Some);
                match node_right {
                    Some(r) => {
                        if !has_sym(arena@, r as int, j as u8) {
                            assert(fin[j] == mid[j]);
                        }
                    },
                    None => {},
                }
            }
        }
        // Changed slots extend `prefix`.
        assert forall|j: int| 0 <= j < 256 && fin[j] != orig[j] implies
            (#[trigger] fin[j] matches Some(c) && c@.len() >= plen && c@.len() >= 1
                && c@.take(plen) == prefix@) by {
            if fin[j] != mid[j] {
            } else {
                assert(mid[j] != orig[j]);
            }
        }
        // Pairwise prefix-freedom among the changed slots.
        assert forall|j1: int, j2: int| #![trigger fin[j1], fin[j2]]
            0 <= j1 < 256 && 0 <= j2 < 256 && j1 != j2
            && fin[j1] != orig[j1] && fin[j2] != orig[j2] implies
            non_prefix(fin[j1]->Some_0@, fin[j2]->Some_0@) by {
            let c1 = fin[j1]->Some_0@;
            let c2 = fin[j2]->Some_0@;
            if fin[j1] != mid[j1] && fin[j2] != mid[j2] {
                // both from the right walk
            } else if fin[j1] == mid[j1] && fin[j2] == mid[j2] {
                // both from the left walk
                assert(mid[j1] != orig[j1] && mid[j2] != orig[j2]);
            } else if fin[j1] == mid[j1] {
                assert(mid[j1] != orig[j1]);
                assert(c1[plen] == false && c2[plen] == true);
                lemma_non_prefix_branch(c1, c2, plen);
            } else {
                assert(mid[j2] != orig[j2]);
                assert(c1[plen] == true && c2[plen] == false);
                lemma_non_prefix_branch(c1, c2, plen);
            }
        }
    }
}

/// Copy a bit buffer.
fn clone_bits(v: &Vec<bool>) -> (r: Vec<bool>)
    ensures
        r@ == v@,
{
    let mut out: Vec<bool> = Vec::new();
    let mut j: usize = 0;
    while j < v.len()
        invariant
            j <= v@.len(),
            out@ == v@.take(j as int),
        decreases v@.len() - j,
    {
        out.push(v[j]);
        proof {
            assert(v@.take(j as int + 1) =~= v@.take(j as int).push(v@[j as int]));
        }
        j = j + 1;
    }
    proof {
        assert(v@.take(v@.len() as int) =~= v@);
    }
    out
}

/// Bit-wise equality of two codes.
fn bits_eq(a: &Vec<bool>, b: &Vec<bool>) -> (r: bool)
    ensures
        r == (a@ == b@),
{
    if a.len() != b.len() {
        proof {
            assert(a@ != b@);
        }
        return false;
    }
    let mut j: usize = 0;
    while j < a.len()
        invariant
            a@.len() == b@.len(),
            j <= a@.len(),
            forall|t: int| 0 <= t < j ==> a@[t] == b@[t],
        decreases a@.len() - j,
    {
        if a[j] != b[j] {
            proof {
                assert(a@ != b@);
            }
            return false;
        }
        j = j + 1;
    }
    proof {
        assert(a@ =~= b@);
    }
    true
}

/// Bit `j` of a byte buffer, LSB-first within each byte.
pub open spec fn bit_at(s: Seq<u8>, j: int) -> bool {
    (s[j / 8] >> ((j % 8) as u8)) & 1 == 1
}

/// A bit index splits into its byte and bit offsets.
proof fn lemma_split8(pos: int, i: int)
    requires
        pos >= 0,
        i >= 0,
    ensures
        (8 * pos + i) / 8 == pos + i / 8,
        (8 * pos + i) % 8 == i % 8,
{
    lemma_bit_index(pos + i / 8, i % 8);
}

proof fn lemma_or_shift(x: u8, p: u8, t: u8)
    requires
        p < 8,
        t < 8,
    ensures
        ((x | (1u8 << p)) >> t) & 1 == (if t == p {
            1u8
        } else {
            (x >> t) & 1
        }),
{
    assert(((x | (1u8 << p)) >> t) & 1 == (if t == p {
        1u8
    } else {
        (x >> t) & 1
    })) by (bit_vector)
        requires
            p < 8,
            t < 8,
    ;
}

proof fn lemma_zero_shift(t: u8)
    requires
        t < 8,
    ensures
        (0u8 >> t) & 1 == 0,
{
    assert((0u8 >> t) & 1 == 0) by (bit_vector)
        requires
            t < 8,
    ;
}

/// Pack bits LSB-first into bytes appended to `out`; the final byte is
/// zero-padded. Every packed bit is pinned: bit `i` of the appended region
/// is `bits[i]`, and the pad bits are zero.
fn pack_bits(out: &mut Vec<u8>, bits: &Vec<bool>)
    ensures
        final(out)@.len() == old(out)@.len() + (bits@.len() + 7) / 8,
        forall|i: int| 0 <= i < old(out)@.len() ==> #[trigger] final(out)@[i] == old(out)@[i],
        forall|i: int| 0 <= i < 8 * ((bits@.len() + 7) / 8)
            ==> #[trigger] bit_at(final(out)@, 8 * old(out)@.len() + i)
                == (i < bits@.len() && bits@[i]),
{
    let ghost l0 = out@.len() as int;
    let mut byte: u8 = 0;
    let mut bit_pos: usize = 0;
    let mut j: usize = 0;
    proof {
        assert forall|t: int| #![trigger byte >> (t as u8)] 0 <= t < 8 implies
            (((byte >> (t as u8)) & 1 == 1) == (t < bit_pos && bits@[8 * (j / 8) + t])) by {
            lemma_zero_shift(t as u8);
        }
    }
    while j < bits.len()
        invariant
            j <= bits@.len(),
            bit_pos == j % 8,
            bit_pos < 8,
            l0 == old(out)@.len(),
            out@.len() == l0 + j / 8,
            forall|i: int| 0 <= i < l0 ==> #[trigger] out@[i] == old(out)@[i],
            forall|i: int| 0 <= i < 8 * (j / 8)
                ==> #[trigger] bit_at(out@, 8 * l0 + i) == (i < bits@.len() && bits@[i]),
            forall|t: int| #![trigger byte >> (t as u8)] 0 <= t < 8
                ==> (((byte >> (t as u8)) & 1 == 1) == (t < bit_pos && bits@[8 * (j / 8) + t])),
        decreases bits@.len() - j,
    {
        let ghost old_byte = byte;
        let b = bits[j];
        if b {
            byte = byte | (1u8 << (bit_pos as u8));
        }
        proof {
            assert(j == 8 * (j / 8) + bit_pos);
            assert forall|t: int| #![trigger byte >> (t as u8)] 0 <= t < 8 implies
                (((byte >> (t as u8)) & 1 == 1) == (t < bit_pos + 1 && bits@[8 * (j / 8) + t])) by {
                if b {
                    lemma_or_shift(old_byte, bit_pos as u8, t as u8);
                } else {
                    assert(((old_byte >> (t as u8)) & 1 == 1) == (t < bit_pos && bits@[8 * (j / 8) + t]));
                }
            }
        }
        bit_pos = bit_pos + 1;
        j = j + 1;
        if bit_pos == 8 {
            let ghost pre = out@;
            let ghost q = (j / 8) - 1;
            out.push(byte);
            proof {
                assert(j % 8 == 0);
                assert(j / 8 == q + 1);
                assert forall|i: int| 0 <= i < 8 * (j / 8) implies
                    #[trigger] bit_at(out@, 8 * l0 + i) == (i < bits@.len() && bits@[i]) by {
                    lemma_split8(l0, i);
                    if i < 8 * q {
                        assert((8 * l0 + i) / 8 < l0 + q);
                        assert(out@[(8 * l0 + i) / 8] == pre[(8 * l0 + i) / 8]);
                        assert(bit_at(pre, 8 * l0 + i) == (i < bits@.len() && bits@[i]));
                    } else {
                        let tt = i - 8 * q;
                        assert(0 <= tt < 8);
                        lemma_bit_index(l0 + q, tt);
                        assert((8 * l0 + i) / 8 == l0 + q && (8 * l0 + i) % 8 == tt);
                        assert(out@[l0 + q] == byte);
                        assert(8 * q + tt == i);
                        assert(((byte >> (tt as u8)) & 1 == 1) == (tt < 8 && bits@[8 * q + tt]));
                        assert(i < bits@.len() && bits@[i] == bit_at(out@, 8 * l0 + i));
                    }
                }
            }
            byte = 0;
            bit_pos = 0;
            proof {
                assert forall|t: int| #![trigger byte >> (t as u8)] 0 <= t < 8 implies
                    (((byte >> (t as u8)) & 1 == 1) == (t < bit_pos && bits@[8 * (j / 8) + t])) by {
                    lemma_zero_shift(t as u8);
                }
            }
        }
    }
    if bit_pos > 0 {
        let ghost pre = out@;
        let ghost q = j / 8;
        out.push(byte);
        proof {
            assert((bits@.len() + 7) / 8 == j / 8 + 1);
            assert forall|i: int| 0 <= i < 8 * ((bits@.len() + 7) / 8) implies
                #[trigger] bit_at(out@, 8 * l0 + i) == (i < bits@.len() && bits@[i]) by {
                lemma_split8(l0, i);
                if i < 8 * q {
                    assert((8 * l0 + i) / 8 < l0 + q);
                    assert(out@[(8 * l0 + i) / 8] == pre[(8 * l0 + i) / 8]);
                    assert(bit_at(pre, 8 * l0 + i) == (i < bits@.len() && bits@[i]));
                } else {
                    let tt = i - 8 * q;
                    assert(0 <= tt < 8);
                    lemma_bit_index(l0 + q, tt);
                    assert((8 * l0 + i) / 8 == l0 + q && (8 * l0 + i) % 8 == tt);
                    assert(out@[l0 + q] == byte);
                    assert(((byte >> (tt as u8)) & 1 == 1) == (tt < bit_pos && bits@[8 * q + tt]));
                    assert((i < bits@.len()) == (tt < bit_pos));
                    assert(bit_at(out@, 8 * l0 + i) == (i < bits@.len() && bits@[i]));
                }
            }
        }
    } else {
        proof {
            assert((bits@.len() + 7) / 8 == j / 8);
        }
    }
}

/// The `(code, symbol)` pairs of the first `k` slots of a 256-slot code
/// assignment, in ascending symbol order.
pub open spec fn table_of(cv: Seq<Option<Vec<bool>>>, k: int) -> Seq<(Seq<bool>, u8)>
    decreases k,
{
    if k <= 0 {
        Seq::empty()
    } else {
        table_of(cv, k - 1) + (match cv[k - 1] {
            Some(c) => seq![(c@, (k - 1) as u8)],
            None => Seq::empty(),
        })
    }
}

/// How many of the first `k` slots are filled.
pub open spec fn count_some(cv: Seq<Option<Vec<bool>>>, k: int) -> int
    decreases k,
{
    if k <= 0 {
        0
    } else {
        count_some(cv, k - 1) + (if cv[k - 1] is Some {
            1int
        } else {
            0int
        })
    }
}

/// No two filled slots hold codes where one is a prefix of the other.
pub open spec fn codes_prefix_free(cv: Seq<Option<Vec<bool>>>) -> bool {
    forall|j1: int, j2: int| #![trigger cv[j1], cv[j2]]
        0 <= j1 < cv.len() && 0 <= j2 < cv.len() && j1 != j2 && cv[j1] is Some && cv[j2] is Some
        ==> non_prefix(cv[j1]->Some_0@, cv[j2]->Some_0@)
}

/// Matching against a concatenated table tries the front part first.
proof fn lemma_first_match_concat(t1: Seq<(Seq<bool>, u8)>, t2: Seq<(Seq<bool>, u8)>, q: Seq<bool>)
    ensures
        first_code_match(t1 + t2, q) == match first_code_match(t1, q) {
            Some(s) => Some::<u8>(s),
            None => first_code_match(t2, q),
        },
    decreases t1.len(),
{
    if t1.len() == 0 {
        assert(t1 + t2 =~= t2);
    } else {
        assert((t1 + t2)[0] == t1[0]);
        assert((t1 + t2).skip(1) =~= t1.skip(1) + t2);
        lemma_first_match_concat(t1.skip(1), t2, q);
    }
}

/// A query that equals no filled slot's code matches nothing.
proof fn lemma_table_match_none(cv: Seq<Option<Vec<bool>>>, k: int, q: Seq<bool>)
    requires
        0 <= k <= cv.len(),
        forall|s: int| 0 <= s < k && #[trigger] cv[s] is Some ==> cv[s]->Some_0@ != q,
    ensures
        first_code_match(table_of(cv, k), q) is None,
    decreases k,
{
    if k > 0 {
        lemma_table_match_none(cv, k - 1, q);
        match cv[k - 1] {
            Some(c) => {
                let e = seq![(c@, (k - 1) as u8)];
                lemma_first_match_concat(table_of(cv, k - 1), e, q);
                assert(cv[k - 1]->Some_0@ != q);
                assert(e[0].0 == c@ && c@ != q);
                assert(e.skip(1) =~= Seq::<(Seq<bool>, u8)>::empty());
                assert(first_code_match(e.skip(1), q) is None);
                assert(first_code_match(e, q) is None);
            },
            None => {
                assert(table_of(cv, k - 1) + Seq::<(Seq<bool>, u8)>::empty()
                    =~= table_of(cv, k - 1));
            },
        }
    }
}

/// A filled slot whose code no other filled slot shares matches itself.
proof fn lemma_table_match_some(cv: Seq<Option<Vec<bool>>>, k: int, b: int)
    requires
        0 <= b < k <= cv.len(),
        cv[b] is Some,
        forall|s: int| 0 <= s < k && s != b && #[trigger] cv[s] is Some
            ==> cv[s]->Some_0@ != cv[b]->Some_0@,
    ensures
        first_code_match(table_of(cv, k), cv[b]->Some_0@) == Some(b as u8),
    decreases k,
{
    let q = cv[b]->Some_0@;
    if b == k - 1 {
        lemma_table_match_none(cv, k - 1, q);
        let e = seq![(q, b as u8)];
        lemma_first_match_concat(table_of(cv, k - 1), e, q);
        assert(first_code_match(e, q) == Some(b as u8));
    } else {
        lemma_table_match_some(cv, k - 1, b);
        match cv[k - 1] {
            Some(c) => {
                lemma_first_match_concat(table_of(cv, k - 1), seq![(c@, (k - 1) as u8)], q);
            },
            None => {
                assert(table_of(cv, k - 1) + Seq::<(Seq<bool>, u8)>::empty()
                    =~= table_of(cv, k - 1));
            },
        }
    }
}

/// A code together with the symbol the table decodes it to: the full code
/// matches exactly that symbol, and no proper prefix matches anything.
pub open spec fn code_resolves(tv: Seq<(Seq<bool>, u8)>, code: Seq<bool>, sym: u8) -> bool {
    &&& code.len() >= 1
    &&& first_code_match(tv, code) == Some(sym)
    &&& forall|j: int| 1 <= j < code.len()
        ==> first_code_match(tv, #[trigger] code.take(j)) is None
}

/// In a prefix-free assignment every filled slot's code resolves to its
/// own symbol.
proof fn lemma_codes_resolve(cv: Seq<Option<Vec<bool>>>, b: int)
    requires
        cv.len() == 256,
        0 <= b < 256,
        cv[b] is Some,
        cv[b]->Some_0@.len() >= 1,
        codes_prefix_free(cv),
    ensures
        code_resolves(table_of(cv, 256), cv[b]->Some_0@, b as u8),
{
    let q = cv[b]->Some_0@;
    assert forall|s: int| 0 <= s < 256 && s != b && #[trigger] cv[s] is Some implies
        cv[s]->Some_0@ != q by {
        if cv[s]->Some_0@ == q {
            assert(q.take(q.len() as int) =~= q);
            assert(is_prefix(q, q));
        }
    }
    lemma_table_match_some(cv, 256, b);
    assert forall|j: int| 1 <= j < q.len() implies
        first_code_match(table_of(cv, 256), #[trigger] q.take(j)) is None by {
        assert forall|s: int| 0 <= s < 256 && #[trigger] cv[s] is Some implies
            cv[s]->Some_0@ != q.take(j) by {
            if cv[s]->Some_0@ == q.take(j) {
                if s == b {
                    assert(q.len() == j);
                } else {
                    assert(q.take(j).len() == j);
                    assert(q.take(j) == q.take(q.take(j).len() as int));
                    assert(is_prefix(cv[s]->Some_0@, q));
                }
            }
        }
        lemma_table_match_none(cv, 256, q.take(j));
    }
}

/// Feeding one resolvable code (then anything) through the greedy decoder
/// emits exactly its symbol and moves on.
proof fn lemma_greedy_one_code(
    code: Seq<bool>,
    j: int,
    tail: Seq<bool>,
    tv: Seq<(Seq<bool>, u8)>,
    sym: u8,
    out: Seq<u8>,
    target: int,
)
    requires
        code_resolves(tv, code, sym),
        out.len() < target,
        0 <= j < code.len(),
    ensures
        greedy_decode(code.skip(j) + tail, tv, code.take(j), out, target) == greedy_decode(
            tail,
            tv,
            Seq::empty(),
            out.push(sym),
            target,
        ),
    decreases code.len() - j,
{
    let bits = code.skip(j) + tail;
    assert(bits.len() > 0);
    assert(bits[0] == code[j]);
    let acc2 = code.take(j).push(code[j]);
    assert(acc2 =~= code.take(j + 1));
    assert(bits.skip(1) =~= code.skip(j + 1) + tail);
    if j + 1 == code.len() {
        assert(code.take(j + 1) =~= code);
        assert(first_code_match(tv, acc2) == Some(sym));
        assert(code.skip(j + 1) =~= Seq::<bool>::empty());
        assert(Seq::<bool>::empty() + tail =~= tail);
    } else {
        assert(first_code_match(tv, code.take(j + 1)) is None);
        lemma_greedy_one_code(code, j + 1, tail, tv, sym, out, target);
    }
}

/// The bit stream a code assignment produces for `d`: each byte's code,
/// concatenated in order.
pub open spec fn enc_bits(d: Seq<u8>, cv: Seq<Option<Vec<bool>>>) -> Seq<bool>
    decreases d.len(),
{
    if d.len() == 0 {
        Seq::empty()
    } else {
        (match cv[d[0] as int] {
            Some(c) => c@,
            None => Seq::empty(),
        }) + enc_bits(d.skip(1), cv)
    }
}

proof fn lemma_enc_bits_push(d: Seq<u8>, cv: Seq<Option<Vec<bool>>>, x: u8)
    requires
        cv.len() == 256,
        cv[x as int] is Some,
    ensures
        enc_bits(d.push(x), cv) == enc_bits(d, cv) + cv[x as int]->Some_0@,
    decreases d.len(),
{
    let l = d.push(x);
    let cx = cv[x as int]->Some_0@;
    if d.len() == 0 {
        assert(l[0] == x);
        assert(l.skip(1) =~= Seq::<u8>::empty());
        assert(enc_bits(l.skip(1), cv) == Seq::<bool>::empty());
        assert(enc_bits(d, cv) == Seq::<bool>::empty());
        assert(enc_bits(l, cv) =~= enc_bits(d, cv) + cx);
    } else {
        lemma_enc_bits_push(d.skip(1), cv, x);
        assert(l.skip(1) =~= d.skip(1).push(x));
        assert(l[0] == d[0]);
        let c0 = match cv[d[0] as int] {
            Some(c) => c@,
            None => Seq::<bool>::empty(),
        };
        assert(enc_bits(l, cv) == c0 + (enc_bits(d.skip(1), cv) + cx));
        assert(enc_bits(d, cv) == c0 + enc_bits(d.skip(1), cv));
        assert(c0 + (enc_bits(d.skip(1), cv) + cx) =~= (c0 + enc_bits(d.skip(1), cv)) + cx);
    }
}

/// Greedy decoding of the full encoded stream (plus any pad bits) yields
/// exactly the encoded bytes once the target length is reached.
proof fn lemma_greedy_enc(
    d: Seq<u8>,
    cv: Seq<Option<Vec<bool>>>,
    tv: Seq<(Seq<bool>, u8)>,
    done: Seq<u8>,
    pad: Seq<bool>,
    target: int,
)
    requires
        cv.len() == 256,
        tv == table_of(cv, 256),
        target == done.len() + d.len(),
        forall|i: int| 0 <= i < d.len() ==> cv[#[trigger] d[i] as int] is Some
            && code_resolves(tv, cv[d[i] as int]->Some_0@, d[i]),
    ensures
        greedy_decode(enc_bits(d, cv) + pad, tv, Seq::empty(), done, target) == done + d,
    decreases d.len(),
{
    if d.len() == 0 {
        assert(done + d =~= done);
    } else {
        assert(cv[d[0] as int] is Some && code_resolves(tv, cv[d[0] as int]->Some_0@, d[0]));
        let code = cv[d[0] as int]->Some_0@;
        let rest = enc_bits(d.skip(1), cv) + pad;
        assert(enc_bits(d, cv) == code + enc_bits(d.skip(1), cv));
        assert(enc_bits(d, cv) + pad =~= code + rest);
        assert(code.skip(0) =~= code);
        assert(code.take(0) =~= Seq::<bool>::empty());
        lemma_greedy_one_code(code, 0, rest, tv, d[0], done, target);
        assert forall|i: int| 0 <= i < d.skip(1).len() implies
            cv[#[trigger] d.skip(1)[i] as int] is Some
                && code_resolves(tv, cv[d.skip(1)[i] as int]->Some_0@, d.skip(1)[i]) by {
            assert(d.skip(1)[i] == d[i + 1]);
        }
        lemma_greedy_enc(d.skip(1), cv, tv, done.push(d[0]), pad, target);
        assert(done.push(d[0]) + d.skip(1) =~= done + d);
    }
}

/// Later appends do not disturb an already-parsed code table.
proof fn lemma_parse_code_table_extend(s: Seq<u8>, ext: Seq<u8>, pos: int, k: int)
    requires
        0 <= k,
        parse_code_table(s, pos, k) is Some,
    ensures
        parse_code_table(s + ext, pos, k) == parse_code_table(s, pos, k),
    decreases k,
{
    if k > 0 {
        let clen = s[pos + 1] as int;
        let nbytes = (clen + 7) / 8;
        assert((s + ext)[pos] == s[pos] && (s + ext)[pos + 1] == s[pos + 1]);
        assert(code_bits(s + ext, pos + 2, clen) =~= code_bits(s, pos + 2, clen)) by {
            assert forall|i: int| 0 <= i < clen implies
                #[trigger] code_bits(s + ext, pos + 2, clen)[i]
                    == code_bits(s, pos + 2, clen)[i] by {
                assert(i / 8 < nbytes);
                assert((s + ext)[pos + 2 + i / 8] == s[pos + 2 + i / 8]);
            }
        }
        lemma_parse_code_table_extend(s, ext, pos + 2 + nbytes, k - 1);
    }
}

/// Whether the table holds an entry for symbol `b`.
pub open spec fn has_entry(tv: Seq<(Seq<bool>, u8)>, b: u8) -> bool
    decreases tv.len(),
{
    tv.len() > 0 && (tv[0].1 == b || has_entry(tv.skip(1), b))
}

/// The code length the table assigns to symbol `b` (its first entry), or
/// 0 when the symbol has no entry.
pub open spec fn table_code_len(tv: Seq<(Seq<bool>, u8)>, b: u8) -> int
    decreases tv.len(),
{
    if tv.len() == 0 {
        0
    } else if tv[0].1 == b {
        tv[0].0.len() as int
    } else {
        table_code_len(tv.skip(1), b)
    }
}

/// The bit length of `d` encoded against the table: the sum of each
/// byte's code length.
pub open spec fn encoded_len(d: Seq<u8>, tv: Seq<(Seq<bool>, u8)>) -> int
    decreases d.len(),
{
    if d.len() == 0 {
        0
    } else {
        table_code_len(tv, d[0]) + encoded_len(d.skip(1), tv)
    }
}

proof fn lemma_table_code_len_concat(t1: Seq<(Seq<bool>, u8)>, t2: Seq<(Seq<bool>, u8)>, b: u8)
    ensures
        has_entry(t1 + t2, b) == (has_entry(t1, b) || has_entry(t2, b)),
        table_code_len(t1 + t2, b) == (if has_entry(t1, b) {
            table_code_len(t1, b)
        } else {
            table_code_len(t2, b)
        }),
    decreases t1.len(),
{
    if t1.len() == 0 {
        assert(t1 + t2 =~= t2);
    } else {
        assert((t1 + t2)[0] == t1[0]);
        assert((t1 + t2).skip(1) =~= t1.skip(1) + t2);
        lemma_table_code_len_concat(t1.skip(1), t2, b);
    }
}

/// Symbols at or past the cut-off have no entry yet.
proof fn lemma_table_syms(cv: Seq<Option<Vec<bool>>>, k: int, b: u8)
    requires
        0 <= k <= cv.len(),
        k <= 256,
        b as int >= k,
    ensures
        !has_entry(table_of(cv, k), b),
    decreases k,
{
    if k > 0 {
        lemma_table_syms(cv, k - 1, b);
        match cv[k - 1] {
            Some(c) => {
                lemma_table_code_len_concat(table_of(cv, k - 1), seq![(c@, (k - 1) as u8)], b);
                assert(!has_entry(seq![(c@, (k - 1) as u8)], b)) by {
                    assert((k - 1) as u8 != b);
                    assert(seq![(c@, (k - 1) as u8)].skip(1) =~= Seq::<(Seq<bool>, u8)>::empty());
                    assert(!has_entry(Seq::<(Seq<bool>, u8)>::empty(), b));
                }
            },
            None => {
                assert(table_of(cv, k - 1) + Seq::<(Seq<bool>, u8)>::empty()
                    =~= table_of(cv, k - 1));
            },
        }
    }
}

/// The table assigns each filled slot its own code's length.
proof fn lemma_no_entry_len(tv: Seq<(Seq<bool>, u8)>, b: u8)
    requires
        !has_entry(tv, b),
    ensures
        table_code_len(tv, b) == 0,
    decreases tv.len(),
{
    if tv.len() > 0 {
        lemma_no_entry_len(tv.skip(1), b);
    }
}

proof fn lemma_table_code_len_slot(cv: Seq<Option<Vec<bool>>>, k: int, b: u8)
    requires
        0 <= (b as int) < k <= cv.len(),
        k <= 256,
    ensures
        has_entry(table_of(cv, k), b) == (cv[b as int] is Some),
        table_code_len(table_of(cv, k), b) == (if cv[b as int] is Some {
            cv[b as int]->Some_0@.len() as int
        } else {
            0int
        }),
    decreases k,
{
    if b as int == k - 1 {
        lemma_table_syms(cv, k - 1, b);
        match cv[k - 1] {
            Some(c) => {
                let e = seq![(c@, (k - 1) as u8)];
                lemma_table_code_len_concat(table_of(cv, k - 1), e, b);
                assert((k - 1) as u8 == b);
                assert(e.skip(1) =~= Seq::<(Seq<bool>, u8)>::empty());
                assert(!has_entry(Seq::<(Seq<bool>, u8)>::empty(), b));
                assert(has_entry(e, b) && table_code_len(e, b) == c@.len() as int);
            },
            None => {
                assert(table_of(cv, k - 1) + Seq::<(Seq<bool>, u8)>::empty()
                    =~= table_of(cv, k - 1));
                lemma_no_entry_len(table_of(cv, k - 1), b);
            },
        }
    } else {
        lemma_table_code_len_slot(cv, k - 1, b);
        match cv[k - 1] {
            Some(c) => {
                let e = seq![(c@, (k - 1) as u8)];
                lemma_table_code_len_concat(table_of(cv, k - 1), e, b);
                assert((k - 1) as u8 != b);
                assert(e.skip(1) =~= Seq::<(Seq<bool>, u8)>::empty());
                assert(!has_entry(Seq::<(Seq<bool>, u8)>::empty(), b));
                assert(!has_entry(e, b));
                assert(table_code_len(e, b) == table_code_len(Seq::<(Seq<bool>, u8)>::empty(), b));
            },
            None => {
                assert(table_of(cv, k - 1) + Seq::<(Seq<bool>, u8)>::empty()
                    =~= table_of(cv, k - 1));
            },
        }
    }
}

/// The emitted bit stream's length is the per-byte code-length sum read
/// off the serialized table.
proof fn lemma_encoded_len(d: Seq<u8>, cv: Seq<Option<Vec<bool>>>)
    requires
        cv.len() == 256,
        forall|i: int| 0 <= i < d.len() ==> cv[#[trigger] d[i] as int] is Some,
    ensures
        enc_bits(d, cv).len() == encoded_len(d, table_of(cv, 256)),
    decreases d.len(),
{
    if d.len() > 0 {
        assert(cv[d[0] as int] is Some);
        lemma_table_code_len_slot(cv, 256, d[0]);
        assert(forall|i: int| 0 <= i < d.skip(1).len()
            ==> cv[#[trigger] d.skip(1)[i] as int] is Some) by {
            assert(forall|i: int| 0 <= i < d.skip(1).len() ==> #[trigger] d.skip(1)[i] == d[i + 1]);
        }
        lemma_encoded_len(d.skip(1), cv);
    }
}

/// Encode `data` with Huffman coding: code table, original length, then
/// the bit-packed payload. Fails exactly when `data` is empty; any output
/// is at least 3 bytes, and decoding it at the original length gives back
/// exactly `data` — the round-trip guarantee, matching [`decompress`].
pub fn compress(data: &[u8]) -> (r: Result<Vec<u8>, CompressError>)
    ensures
        r is Ok <==> data@.len() > 0,
        r matches Ok(v) ==> v@.len() >= 3,
        r matches Ok(v) ==> huffman_decoding(v@, data@.len() as int) == Some(data@),
        r matches Ok(v) ==> match parse_code_table(v@, 2, v@[0] + 0x100 * v@[1]) {
            Some((tv, p)) => {
                &&& v@.len() == p + 4 + (encoded_len(data@, tv) + 7) / 8
                &&& (data@.len() < 0x100000000
                    ==> v@.subrange(p, p + 4) == le32_bytes(data@.len() as u32))
            },
            None => false,
        },
        r matches Err(e) ==> e is HuffmanError,
{
    let tree = match build_tree(data) {
        Some(t) => t,
        None => {
            return Err(CompressError::HuffmanError("empty tree".to_string()));
        },
    };
    let arena = tree.0;
    let root = tree.1;
    let mut codes: Vec<Option<Vec<bool>>> = Vec::new();
    let mut s: usize = 0;
    while s < 256
        invariant
            s <= 256,
            codes@.len() == s,
            forall|j: int| 0 <= j < s ==> codes@[j] is None,
        decreases 256 - s,
    {
        codes.push(None);
        s = s + 1;
    }
    let ghost blank = codes@;
    build_codes(&arena, root, Vec::new(), &mut codes);
    let ghost cv = codes@;
    proof {
        // Filled slots are exactly the changed ones, so the walk's pairwise
        // guarantee makes the whole assignment prefix-free, and every byte
        // of the input has a filled slot.
        assert(forall|j: int| 0 <= j < 256 && cv[j] is Some ==> cv[j] != blank[j]);
        assert(codes_prefix_free(cv));
        assert forall|i: int| 0 <= i < data@.len() implies
            cv[#[trigger] data@[i] as int] is Some by {
            assert(has_sym(arena@, root as int, data@[i]));
        }
    }

    // Count the occupied table entries.
    let mut num_symbols: usize = 0;
    let mut s2: usize = 0;
    while s2 < 256
        invariant
            cv == codes@,
            codes@.len() == 256,
            num_symbols <= s2 <= 256,
            num_symbols as int == count_some(cv, s2 as int),
        decreases 256 - s2,
    {
        if codes[s2].is_some() {
            num_symbols = num_symbols + 1;
        }
        s2 = s2 + 1;
    }

    let mut output: Vec<u8> = Vec::new();
    let count16 = num_symbols as u16;
    output.push((count16 % 0x100) as u8);
    output.push((count16 / 0x100) as u8);
    proof {
        assert(output@[0] as int + 0x100 * (output@[1] as int) == num_symbols as int);
    }

    // Code table: byte value, code length, then the code bits LSB-first.
    let mut entries: usize = 0;
    let mut sym2: usize = 0;
    while sym2 < 256
        invariant
            cv == codes@,
            codes@.len() == 256,
            sym2 <= 256,
            entries as int == count_some(cv, sym2 as int),
            output@.len() >= 2,
            entries <= sym2,
            output@[0] as int + 0x100 * (output@[1] as int) == num_symbols as int,
            num_symbols as int == count_some(cv, 256),
            forall|j: int| 0 <= j < 256
                ==> (#[trigger] cv[j] matches Some(c) ==> 1 <= c@.len() <= 255),
            parse_code_table(output@, 2, entries as int) == Some(
                (table_of(cv, sym2 as int), output@.len() as int),
            ),
        decreases 256 - sym2,
    {
        let entry = &codes[sym2];
        match entry {
            Some(code) => {
                let ghost pre = output@;
                let ghost epos = output@.len() as int;
                let clen = code.len();
                output.push(sym2 as u8);
                output.push(clen as u8);
                let ghost mid = output@;
                pack_bits(&mut output, code);
                proof {
                    let fin = output@;
                    assert(mid.len() == epos + 2);
                    let nbytes = (clen as int + 7) / 8;
                    assert(fin.len() == epos + 2 + nbytes);
                    assert(fin =~= pre + fin.subrange(epos, epos + 2 + nbytes));
                    lemma_parse_code_table_extend(
                        pre,
                        fin.subrange(epos, epos + 2 + nbytes),
                        2,
                        entries as int,
                    );
                    assert(parse_code_table(fin, 2, entries as int)
                        == Some((table_of(cv, sym2 as int), epos)));
                    // The appended entry parses back to this slot's code.
                    assert(fin[epos] == sym2 as u8 && fin[epos + 1] == clen as u8);
                    assert(code_bits(fin, epos + 2, clen as int) =~= code@) by {
                        assert forall|i2: int| 0 <= i2 < clen implies
                            #[trigger] code_bits(fin, epos + 2, clen as int)[i2] == code@[i2] by {
                            lemma_split8(epos + 2, i2);
                            assert(clen <= 8 * ((code@.len() + 7) / 8));
                            assert(0 <= i2 < 8 * ((code@.len() + 7) / 8));
                            assert(bit_at(fin, 8 * mid.len() + i2)
                                == (i2 < code@.len() && code@[i2]));
                            assert(8 * mid.len() + i2 == 8 * (epos + 2) + i2);
                            assert(code_bits(fin, epos + 2, clen as int)[i2]
                                == bit_at(fin, 8 * (epos + 2) + i2));
                        }
                    }
                    lemma_parse_code_table_split(fin, 2, entries as int, 1);
                    assert(parse_code_table(fin, epos + 2 + nbytes, 0)
                        == Some((Seq::<(Seq<bool>, u8)>::empty(), epos + 2 + nbytes)));
                    let fe = (code_bits(fin, epos + 2, clen as int), sym2 as u8);
                    assert(seq![fe] + Seq::<(Seq<bool>, u8)>::empty() =~= seq![fe]);
                    assert(parse_code_table(fin, epos, 1) == Some(
                        (seq![fe], epos + 2 + nbytes),
                    ));
                    assert(parse_code_table(fin, 2, entries as int + 1) == Some(
                        (table_of(cv, sym2 as int) + seq![fe], epos + 2 + nbytes),
                    ));
                    assert(table_of(cv, sym2 as int) + seq![fe]
                        =~= table_of(cv, sym2 as int + 1));
                }
                entries = entries + 1;
            },
            None => {
                proof {
                    assert(table_of(cv, sym2 as int) + Seq::<(Seq<bool>, u8)>::empty()
                        =~= table_of(cv, sym2 as int));
                    assert(table_of(cv, sym2 as int + 1) == table_of(cv, sym2 as int));
                }
            },
        }
        sym2 = sym2 + 1;
    }
    let ghost table_end = output@.len() as int;
    proof {
        assert(entries == num_symbols);
    }

    // Original length, little-endian.
    let ghost pre_len = output@;
    let data_len = #[verifier::truncate] (data.len() as u32);
    output.push((data_len % 0x100) as u8);
    output.push((data_len / 0x100 % 0x100) as u8);
    output.push((data_len / 0x10000 % 0x100) as u8);
    output.push((data_len / 0x1000000) as u8);
    proof {
        assert(output@ =~= pre_len + output@.subrange(table_end, table_end + 4));
        lemma_parse_code_table_extend(
            pre_len,
            output@.subrange(table_end, table_end + 4),
            2,
            entries as int,
        );
    }

    // Payload: each byte's code bits, concatenated LSB-first.
    let mut bits: Vec<bool> = Vec::new();
    let mut i: usize = 0;
    proof {
        assert(data@.take(0) =~= Seq::<u8>::empty());
    }
    while i < data.len()
        invariant
            cv == codes@,
            codes@.len() == 256,
            i <= data@.len(),
            forall|i2: int| 0 <= i2 < data@.len() ==> cv[#[trigger] data@[i2] as int] is Some,
            bits@ == enc_bits(data@.take(i as int), cv),
        decreases data@.len() - i,
    {
        let b = data[i] as usize;
        let ghost pre_bits = bits@;
        match &codes[b] {
            Some(code) => {
                let mut j: usize = 0;
                while j < code.len()
                    invariant
                        bits@ == pre_bits + code@.take(j as int),
                        j <= code@.len(),
                    decreases code@.len() - j,
                {
                    bits.push(code[j]);
                    proof {
                        assert(pre_bits + code@.take(j as int + 1)
                            =~= (pre_bits + code@.take(j as int)).push(code@[j as int]));
                    }
                    j = j + 1;
                }
                proof {
                    assert(code@.take(code@.len() as int) =~= code@);
                    lemma_enc_bits_push(data@.take(i as int), cv, data@[i as int]);
                    assert(data@.take(i as int + 1)
                        =~= data@.take(i as int).push(data@[i as int]));
                }
            },
            None => {
                proof {
                    assert(false);
                }
            },
        }
        i = i + 1;
    }
    proof {
        assert(data@.take(data@.len() as int) =~= data@);
    }
    let ghost pre_pay = output@;
    pack_bits(&mut output, &bits);
    proof {
        let v = output@;
        let pstart = table_end + 4;
        assert(v =~= pre_pay + v.subrange(pstart, v.len() as int));
        lemma_parse_code_table_extend(
            pre_pay,
            v.subrange(pstart, v.len() as int),
            2,
            entries as int,
        );
        assert(parse_code_table(v, 2, num_symbols as int) == Some(
            (table_of(cv, 256), table_end),
        ));
        assert(v[0] as int + 0x100 * (v[1] as int) == num_symbols as int);
        // The payload region holds exactly the encoded bits, zero-padded.
        let pb = payload_bits(v, pstart);
        let padlen = 8 * ((bits@.len() + 7) / 8) - bits@.len();
        let pad = Seq::new(padlen as nat, |x: int| false);
        assert(pb =~= bits@ + pad) by {
            assert(v.len() - pstart == (bits@.len() + 7) / 8);
            assert forall|i2: int| 0 <= i2 < pb.len() implies
                #[trigger] pb[i2] == (bits@ + pad)[i2] by {
                lemma_split8(pstart, i2);
                assert(pb[i2] == bit_at(v, 8 * pstart + i2));
                assert(0 <= i2 < 8 * ((bits@.len() + 7) / 8));
                assert(bit_at(v, 8 * pre_pay.len() + i2) == (i2 < bits@.len() && bits@[i2]));
                assert(8 * pre_pay.len() + i2 == 8 * pstart + i2);
            }
        }
        // Every input byte's code resolves, so the greedy decode returns
        // exactly the input.
        let tv = table_of(cv, 256);
        assert forall|i2: int| 0 <= i2 < data@.len() implies
            cv[#[trigger] data@[i2] as int] is Some
                && code_resolves(tv, cv[data@[i2] as int]->Some_0@, data@[i2]) by {
            lemma_codes_resolve(cv, data@[i2] as int);
        }
        lemma_greedy_enc(data@, cv, tv, Seq::empty(), pad, data@.len() as int);
        assert(Seq::<u8>::empty() + data@ =~= data@);
        assert(greedy_decode(pb, tv, Seq::empty(), Seq::empty(), data@.len() as int) == data@);
        assert(huffman_decoding(v, data@.len() as int) == Some(data@));
        // Exact output length and the stored original-length field.
        lemma_encoded_len(data@, cv);
        assert(v.len() == table_end + 4 + (encoded_len(data@, tv) + 7) / 8);
        if data@.len() < 0x100000000 {
            assert(v.subrange(table_end, table_end + 4)
                =~= le32_bytes(data@.len() as u32)) by {
                assert(v[table_end] == (data_len % 0x100) as u8);
                assert(v[table_end + 1] == (data_len / 0x100 % 0x100) as u8);
                assert(v[table_end + 2] == (data_len / 0x10000 % 0x100) as u8);
                assert(v[table_end + 3] == (data_len / 0x1000000) as u8);
                assert(data_len == data@.len() as u32);
            }
        }
    }
    Ok(output)
}

/// Decode a Huffman payload: rebuild the code table, then walk the
/// payload bits, emitting a byte at each exact code match, until
/// `original_size` bytes have been produced. Trailing pad bits are never
/// interpreted. Fails exactly when the header, table or length field is
/// truncated; otherwise the result is precisely the greedy decoding.
pub fn decompress(data: &[u8], original_size: usize) -> (r: Result<Vec<u8>, CompressError>)
    ensures
        match huffman_decoding(data@, original_size as int) {
            Some(v) => r matches Ok(out) && out@ == v,
            None => r matches Err(e) && e is HuffmanError,
        },
        r matches Ok(v) ==> v@.len() <= original_size,
{
    let n = data.len();
    if n < 2 {
        return Err(CompressError::HuffmanError("data too short".to_string()));
    }
    let num_symbols = (data[0] as usize) + (data[1] as usize) * 0x100;
    let mut pos: usize = 2;

    let mut table: Vec<(Vec<bool>, u8)> = Vec::new();
    let mut entry: usize = 0;
    while entry < num_symbols
        invariant
            n == data@.len(),
            n >= 2,
            num_symbols as int == data@[0] + 0x100 * data@[1],
            2 <= pos <= n,
            entry <= num_symbols,
            parse_code_table(data@, 2, entry as int) == Some(
                (table@.map_values(|e: (Vec<bool>, u8)| (e.0@, e.1)), pos as int),
            ),
        decreases num_symbols - entry,
    {
        proof {
            lemma_parse_code_table_split(data@, 2, entry as int, num_symbols - entry);
        }
        if n - pos < 2 {
            proof {
                assert(parse_code_table(data@, pos as int, num_symbols - entry) is None);
                assert(parse_code_table(data@, 2, num_symbols as int) is None);
            }
            return Err(CompressError::HuffmanError("truncated table".to_string()));
        }
        let sym = data[pos];
        let code_len = data[pos + 1] as usize;
        let num_bytes = (code_len + 7) / 8;
        if n - pos - 2 < num_bytes {
            proof {
                assert(parse_code_table(data@, pos as int, num_symbols - entry) is None);
                assert(parse_code_table(data@, 2, num_symbols as int) is None);
            }
            return Err(CompressError::HuffmanError("truncated code".to_string()));
        }
        let bits_start = pos + 2;
        let mut code: Vec<bool> = Vec::new();
        let mut byte_idx: usize = 0;
        while byte_idx < num_bytes
            invariant
                n == data@.len(),
                code_len <= 255,
                num_bytes == (code_len + 7) / 8,
                byte_idx <= num_bytes,
                bits_start + num_bytes <= n,
                2 <= bits_start,
                code@.len() <= code_len,
                code@.len() == if 8 * byte_idx <= code_len {
                    8 * byte_idx
                } else {
                    code_len as int
                },
                forall|i2: int| 0 <= i2 < code@.len()
                    ==> #[trigger] code@[i2] == ((data@[bits_start + i2 / 8] >> ((i2 % 8) as u8))
                        & 1 == 1),
            decreases num_bytes - byte_idx,
        {
            let byte = data[bits_start + byte_idx];
            let mut bit_idx: usize = 0;
            while bit_idx < 8
                invariant
                    n == data@.len(),
                    code_len <= 255,
                    byte_idx < num_bytes,
                    num_bytes == (code_len + 7) / 8,
                    bits_start + num_bytes <= n,
                    2 <= bits_start,
                    bit_idx <= 8,
                    byte == data@[bits_start + byte_idx],
                    code@.len() <= code_len,
                    code@.len() == if 8 * byte_idx + bit_idx <= code_len {
                        8 * byte_idx + bit_idx
                    } else {
                        code_len as int
                    },
                    forall|i2: int| 0 <= i2 < code@.len()
                        ==> #[trigger] code@[i2] == ((data@[bits_start + i2 / 8]
                            >> ((i2 % 8) as u8)) & 1 == 1),
                decreases 8 - bit_idx,
            {
                if byte_idx * 8 + bit_idx < code_len {
                    proof {
                        lemma_bit_index(byte_idx as int, bit_idx as int);
                    }
                    code.push((byte >> (bit_idx as u8)) & 1 == 1);
                }
                bit_idx = bit_idx + 1;
            }
            byte_idx = byte_idx + 1;
        }
        proof {
            assert(8 * num_bytes >= code_len);
            assert(code@ =~= code_bits(data@, bits_start as int, code_len as int));
            lemma_parse_code_table_split(data@, 2, entry as int, 1);
            assert(parse_code_table(data@, pos as int + 2 + num_bytes as int, 0)
                == Some((Seq::<(Seq<bool>, u8)>::empty(), pos as int + 2 + num_bytes as int)));
            let first = (code_bits(data@, pos as int + 2, code_len as int), data@[pos as int]);
            assert(seq![first] + Seq::<(Seq<bool>, u8)>::empty() =~= seq![first]);
            assert(parse_code_table(data@, pos as int, 1)
                == Some((seq![first], pos as int + 2 + num_bytes as int)));
            let ghost old_tv = table@.map_values(|e: (Vec<bool>, u8)| (e.0@, e.1));
            assert(old_tv + seq![first] =~= old_tv.push(first));
        }
        let ghost old_tv = table@.map_values(|e: (Vec<bool>, u8)| (e.0@, e.1));
        table.push((code, sym));
        proof {
            assert(table@.map_values(|e: (Vec<bool>, u8)| (e.0@, e.1))
                =~= old_tv.push((code_bits(data@, bits_start as int, code_len as int), sym)));
        }
        pos = pos + 2 + num_bytes;
        entry = entry + 1;
    }
    let ghost tv = table@.map_values(|e: (Vec<bool>, u8)| (e.0@, e.1));

    // Skip the stored length field (the caller-supplied size drives decoding).
    if n - pos < 4 {
        return Err(CompressError::HuffmanError("missing data length".to_string()));
    }
    pos = pos + 4;
    let start = pos;
    let ghost pbits = payload_bits(data@, start as int);
    let ghost target = original_size as int;

    let mut output: Vec<u8> = Vec::new();
    let mut current: Vec<bool> = Vec::new();
    let mut done = original_size == 0;
    proof {
        assert(pbits.skip(0) =~= pbits);
    }
    while pos < n && !done
        invariant
            n == data@.len(),
            start <= pos <= n,
            tv == table@.map_values(|e: (Vec<bool>, u8)| (e.0@, e.1)),
            pbits == payload_bits(data@, start as int),
            target == original_size as int,
            output@.len() <= original_size,
            !done ==> output@.len() < original_size,
            done ==> output@.len() >= original_size,
            greedy_decode(pbits, tv, Seq::empty(), Seq::empty(), target) == greedy_decode(
                pbits.skip(8 * (pos - start) as int),
                tv,
                current@,
                output@,
                target,
            ),
        decreases n - pos,
    {
        let byte = data[pos];
        let mut bit_idx: usize = 0;
        while bit_idx < 8 && !done
            invariant
                n == data@.len(),
                start <= pos < n,
                bit_idx <= 8,
                byte == data@[pos as int],
                tv == table@.map_values(|e: (Vec<bool>, u8)| (e.0@, e.1)),
                pbits == payload_bits(data@, start as int),
                target == original_size as int,
                output@.len() <= original_size,
                !done ==> output@.len() < original_size,
                done ==> output@.len() >= original_size,
                greedy_decode(pbits, tv, Seq::empty(), Seq::empty(), target) == greedy_decode(
                    pbits.skip(8 * (pos - start) as int + bit_idx as int),
                    tv,
                    current@,
                    output@,
                    target,
                ),
            decreases 8 - bit_idx,
        {
            let ghost consumed = 8 * (pos - start) as int + bit_idx as int;
            let ghost suffix = pbits.skip(consumed);
            proof {
                lemma_bit_index((pos - start) as int, bit_idx as int);
                assert(suffix.len() == pbits.len() - consumed);
                assert(pbits.len() == 8 * (n - start));
                assert(suffix.len() > 0);
                assert(suffix[0] == pbits[consumed]);
                assert(pbits[consumed]
                    == ((data@[start as int + consumed / 8] >> ((consumed % 8) as u8)) & 1 == 1));
                assert(suffix[0] == ((data@[pos as int] >> (bit_idx as u8)) & 1 == 1));
                assert(suffix.skip(1) =~= pbits.skip(consumed + 1));
            }
            let bit = (byte >> (bit_idx as u8)) & 1 == 1;
            current.push(bit);
            // First matching table entry, in table order.
            let mut matched = false;
            let mut matched_sym: u8 = 0;
            let mut e: usize = 0;
            proof {
                assert(tv.skip(0) =~= tv);
            }
            while e < table.len()
                invariant
                    tv == table@.map_values(|ent: (Vec<bool>, u8)| (ent.0@, ent.1)),
                    e <= table@.len(),
                    matched ==> first_code_match(tv, current@) == Some(matched_sym),
                    !matched ==> first_code_match(tv, current@) == first_code_match(
                        tv.skip(e as int),
                        current@,
                    ),
                decreases table@.len() - e,
            {
                proof {
                    assert(tv.skip(e as int)[0] == tv[e as int]);
                    assert(tv[e as int] == (table@[e as int].0@, table@[e as int].1));
                    assert(tv.skip(e as int).skip(1) =~= tv.skip(e as int + 1));
                }
                if !matched && bits_eq(&table[e].0, &current) {
                    matched = true;
                    matched_sym = table[e].1;
                }
                e = e + 1;
            }
            proof {
                if !matched {
                    assert(tv.skip(table@.len() as int) =~= Seq::<(Seq<bool>, u8)>::empty());
                    assert(first_code_match(tv, current@) is None);
                }
            }
            if matched {
                output.push(matched_sym);
                current = Vec::new();
                if output.len() >= original_size {
                    done = true;
                }
            }
            bit_idx = bit_idx + 1;
        }
        proof {
            if bit_idx == 8 {
                assert(8 * (pos - start) as int + 8 == 8 * (pos + 1 - start) as int);
            } else {
                // Left mid-byte: decoding is done, so the remaining bits
                // do not change the greedy result.
                assert(greedy_decode(
                    pbits.skip(8 * (pos - start) as int + bit_idx as int),
                    tv,
                    current@,
                    output@,
                    target,
                ) == output@);
                assert(greedy_decode(
                    pbits.skip(8 * (pos + 1 - start) as int),
                    tv,
                    current@,
                    output@,
                    target,
                ) == output@);
            }
        }
        pos = pos + 1;
    }
    proof {
        if !done {
            assert(pos == n);
            assert(pbits.skip(8 * (n - start) as int) =~= Seq::<bool>::empty());
        }
        assert(greedy_decode(
            pbits.skip(8 * (pos - start) as int),
            tv,
            current@,
            output@,
            target,
        ) == output@);
        assert(huffman_decoding(data@, target) == Some(output@));
    }
    Ok(output)
}

} // verus!

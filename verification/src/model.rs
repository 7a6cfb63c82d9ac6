//! Mathematical model of the structural scan.
//!
//! The model assigns to every byte region the set of *structural positions*:
//! offsets of delimiter bytes (`,`, `\r`, `\n`) whose preceding quote count is
//! even, i.e. which lie outside any quoted span.  The scan in `stage1` and
//! `reader` is verified against this model, block by block, with the quote
//! parity as the only state carried across block boundaries.

use vstd::prelude::*;

verus! {

/// True of the quote byte `"`.
pub open spec fn is_quote_byte(b: u8) -> bool {
    b == 0x22
}

/// True of the delimiter bytes: `,`, `\n` and `\r`.
pub open spec fn is_delim_byte(b: u8) -> bool {
    b == 0x2c || b == 0x0a || b == 0x0d
}

/// Parity of the quote bytes in `s`: true when their count is odd.
pub open spec fn quote_parity(s: Seq<u8>) -> bool
    decreases s.len(),
{
    if s.len() == 0 {
        false
    } else {
        quote_parity(s.drop_last()) != is_quote_byte(s.last())
    }
}

/// Byte `i` of `s` is structural: a delimiter with an even number of quotes
/// strictly to its left.
pub open spec fn is_structural(s: Seq<u8>, i: int) -> bool {
    is_delim_byte(s[i]) && !quote_parity(s.take(i))
}

/// The structural positions of `s` that lie in `[lo, hi)`, in increasing
/// order.
pub open spec fn structural_positions_in(s: Seq<u8>, lo: int, hi: int) -> Seq<int>
    decreases hi - lo,
{
    if lo >= hi {
        Seq::empty()
    } else if is_structural(s, lo) {
        seq![lo] + structural_positions_in(s, lo + 1, hi)
    } else {
        structural_positions_in(s, lo + 1, hi)
    }
}

/// All structural positions of `s`, in increasing order.
pub open spec fn structural_positions(s: Seq<u8>) -> Seq<int> {
    structural_positions_in(s, 0, s.len() as int)
}

/// Bit `i` of the 64-bit word `x`.
pub open spec fn bit64(x: u64, i: int) -> bool {
    ((x >> (i as u64)) & 1u64) == 1u64
}

/// The indices of the set bits of `m` at or above `k`, in increasing order.
pub open spec fn bit_positions_from(m: u64, k: int) -> Seq<int>
    decreases 64 - k,
{
    if !(0 <= k < 64) {
        Seq::empty()
    } else if bit64(m, k) {
        seq![k] + bit_positions_from(m, k + 1)
    } else {
        bit_positions_from(m, k + 1)
    }
}

/// The indices of the set bits of `m`, in increasing order.
pub open spec fn bit_positions(m: u64) -> Seq<int> {
    bit_positions_from(m, 0)
}

/// Each position shifted up by `base`.
pub open spec fn shift_positions(base: int, ps: Seq<int>) -> Seq<int> {
    ps.map_values(|p: int| base + p)
}

/// Appending one byte flips the parity exactly when the byte is a quote.
pub proof fn lemma_quote_parity_push(s: Seq<u8>, b: u8)
    ensures
        quote_parity(s.push(b)) == (quote_parity(s) != is_quote_byte(b)),
{
    assert(s.push(b).drop_last() =~= s);
    assert(s.push(b).last() == b);
}

/// Quote parity distributes over concatenation as exclusive or.
pub proof fn lemma_quote_parity_concat(a: Seq<u8>, b: Seq<u8>)
    ensures
        quote_parity(a + b) == (quote_parity(a) != quote_parity(b)),
    decreases b.len(),
{
    if b.len() == 0 {
        assert(a + b =~= a);
    } else {
        lemma_quote_parity_concat(a, b.drop_last());
        assert((a + b).drop_last() =~= a + b.drop_last());
        assert((a + b).last() == b.last());
    }
}

/// Structural positions over `[lo, hi)` split at any midpoint.
pub proof fn lemma_structural_positions_in_concat(s: Seq<u8>, lo: int, mid: int, hi: int)
    requires
        lo <= mid <= hi,
    ensures
        structural_positions_in(s, lo, hi) == structural_positions_in(s, lo, mid)
            + structural_positions_in(s, mid, hi),
    decreases mid - lo,
{
    if lo >= mid {
        assert(structural_positions_in(s, lo, mid) =~= Seq::<int>::empty());
        assert(structural_positions_in(s, lo, hi) =~= Seq::<int>::empty()
            + structural_positions_in(s, lo, hi));
    } else {
        lemma_structural_positions_in_concat(s, lo + 1, mid, hi);
        if is_structural(s, lo) {
            assert(seq![lo] + (structural_positions_in(s, lo + 1, mid)
                + structural_positions_in(s, mid, hi)) =~= (seq![lo]
                + structural_positions_in(s, lo + 1, mid)) + structural_positions_in(s, mid, hi));
        }
    }
}

/// Every structural position in `[lo, hi)` lies in that range, and the
/// sequence is strictly increasing.
pub proof fn lemma_structural_positions_in_range(s: Seq<u8>, lo: int, hi: int)
    ensures
        forall|k: int|
            0 <= k < structural_positions_in(s, lo, hi).len() ==> lo <= #[trigger] structural_positions_in(
                s,
                lo,
                hi,
            )[k] < hi,
        forall|k: int, l: int|
            0 <= k < l < structural_positions_in(s, lo, hi).len()
                ==> #[trigger] structural_positions_in(s, lo, hi)[k]
                < #[trigger] structural_positions_in(s, lo, hi)[l],
    decreases hi - lo,
{
    if lo < hi {
        lemma_structural_positions_in_range(s, lo + 1, hi);
        let tail = structural_positions_in(s, lo + 1, hi);
        let whole = structural_positions_in(s, lo, hi);
        if is_structural(s, lo) {
            assert(whole == seq![lo] + tail);
            assert forall|k: int| 0 <= k < whole.len() implies lo <= #[trigger] whole[k] < hi by {
                if k > 0 {
                    assert(whole[k] == tail[k - 1]);
                }
            }
            assert forall|k: int, l: int| 0 <= k < l < whole.len() implies #[trigger] whole[k] < #[trigger] whole[l] by {
                assert(whole[l] == tail[l - 1]);
                if k > 0 {
                    assert(whole[k] == tail[k - 1]);
                }
            }
        } else {
            assert(whole == tail);
            assert forall|k: int| 0 <= k < whole.len() implies lo <= #[trigger] whole[k] < hi by {
                assert(whole[k] == tail[k]);
            }
            assert forall|k: int, l: int| 0 <= k < l < whole.len() implies #[trigger] whole[k] < #[trigger] whole[l] by {
                assert(whole[k] == tail[k]);
                assert(whole[l] == tail[l]);
            }
        }
    }
}

/// There are at most as many structural positions in `[lo, hi)` as bytes.
pub proof fn lemma_structural_positions_in_count(s: Seq<u8>, lo: int, hi: int)
    ensures
        structural_positions_in(s, lo, hi).len() <= (if lo <= hi {
            hi - lo
        } else {
            0int
        }),
    decreases hi - lo,
{
    if lo < hi {
        lemma_structural_positions_in_count(s, lo + 1, hi);
    }
}

/// A position is listed among the structural positions of `[lo, hi)` exactly
/// when it is structural.
pub proof fn lemma_structural_positions_in_complete(s: Seq<u8>, lo: int, hi: int, p: int)
    requires
        lo <= p < hi,
    ensures
        structural_positions_in(s, lo, hi).contains(p) == is_structural(s, p),
    decreases hi - lo,
{
    lemma_structural_positions_in_range(s, lo, hi);
    if lo < p {
        lemma_structural_positions_in_complete(s, lo + 1, hi, p);
        if is_structural(s, lo) {
            let tail = structural_positions_in(s, lo + 1, hi);
            let whole = seq![lo] + tail;
            assert(structural_positions_in(s, lo, hi) == whole);
            if tail.contains(p) {
                let k = choose|k: int| 0 <= k < tail.len() && tail[k] == p;
                assert(whole[k + 1] == p);
            }
            if whole.contains(p) {
                let k = choose|k: int| 0 <= k < whole.len() && whole[k] == p;
                assert(k != 0);
                assert(tail[k - 1] == p);
            }
        }
    } else {
        let tail = structural_positions_in(s, lo + 1, hi);
        lemma_structural_positions_in_range(s, lo + 1, hi);
        if is_structural(s, lo) {
            let whole = seq![lo] + tail;
            assert(whole[0] == lo);
            assert(whole.contains(lo));
        } else {
            assert forall|k: int| 0 <= k < tail.len() implies tail[k] != p by {}
            assert(!tail.contains(p));
        }
    }
}

/// Set-bit indices all lie in `[k, 64)` and are strictly increasing.
pub proof fn lemma_bit_positions_from_range(m: u64, k: int)
    ensures
        forall|j: int|
            0 <= j < bit_positions_from(m, k).len() ==> k <= #[trigger] bit_positions_from(m, k)[j]
                < 64,
        forall|j: int, l: int|
            0 <= j < l < bit_positions_from(m, k).len() ==> #[trigger] bit_positions_from(m, k)[j]
                < #[trigger] bit_positions_from(m, k)[l],
    decreases 64 - k,
{
    if 0 <= k < 64 {
        lemma_bit_positions_from_range(m, k + 1);
        let tail = bit_positions_from(m, k + 1);
        let whole = bit_positions_from(m, k);
        if bit64(m, k) {
            assert(whole == seq![k] + tail);
            assert forall|j: int| 0 <= j < whole.len() implies k <= #[trigger] whole[j] < 64 by {
                if j > 0 {
                    assert(whole[j] == tail[j - 1]);
                }
            }
            assert forall|j: int, l: int| 0 <= j < l < whole.len() implies #[trigger] whole[j] < #[trigger] whole[l] by {
                assert(whole[l] == tail[l - 1]);
                if j > 0 {
                    assert(whole[j] == tail[j - 1]);
                }
            }
        } else {
            assert(whole == tail);
            assert forall|j: int| 0 <= j < whole.len() implies k <= #[trigger] whole[j] < 64 by {
                assert(whole[j] == tail[j]);
            }
            assert forall|j: int, l: int| 0 <= j < l < whole.len() implies #[trigger] whole[j] < #[trigger] whole[l] by {
                assert(whole[j] == tail[j]);
                assert(whole[l] == tail[l]);
            }
        }
    }
}

/// If bits `[k, t)` of `m` are clear, scanning from `k` and from `t` agree.
pub proof fn lemma_bit_positions_from_skip_clear(m: u64, k: int, t: int)
    requires
        0 <= k <= t,
        forall|j: int| k <= j < t ==> !bit64(m, j),
    ensures
        bit_positions_from(m, k) == bit_positions_from(m, t),
    decreases t - k,
{
    if k < t {
        if k < 64 {
            assert(!bit64(m, k));
        }
        lemma_bit_positions_from_skip_clear(m, k + 1, t);
    }
}

/// Two words with the same bits at or above `k` list the same positions
/// from `k`.
pub proof fn lemma_bit_positions_from_congruent(m1: u64, m2: u64, k: int)
    requires
        forall|j: int| k <= j < 64 ==> bit64(m1, j) == bit64(m2, j),
    ensures
        bit_positions_from(m1, k) == bit_positions_from(m2, k),
    decreases 64 - k,
{
    if 0 <= k < 64 {
        assert(bit64(m1, k) == bit64(m2, k));
        lemma_bit_positions_from_congruent(m1, m2, k + 1);
    }
}

/// From a block bitmap that records exactly the structural positions
/// `base + i` below `hi`, reading the set bits smallest-first and shifting by
/// `base` yields the structural positions of `[base + k, hi)`.
proof fn lemma_mask_positions_from(m: u64, s: Seq<u8>, base: int, hi: int, k: int)
    requires
        0 <= base <= hi <= s.len(),
        hi <= base + 64,
        0 <= k <= 64,
        forall|i: int|
            0 <= i < 64 ==> #[trigger] bit64(m, i) == (base + i < hi && is_structural(s, base + i)),
    ensures
        shift_positions(base, bit_positions_from(m, k)) == structural_positions_in(s, base + k, hi),
    decreases 64 - k,
{
    if k >= 64 {
        assert(bit_positions_from(m, k) == Seq::<int>::empty());
        assert(shift_positions(base, Seq::<int>::empty()) =~= Seq::<int>::empty());
        assert(structural_positions_in(s, base + k, hi) == Seq::<int>::empty());
    } else {
        lemma_mask_positions_from(m, s, base, hi, k + 1);
        let rest = bit_positions_from(m, k + 1);
        if bit64(m, k) {
            assert(base + k < hi && is_structural(s, base + k));
            assert(bit_positions_from(m, k) == seq![k] + rest);
            assert(structural_positions_in(s, base + k, hi) == seq![base + k]
                + structural_positions_in(s, base + k + 1, hi));
            assert(shift_positions(base, seq![k] + rest) =~= seq![base + k] + shift_positions(
                base,
                rest,
            ));
        } else {
            assert(bit_positions_from(m, k) == rest);
            if base + k < hi {
                assert(!is_structural(s, base + k));
                assert(structural_positions_in(s, base + k, hi) == structural_positions_in(
                    s,
                    base + k + 1,
                    hi,
                ));
            } else {
                assert(structural_positions_in(s, base + k, hi) == Seq::<int>::empty());
                assert(structural_positions_in(s, base + k + 1, hi) == Seq::<int>::empty());
            }
        }
    }
}

/// Block soundness and completeness: a bitmap that marks exactly the
/// structural bytes of the block expands to exactly the structural positions
/// of the corresponding range of the region.
pub proof fn lemma_mask_positions(m: u64, s: Seq<u8>, base: int, hi: int)
    requires
        0 <= base <= hi <= s.len(),
        hi <= base + 64,
        forall|i: int|
            0 <= i < 64 ==> #[trigger] bit64(m, i) == (base + i < hi && is_structural(s, base + i)),
    ensures
        shift_positions(base, bit_positions(m)) == structural_positions_in(s, base, hi),
{
    lemma_mask_positions_from(m, s, base, hi, 0);
}

/// Soundness of the listing: every listed position is structural.
pub proof fn lemma_structural_positions_in_sound(s: Seq<u8>, lo: int, hi: int)
    ensures
        forall|k: int|
            0 <= k < structural_positions_in(s, lo, hi).len() ==> is_structural(
                s,
                #[trigger] structural_positions_in(s, lo, hi)[k],
            ),
    decreases hi - lo,
{
    if lo < hi {
        lemma_structural_positions_in_sound(s, lo + 1, hi);
        let tail = structural_positions_in(s, lo + 1, hi);
        let whole = structural_positions_in(s, lo, hi);
        if is_structural(s, lo) {
            assert(whole == seq![lo] + tail);
            assert forall|k: int| 0 <= k < whole.len() implies is_structural(
                s,
                #[trigger] whole[k],
            ) by {
                if k > 0 {
                    assert(whole[k] == tail[k - 1]);
                }
            }
        } else {
            assert(whole == tail);
            assert forall|k: int| 0 <= k < whole.len() implies is_structural(
                s,
                #[trigger] whole[k],
            ) by {
                assert(whole[k] == tail[k]);
            }
        }
    }
}

/// The structural index of a region whose first byte is not itself
/// structural is strictly increasing, its sentinel included.
pub proof fn lemma_index_strictly_increasing(s: Seq<u8>)
    requires
        s.len() == 0 || !is_structural(s, 0),
    ensures
        ({
            let ix = seq![0int] + structural_positions(s);
            forall|k: int, l: int| 0 <= k < l < ix.len() ==> #[trigger] ix[k] < #[trigger] ix[l]
        }),
{
    let sp = structural_positions(s);
    let ix = seq![0int] + sp;
    lemma_structural_positions_in_range(s, 0, s.len() as int);
    lemma_structural_positions_in_sound(s, 0, s.len() as int);
    assert forall|k: int, l: int| 0 <= k < l < ix.len() implies #[trigger] ix[k]
        < #[trigger] ix[l] by {
        assert(ix[l] == sp[l - 1]);
        if k == 0 {
            assert(is_structural(s, sp[l - 1]));
            assert(sp[l - 1] != 0);
        } else {
            assert(ix[k] == sp[k - 1]);
        }
    }
}

/// Every index entry past the sentinel points at a delimiter byte whose
/// preceding quote count is even: it lies outside any quoted span.
pub proof fn lemma_index_entries_structural(s: Seq<u8>)
    ensures
        ({
            let ix = seq![0int] + structural_positions(s);
            forall|k: int|
                1 <= k < ix.len() ==> is_delim_byte(s[#[trigger] ix[k]]) && !quote_parity(
                    s.take(ix[k]),
                )
        }),
{
    let sp = structural_positions(s);
    let ix = seq![0int] + sp;
    lemma_structural_positions_in_sound(s, 0, s.len() as int);
    assert forall|k: int| 1 <= k < ix.len() implies is_delim_byte(s[#[trigger] ix[k]])
        && !quote_parity(s.take(ix[k])) by {
        assert(ix[k] == sp[k - 1]);
        assert(is_structural(s, sp[k - 1]));
    }
}

/// Block independence, up to the carry: whether a byte of the second part of
/// a split region is structural is decided by the part's own bytes together
/// with the quote parity of the first part alone, and the parity composes as
/// exclusive or.
pub proof fn lemma_block_independence(a: Seq<u8>, b: Seq<u8>)
    ensures
        forall|i: int|
            0 <= i < b.len() ==> (#[trigger] is_structural(a + b, a.len() + i) == (is_delim_byte(
                b[i],
            ) && !(quote_parity(a) != quote_parity(b.take(i))))),
        quote_parity(a + b) == (quote_parity(a) != quote_parity(b)),
{
    lemma_quote_parity_concat(a, b);
    assert forall|i: int| 0 <= i < b.len() implies (#[trigger] is_structural(a + b, a.len() + i)
        == (is_delim_byte(b[i]) && !(quote_parity(a) != quote_parity(b.take(i))))) by {
        assert((a + b).take(a.len() + i) =~= a + b.take(i));
        lemma_quote_parity_concat(a, b.take(i));
        assert((a + b)[a.len() as int + i] == b[i]);
    }
}

} // verus!

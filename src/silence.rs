//! Silence masks: bit `i` of a mask is set when channel `i` is known to
//! hold only zeros. Masks track the first 64 channels.
use vstd::prelude::*;

verus! {

/// The number of channels that a mask tracks.
pub const MASK_CHANNELS: usize = 64;

/// Bit `i` of `mask` is set.
pub open spec fn mask_bit(mask: u64, i: int) -> bool {
    0 <= i < 64 && (mask >> (i as u64)) & 1u64 == 1u64
}

proof fn lemma_empty_mask(t: u64)
    requires
        t < 64,
    ensures
        (0u64 >> t) & 1u64 != 1u64,
{
    assert((0u64 >> t) & 1u64 != 1u64) by (bit_vector)
        requires
            t < 64,
    ;
}

proof fn lemma_set_bit(mask: u64, k: u64, t: u64)
    requires
        k < 64,
        t < 64,
    ensures
        (((mask | (1u64 << k)) >> t) & 1u64 == 1u64) == (t == k || (mask >> t) & 1u64 == 1u64),
{
    assert((((mask | (1u64 << k)) >> t) & 1u64 == 1u64) == (t == k || (mask >> t) & 1u64 == 1u64))
        by (bit_vector)
        requires
            k < 64,
            t < 64,
    ;
}

/// The silence mask of a node's ports: bit `k` is set exactly when the
/// buffer bound to port `k` is known to be silent.
pub fn silence_mask_of(silent: &Vec<bool>, buffers: &Vec<usize>) -> (r: u64)
    requires
        forall|k: int| 0 <= k < buffers@.len() ==> #[trigger] buffers@[k] < silent@.len(),
    ensures
        forall|k: int|
            0 <= k < 64 ==> (mask_bit(r, k) <==> (k < buffers@.len() && silent@[buffers@[k] as int])),
{
    let n = if buffers.len() < MASK_CHANNELS {
        buffers.len()
    } else {
        MASK_CHANNELS
    };
    let mut mask: u64 = 0;
    let mut k: usize = 0;
    proof {
        assert forall|t: int| 0 <= t < 64 implies !mask_bit(mask, t) by {
            lemma_empty_mask(t as u64);
        }
    }
    while k < n
        invariant
            n <= buffers@.len(),
            n <= 64,
            k <= n,
            forall|kk: int| 0 <= kk < buffers@.len() ==> #[trigger] buffers@[kk] < silent@.len(),
            forall|t: int|
                0 <= t < 64 ==> (mask_bit(mask, t) <==> (t < k && silent@[buffers@[t] as int])),
        decreases n - k,
    {
        if silent[buffers[k]] {
            let ghost old_mask = mask;
            mask = mask | (1u64 << (k as u64));
            proof {
                assert forall|t: int| 0 <= t < 64 implies (mask_bit(mask, t) <==> (t < k + 1
                    && silent@[buffers@[t] as int])) by {
                    lemma_set_bit(old_mask, k as u64, t as u64);
                    assert(mask_bit(old_mask, t) <==> (t < k && silent@[buffers@[t] as int]));
                    assert(mask == old_mask | (1u64 << (k as u64)));
                    if t == k as int {
                        assert(silent@[buffers@[t] as int]);
                    }
                }
            }
        }
        k = k + 1;
    }
    mask
}

/// Records a node's output silence mask: the buffer bound to output port
/// `j` is marked silent exactly when bit `j` is set; ports past the
/// tracked channels are marked as not silent.
pub fn record_silence(silent: &mut Vec<bool>, buffers: &Vec<usize>, mask: u64)
    requires
        forall|k: int| 0 <= k < buffers@.len() ==> #[trigger] buffers@[k] < old(silent)@.len(),
        forall|k: int, l: int| 0 <= k < l < buffers@.len() ==> buffers@[k] != buffers@[l],
    ensures
        final(silent)@.len() == old(silent)@.len(),
        forall|j: int|
            0 <= j < buffers@.len() ==> final(silent)@[#[trigger] buffers@[j] as int] == mask_bit(
                mask,
                j,
            ),
        forall|b: int|
            0 <= b < old(silent)@.len() && !buffers@.contains(b as usize) ==> final(silent)@[b]
                == old(silent)@[b],
{
    let mut j: usize = 0;
    while j < buffers.len()
        invariant
            j <= buffers@.len(),
            silent@.len() == old(silent)@.len(),
            forall|k: int| 0 <= k < buffers@.len() ==> #[trigger] buffers@[k] < silent@.len(),
            forall|k: int, l: int| 0 <= k < l < buffers@.len() ==> buffers@[k] != buffers@[l],
            forall|jj: int| 0 <= jj < j ==> silent@[#[trigger] buffers@[jj] as int] == mask_bit(mask, jj),
            forall|b: int|
                0 <= b < silent@.len() && !(exists|jj: int| 0 <= jj < j && buffers@[jj] == b)
                    ==> silent@[b] == old(silent)@[b],
        decreases buffers.len() - j,
    {
        let bit = j < MASK_CHANNELS && (mask >> (j as u64)) & 1u64 == 1u64;
        let b = buffers[j];
        silent.set(b, bit);
        proof {
            assert forall|b2: int|
                0 <= b2 < silent@.len() && !(exists|jj: int| 0 <= jj < j + 1 && buffers@[jj] == b2)
                    implies silent@[b2] == old(silent)@[b2] by {
                assert(buffers@[j as int] != b2);
            }
        }
        j = j + 1;
    }
    proof {
        assert forall|b: int|
            0 <= b < old(silent)@.len() && !buffers@.contains(b as usize) implies silent@[b] == old(silent)@[b] by {
            if exists|jj: int| 0 <= jj < buffers@.len() && buffers@[jj] == b {
                let jj = choose|jj: int| 0 <= jj < buffers@.len() && buffers@[jj] == b;
                assert(buffers@.contains(buffers@[jj]));
            }
        }
    }
}

} // verus!

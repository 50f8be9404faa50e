//! Injected randomness.
//!
//! Every probabilistic decision of the engine draws from an [`Entropy`] value
//! handed in by the caller, so that behavior under fixed draws is checkable.
//! Probabilities are per-mille weights: a gate with weight [`SCALE`] always
//! passes and a gate with weight `0` never does.

use vstd::prelude::*;

verus! {

/// One probability unit: weights range over `0 ..= SCALE`.
pub const SCALE: u32 = 1000;

/// Relies on `rand::random_range`: a uniform draw from `0..n` on the thread
/// generator, which panics only on an empty range.
#[verifier::external_body]
fn system_below(n: u32) -> (r: u32)
    requires
        n >= 1,
    ensures
        r < n,
{
    rand::random_range(0..n)
}

/// A source of random draws: the operating system's generator, or a fixed
/// script of draws replayed in rotation for reproducible runs.
pub struct Entropy {
    script: Option<Vec<u32>>,
    pos: usize,
}

impl Entropy {
    /// A fresh system-backed source.
    pub fn system() -> (r: Entropy) {
        Entropy { script: None, pos: 0 }
    }

    /// A source that replays the given draws in a cycle, each reduced modulo
    /// the requested bound.
    pub fn scripted(vals: Vec<u32>) -> (r: Entropy) {
        Entropy { script: Some(vals), pos: 0 }
    }

    /// A draw below `n`.
    pub fn below(&mut self, n: u32) -> (r: u32)
        requires
            n >= 1,
        ensures
            r < n,
    {
        let r: u32;
        if let Some(vals) = &self.script {
            if vals.len() == 0 {
                r = 0;
            } else {
                let i: usize = self.pos % vals.len();
                r = vals[i] % n;
            }
        } else {
            r = system_below(n);
        }
        self.pos = if self.pos == usize::MAX {
            0
        } else {
            self.pos + 1
        };
        r
    }

    /// A draw below `n`, for totals wider than one word.
    pub fn below64(&mut self, n: u64) -> (r: u64)
        requires
            n >= 1,
        ensures
            r < n,
    {
        if n <= u32::MAX as u64 {
            self.below(n as u32) as u64
        } else {
            let hi: u64 = self.below(u32::MAX) as u64;
            let lo: u64 = self.below(u32::MAX) as u64;
            ((hi << 32) | lo) % n
        }
    }

    /// A Bernoulli trial that passes with probability `p_permille / SCALE`.
    /// A weight of zero never passes; a full weight always does.
    pub fn chance(&mut self, p_permille: u32) -> (r: bool)
        ensures
            p_permille == 0 ==> !r,
            p_permille >= SCALE ==> r,
    {
        let draw: u32 = self.below(SCALE);
        draw < p_permille
    }

    /// Picks an index with probability proportional to its weight.
    /// Returns `None` exactly when no weight is positive (in particular on an
    /// empty list) or when the total weight overflows one word.
    pub fn pick_weighted(&mut self, weights: &Vec<u32>) -> (r: Option<usize>)
        ensures
            match r {
                Some(i) => i < weights.len() && weights@[i as int] > 0,
                None => sum_weights(weights@) > u64::MAX || forall|i: int|
                    0 <= i < weights@.len() ==> weights@[i] == 0,
            },
    {
        let mut total: u64 = 0;
        let mut k: usize = 0;
        while k < weights.len()
            invariant
                k <= weights.len(),
                total == sum_weights(weights@.take(k as int)),
            decreases weights.len() - k,
        {
            proof {
                assert(weights@.take(k + 1).drop_last() =~= weights@.take(k as int));
            }
            if total > u64::MAX - weights[k] as u64 {
                proof {
                    lemma_sum_weights_monotone(weights@, k + 1);
                }
                return None;
            }
            total = total + weights[k] as u64;
            k = k + 1;
        }
        proof {
            assert(weights@.take(weights@.len() as int) =~= weights@);
        }
        if total == 0 {
            proof {
                lemma_sum_weights_zero(weights@);
            }
            return None;
        }
        let mut draw: u64 = self.below64(total);
        let mut i: usize = 0;
        proof {
            assert(weights@.skip(0) =~= weights@);
        }
        loop
            invariant
                i < weights.len(),
                draw < sum_weights(weights@.skip(i as int)),
            decreases weights.len() - i,
        {
            proof {
                lemma_sum_weights_head(weights@.skip(i as int));
                assert(weights@.skip(i as int).drop_first() =~= weights@.skip(i + 1));
            }
            if draw < weights[i] as u64 {
                return Some(i);
            }
            draw = draw - weights[i] as u64;
            i = i + 1;
            proof {
                lemma_sum_weights_nonneg(weights@.skip(i as int));
            }
        }
    }
}

/// The total of a weight list, as an unbounded integer.
pub open spec fn sum_weights(ws: Seq<u32>) -> int
    decreases ws.len(),
{
    if ws.len() == 0 {
        0
    } else {
        sum_weights(ws.drop_last()) + ws.last()
    }
}

proof fn lemma_sum_weights_zero(ws: Seq<u32>)
    requires
        sum_weights(ws) == 0,
    ensures
        forall|i: int| 0 <= i < ws.len() ==> ws[i] == 0,
    decreases ws.len(),
{
    if ws.len() > 0 {
        lemma_sum_weights_nonneg(ws.drop_last());
        lemma_sum_weights_zero(ws.drop_last());
        assert(forall|i: int| 0 <= i < ws.len() - 1 ==> ws[i] == ws.drop_last()[i]);
    }
}

proof fn lemma_sum_weights_nonneg(ws: Seq<u32>)
    ensures
        sum_weights(ws) >= 0,
    decreases ws.len(),
{
    if ws.len() > 0 {
        lemma_sum_weights_nonneg(ws.drop_last());
    }
}

proof fn lemma_sum_weights_monotone(ws: Seq<u32>, k: int)
    requires
        0 <= k <= ws.len(),
    ensures
        sum_weights(ws.take(k)) <= sum_weights(ws),
    decreases ws.len() - k,
{
    if k < ws.len() {
        lemma_sum_weights_monotone(ws, k + 1);
        assert(ws.take(k + 1).drop_last() =~= ws.take(k));
        assert(sum_weights(ws.take(k)) <= sum_weights(ws.take(k + 1)));
    } else {
        assert(ws.take(k) =~= ws);
    }
}

proof fn lemma_sum_weights_head(ws: Seq<u32>)
    requires
        ws.len() > 0,
    ensures
        sum_weights(ws) == ws[0] + sum_weights(ws.drop_first()),
    decreases ws.len(),
{
    if ws.len() == 1 {
        assert(ws.drop_first() =~= ws.drop_last());
    } else {
        lemma_sum_weights_head(ws.drop_last());
        assert(ws.drop_last().drop_first() =~= ws.drop_first().drop_last());
        assert(ws.drop_first().last() == ws.last());
        assert(ws.drop_last()[0] == ws[0]);
    }
}

} // verus!

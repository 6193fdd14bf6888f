use vstd::prelude::*;

use crate::error::FsError;
use crate::model::{lemma_size_additive, lemma_size_monotone, saturate, total, Node};
use crate::tree::Directory;

verus! {

/// Largest total size of a directory that the threshold-sum query counts.
pub const SMALL_DIRECTORY_LIMIT: u64 = 100_000;

/// Space that may stay in use once a directory is deleted.
pub const USABLE_CAPACITY: u64 = 40_000_000;

/// Sum of the sizes of the directories in `n` (itself included) whose size is
/// below `threshold`.
pub open spec fn small_total(n: Node, threshold: u64) -> nat
    decreases n, 1int,
{
    let own: nat = if n.size() < threshold {
        n.size()
    } else {
        0
    };
    own + total(small_parts(n, threshold))
}

/// `small_total` of each subdirectory, in order.
pub open spec fn small_parts(n: Node, threshold: u64) -> Seq<nat>
    decreases n, 0int,
{
    Seq::new(
        n.children.len(),
        |i: int|
            if 0 <= i < n.children.len() {
                small_total(n.children[i], threshold)
            } else {
                0
            },
    )
}

pub open spec fn min_opt(a: Option<u64>, b: Option<u64>) -> Option<u64> {
    match (a, b) {
        (Some(x), Some(y)) => Some(
            if x <= y {
                x
            } else {
                y
            },
        ),
        (Some(x), None) => Some(x),
        (None, _) => b,
    }
}

/// The least of the present values, if any.
pub open spec fn min_of(s: Seq<Option<u64>>) -> Option<u64>
    decreases s.len(),
{
    if s.len() == 0 {
        None
    } else {
        min_opt(min_of(s.drop_last()), s.last())
    }
}

/// The least (clamped) size among the directories in `n`, itself included,
/// whose size is at least `bound`.
pub open spec fn smallest_at_least(n: Node, bound: u64) -> Option<u64>
    decreases n, 1int,
{
    let s = saturate(n.size());
    let own = if s >= bound {
        Some(s)
    } else {
        None
    };
    min_opt(own, min_of(candidates_below(n, bound)))
}

/// `smallest_at_least` of each subdirectory, in order.
pub open spec fn candidates_below(n: Node, bound: u64) -> Seq<Option<u64>>
    decreases n, 0int,
{
    Seq::new(
        n.children.len(),
        |i: int|
            if 0 <= i < n.children.len() {
                smallest_at_least(n.children[i], bound)
            } else {
                None
            },
    )
}

proof fn lemma_min_of_none(s: Seq<Option<u64>>)
    requires
        forall|i: int| 0 <= i < s.len() ==> #[trigger] s[i] is None,
    ensures
        min_of(s) is None,
    decreases s.len(),
{
    if s.len() > 0 {
        lemma_min_of_none(s.drop_last());
    }
}

/// A directory smaller than the bound has no qualifying directory below it,
/// so a search may skip its subdirectories.
pub proof fn lemma_below_bound_prunes(n: Node, bound: u64)
    requires
        saturate(n.size()) < bound,
    ensures
        smallest_at_least(n, bound) is None,
    decreases n,
{
    let c = candidates_below(n, bound);
    assert forall|i: int| 0 <= i < c.len() implies #[trigger] c[i] is None by {
        lemma_size_monotone(n, i);
        lemma_below_bound_prunes(n.children[i], bound);
    }
    lemma_min_of_none(c);
}

/// A directory whose own size reaches the bound is itself a candidate, so the
/// search finds one no larger than that size.
pub proof fn lemma_root_qualifies(n: Node, bound: u64)
    requires
        saturate(n.size()) >= bound,
    ensures
        smallest_at_least(n, bound) is Some,
        smallest_at_least(n, bound)->0 <= saturate(n.size()),
{
}

/// Both queries depend on the tree alone: two trees that stand for the same
/// node give the same answers, so asking again on an unchanged tree (the
/// queries take it by shared reference) repeats the first answers.
pub proof fn lemma_queries_deterministic(a: Node, b: Node, threshold: u64, bound: u64)
    requires
        a == b,
    ensures
        small_total(a, threshold) == small_total(b, threshold),
        smallest_at_least(a, bound) == smallest_at_least(b, bound),
{
}

impl Directory {
    /// Sum of the sizes of all directories here and below (this one included)
    /// whose size is below `threshold`, clamped to the range of `u64`.
    pub fn sum_of_small_directories(&self, threshold: u64) -> (r: u64)
        ensures
            r == saturate(small_total(self@, threshold)),
        decreases self@,
    {
        let s = self.get_size();
        let mut acc: u64 = if s < threshold {
            s
        } else {
            0
        };
        let ghost own: nat = if self@.size() < threshold {
            self@.size()
        } else {
            0
        };
        let ghost parts = small_parts(self@, threshold);
        let subs = self.sub_directories();
        let mut j: usize = 0;
        while j < subs.len()
            invariant
                j <= subs@.len(),
                subs@.len() == self@.children.len(),
                forall|t: int| 0 <= t < subs@.len() ==> #[trigger] subs@[t]@ == self@.children[t],
                parts == small_parts(self@, threshold),
                acc == saturate(own + total(parts.take(j as int))),
            decreases subs@.len() - j,
        {
            proof {
                assert(parts.take(j + 1).drop_last() =~= parts.take(j as int));
            }
            let v = subs[j].sum_of_small_directories(threshold);
            acc = acc.saturating_add(v);
            j = j + 1;
        }
        proof {
            assert(parts.take(j as int) =~= parts);
        }
        acc
    }

    /// The least size among the directories here and below (this one
    /// included) whose size is at least `bound`, if there is one.
    pub fn smallest_size_at_least(&self, bound: u64) -> (r: Option<u64>)
        ensures
            r == smallest_at_least(self@, bound),
        decreases self@,
    {
        let s = self.get_size();
        if s < bound {
            proof {
                lemma_below_bound_prunes(self@, bound);
            }
            return None;
        }
        let mut best: u64 = s;
        let ghost c = candidates_below(self@, bound);
        let subs = self.sub_directories();
        let mut j: usize = 0;
        while j < subs.len()
            invariant
                j <= subs@.len(),
                subs@.len() == self@.children.len(),
                forall|t: int| 0 <= t < subs@.len() ==> #[trigger] subs@[t]@ == self@.children[t],
                c == candidates_below(self@, bound),
                Some(best) == min_opt(Some(s), min_of(c.take(j as int))),
            decreases subs@.len() - j,
        {
            proof {
                assert(c.take(j + 1).drop_last() =~= c.take(j as int));
            }
            match subs[j].smallest_size_at_least(bound) {
                Some(v) => {
                    if v < best {
                        best = v;
                    }
                },
                None => {},
            }
            j = j + 1;
        }
        proof {
            assert(c.take(j as int) =~= c);
        }
        Some(best)
    }

    /// The size of the smallest directory whose deletion brings the total
    /// down to `capacity`; refused when the total is already below it.
    pub fn smallest_deletion_candidate(&self, capacity: u64) -> (r: Result<u64, FsError>)
        ensures
            r is Err <==> saturate(self@.size()) < capacity,
            r is Err ==> r == Err::<u64, FsError>(FsError::CapacityNotExceeded),
            r matches Ok(v) ==> Some(v) == smallest_at_least(
                self@,
                (saturate(self@.size()) - capacity) as u64,
            ),
    {
        let total_size = self.get_size();
        if total_size < capacity {
            return Err(FsError::CapacityNotExceeded);
        }
        let required = total_size - capacity;
        match self.smallest_size_at_least(required) {
            Some(v) => Ok(v),
            None => {
                proof {
                    lemma_root_qualifies(self@, required);
                }
                Err(FsError::CapacityNotExceeded)
            },
        }
    }
}

} // verus!

//! The settings of a batch of blackboard trials.
use std::ops::Range;
use vstd::prelude::*;

verus! {

/// The sizes `start, start + 1, ..., end`: the range's end is included.
pub open spec fn inclusive_sizes(start: u32, end: u32) -> Seq<u32> {
    Seq::new(
        if start <= end {
            (end - start + 1) as nat
        } else {
            0
        },
        |i: int| (start + i) as u32,
    )
}

/// The sizes listed in `sizes` when there is such a list, else those of `range` with its
/// end included.
pub open spec fn chosen_sizes(sizes: Option<Vec<u32>>, range: Option<Range<u32>>) -> Seq<u32> {
    match sizes {
        Some(v) => v@,
        None => inclusive_sizes(range->0.start, range->0.end),
    }
}

/// The sizes listed in `sizes`, or those of `range` with its end included.
pub fn sizes_or_range(sizes: &Option<Vec<u32>>, range: &Option<Range<u32>>) -> (r: Vec<u32>)
    requires
        sizes.is_some() || range.is_some(),
    ensures
        r@ == chosen_sizes(*sizes, *range),
{
    match sizes {
        Some(v) => {
            let mut r: Vec<u32> = Vec::new();
            let mut i: usize = 0;
            while i < v.len()
                invariant
                    i <= v@.len(),
                    r@ == v@.take(i as int),
                decreases v@.len() - i,
            {
                r.push(v[i]);
                i = i + 1;
                assert(r@ =~= v@.take(i as int));
            }
            assert(v@.take(v@.len() as int) =~= v@);
            r
        },
        None => {
            let (start, end) = match range {
                Some(rg) => (rg.start, rg.end),
                None => (0, 0),
            };
            let mut r: Vec<u32> = Vec::new();
            if start <= end {
                let mut x: u64 = start as u64;
                while x <= end as u64
                    invariant
                        start <= end,
                        start <= x <= end as u64 + 1,
                        r@ == inclusive_sizes(start, end).take(x - start),
                    decreases end as u64 + 1 - x,
                {
                    r.push(x as u32);
                    x = x + 1;
                    assert(r@ =~= inclusive_sizes(start, end).take(x - start));
                }
                assert(inclusive_sizes(start, end).take(end - start + 1) =~= inclusive_sizes(start, end));
            } else {
                assert(inclusive_sizes(start, end) =~= Seq::<u32>::empty());
            }
            r
        },
    }
}

/// The settings of a batch of blackboard trials: the population sizes and board
/// capacities to try (each as a list or as a range with its end included), how often
/// to repeat each pair, and where and how to write the results.
#[derive(Debug, Clone)]
pub struct BlackboardConfigData {
    pub group_sizes: Option<Vec<u32>>,
    pub blackboard_sizes: Option<Vec<u32>>,
    pub group_range: Option<Range<u32>>,
    pub blackboard_range: Option<Range<u32>>,
    pub n_repeat: u32,
    pub output: String,
    pub use_threads: bool,
    pub flush_frequency: u32,
    pub compute_phi: bool,
}

impl BlackboardConfigData {
    /// Replaces each range of sizes by the list it stands for, so that both size lists
    /// are present.
    pub fn standardize(&mut self)
        requires
            old(self).group_sizes.is_some() || old(self).group_range.is_some(),
            old(self).blackboard_sizes.is_some() || old(self).blackboard_range.is_some(),
        ensures
            final(self).group_sizes matches Some(v) && v@ == chosen_sizes(
                old(self).group_sizes,
                old(self).group_range,
            ),
            final(self).blackboard_sizes matches Some(v) && v@ == chosen_sizes(
                old(self).blackboard_sizes,
                old(self).blackboard_range,
            ),
            final(self).group_range == old(self).group_range,
            final(self).blackboard_range == old(self).blackboard_range,
            final(self).n_repeat == old(self).n_repeat,
            final(self).output == old(self).output,
            final(self).use_threads == old(self).use_threads,
            final(self).flush_frequency == old(self).flush_frequency,
            final(self).compute_phi == old(self).compute_phi,
    {
        let group_sizes = sizes_or_range(&self.group_sizes, &self.group_range);
        let blackboard_sizes = sizes_or_range(&self.blackboard_sizes, &self.blackboard_range);
        self.group_sizes = Some(group_sizes);
        self.blackboard_sizes = Some(blackboard_sizes);
    }
}

} // verus!

//! The configuration that a run starts from and the counts that it reports.

use vstd::prelude::*;

verus! {

/// The fixed parameters of a run: how many partitions the tokens are spread
/// over and how many bytes a chunk nominally holds. Both are positive.
#[derive(Debug, Clone, Copy)]
pub struct Config {
    partitions: usize,
    chunk_size: usize,
}

impl Config {
    #[verifier::type_invariant]
    spec fn inv(self) -> bool {
        self.partitions > 0 && self.chunk_size > 0
    }

    /// Number of partitions.
    pub closed spec fn parts(&self) -> nat {
        self.partitions as nat
    }

    /// Nominal chunk size in bytes.
    pub closed spec fn size(&self) -> nat {
        self.chunk_size as nat
    }

    /// The configuration with these parameters; `None` where the partition
    /// count or the chunk size is zero.
    pub fn new(partitions: usize, chunk_size: usize) -> (config: Option<Config>)
        ensures
            match config {
                Some(c) => partitions > 0 && chunk_size > 0 && c.parts() == partitions && c.size()
                    == chunk_size,
                None => partitions == 0 || chunk_size == 0,
            },
    {
        if partitions == 0 || chunk_size == 0 {
            None
        } else {
            Some(Config { partitions, chunk_size })
        }
    }

    /// Number of partitions.
    pub fn partitions(&self) -> (n: usize)
        ensures
            n == self.parts(),
            n > 0,
    {
        proof {
            use_type_invariant(self);
        }
        self.partitions
    }

    /// Nominal chunk size in bytes.
    pub fn chunk_size(&self) -> (n: usize)
        ensures
            n == self.size(),
            n > 0,
    {
        proof {
            use_type_invariant(self);
        }
        self.chunk_size
    }
}

/// A count that stops at the largest number a `u64` holds.
pub open spec fn saturated(n: nat) -> u64 {
    if n > u64::MAX {
        u64::MAX
    } else {
        n as u64
    }
}

/// What a run reports: the tokens it processed, the distinct tokens it
/// wrote, and the units of input it had to skip. Each count stops at the
/// largest number a `u64` holds.
#[derive(Debug, Clone, Copy, PartialEq, Eq, Structural)]
pub struct Report {
    /// Tokens met in the input, repetitions included.
    pub total_tokens: u64,
    /// Distinct tokens written to the output.
    pub distinct_tokens: u64,
    /// Files or chunks that could not be read and were left out.
    pub skipped_units: u64,
}

impl Report {
    /// A report of a run in which nothing has happened yet.
    pub fn new() -> (report: Report)
        ensures
            report == (Report { total_tokens: 0, distinct_tokens: 0, skipped_units: 0 }),
    {
        Report { total_tokens: 0, distinct_tokens: 0, skipped_units: 0 }
    }

    /// Counts `n` more tokens as processed.
    pub fn add_tokens(&mut self, n: usize)
        ensures
            final(self).total_tokens == saturated(old(self).total_tokens as nat + n as nat),
            final(self).distinct_tokens == old(self).distinct_tokens,
            final(self).skipped_units == old(self).skipped_units,
    {
        self.total_tokens = self.total_tokens.saturating_add(n as u64);
    }

    /// Counts one more unit of input as skipped.
    pub fn add_skipped(&mut self)
        ensures
            final(self).skipped_units == saturated(old(self).skipped_units as nat + 1),
            final(self).total_tokens == old(self).total_tokens,
            final(self).distinct_tokens == old(self).distinct_tokens,
    {
        self.skipped_units = self.skipped_units.saturating_add(1);
    }

    /// Records that `n` distinct tokens were written.
    pub fn set_distinct(&mut self, n: usize)
        ensures
            final(self).distinct_tokens == saturated(n as nat),
            final(self).total_tokens == old(self).total_tokens,
            final(self).skipped_units == old(self).skipped_units,
    {
        self.distinct_tokens = n as u64;
    }

    /// Adds the counts of `other`, the report of another part of the run.
    pub fn absorb(&mut self, other: &Report)
        ensures
            final(self).total_tokens == saturated(
                old(self).total_tokens as nat + other.total_tokens as nat,
            ),
            final(self).distinct_tokens == saturated(
                old(self).distinct_tokens as nat + other.distinct_tokens as nat,
            ),
            final(self).skipped_units == saturated(
                old(self).skipped_units as nat + other.skipped_units as nat,
            ),
    {
        self.total_tokens = self.total_tokens.saturating_add(other.total_tokens);
        self.distinct_tokens = self.distinct_tokens.saturating_add(other.distinct_tokens);
        self.skipped_units = self.skipped_units.saturating_add(other.skipped_units);
    }

    /// Whether input was skipped. This is a warning: the run has not failed.
    pub fn has_warning(&self) -> (warn: bool)
        ensures
            warn == (self.skipped_units > 0),
    {
        self.skipped_units > 0
    }
}

/// Counting in two steps stops where counting in one step does.
pub proof fn lemma_saturated_sum(a: nat, b: nat)
    ensures
        saturated(saturated(a) as nat + b) == saturated(a + b),
{
}

} // verus!

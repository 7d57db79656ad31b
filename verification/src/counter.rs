//! Operation counters.

use vstd::prelude::*;

verus! {

/// A counter after one more event: it wraps to zero past `u64::MAX`.
pub open spec fn bumped(c: u64) -> u64 {
    if c == u64::MAX {
        0
    } else {
        (c + 1) as u64
    }
}

/// Counts one more event.
pub fn bump(c: u64) -> (r: u64)
    ensures
        r == bumped(c),
{
    if c == u64::MAX {
        0
    } else {
        c + 1
    }
}

/// `bumped` applied `n` times.
pub open spec fn bumped_by(c: u64, n: nat) -> u64
    decreases n,
{
    if n == 0 {
        c
    } else {
        bumped(bumped_by(c, (n - 1) as nat))
    }
}

/// A `usize` counter after one more event: it wraps to zero past `usize::MAX`.
pub open spec fn bumped_usize(c: usize) -> usize {
    if c == usize::MAX {
        0
    } else {
        (c + 1) as usize
    }
}

/// Counts one more event on a `usize` counter.
pub fn bump_usize(c: usize) -> (r: usize)
    ensures
        r == bumped_usize(c),
{
    if c == usize::MAX {
        0
    } else {
        c + 1
    }
}

/// `bumped_usize` applied `n` times.
pub open spec fn bumped_usize_by(c: usize, n: nat) -> usize
    decreases n,
{
    if n == 0 {
        c
    } else {
        bumped_usize(bumped_usize_by(c, (n - 1) as nat))
    }
}

} // verus!

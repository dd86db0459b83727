//! Static partition of a node collection among workers.
//!
//! The nodes `0..len` are cut into `workers` contiguous slices. Every slice
//! but the last holds `len / workers` nodes; the last one also takes the
//! remainder.

use std::ops::Range;
use vstd::prelude::*;

verus! {

/// Workers to start on a machine that offers `available` hardware threads:
/// one thread is left free, and at least one worker runs.
pub open spec fn spec_worker_count(available: nat) -> nat {
    if available > 1 {
        (available - 1) as nat
    } else {
        1
    }
}

/// First node of slice `e`.
pub open spec fn slice_start(len: nat, workers: nat, e: nat) -> nat
    recommends
        workers >= 1,
        e < workers,
{
    e * (len / workers)
}

/// One past the last node of slice `e`.
pub open spec fn slice_end(len: nat, workers: nat, e: nat) -> nat
    recommends
        workers >= 1,
        e < workers,
{
    if e + 1 == workers {
        len
    } else {
        (e + 1) * (len / workers)
    }
}

/// The slice that node `i` falls into.
pub open spec fn owner(len: nat, workers: nat, i: nat) -> nat
    recommends
        workers >= 1,
        i < len,
{
    if len / workers == 0 || i / (len / workers) >= workers {
        (workers - 1) as nat
    } else {
        i / (len / workers)
    }
}

/// Node `i` lies in slice `e`.
pub open spec fn in_slice(len: nat, workers: nat, e: nat, i: nat) -> bool {
    slice_start(len, workers, e) <= i < slice_end(len, workers, e)
}

/// The slices are well-formed, start at node 0, follow one another without a
/// gap and end at node `len`.
pub proof fn lemma_slices_are_contiguous(len: nat, workers: nat, e: nat)
    requires
        workers >= 1,
        e < workers,
    ensures
        slice_start(len, workers, 0) == 0,
        slice_start(len, workers, e) <= slice_end(len, workers, e) <= len,
        e + 1 < workers ==> slice_end(len, workers, e) == slice_start(len, workers, e + 1),
        e + 1 == workers ==> slice_end(len, workers, e) == len,
{
    let q = len / workers;
    assert(q * workers <= len) by (nonlinear_arith)
        requires
            q == len / workers,
            workers >= 1,
    ;
    assert(e * q <= (e + 1) * q) by (nonlinear_arith);
    assert((e + 1) * q <= workers * q) by (nonlinear_arith)
        requires
            e + 1 <= workers,
    ;
    assert(workers * q == q * workers) by (nonlinear_arith);
}

/// Every node belongs to exactly one slice: node `i` lies in slice `e` if and
/// only if `e` is the owner of `i`.
pub proof fn lemma_partition_covers_once(len: nat, workers: nat, e: nat, i: nat)
    requires
        workers >= 1,
        e < workers,
        i < len,
    ensures
        owner(len, workers, i) < workers,
        in_slice(len, workers, e, i) <==> e == owner(len, workers, i),
{
    let q = len / workers;
    if q == 0 {
        assert(e * q == 0) by (nonlinear_arith)
            requires
                q == 0,
        ;
        assert((e + 1) * q == 0) by (nonlinear_arith)
            requires
                q == 0,
        ;
    } else {
        let d = i / q;
        assert(d * q <= i < (d + 1) * q) by (nonlinear_arith)
            requires
                d == i / q,
                q > 0,
        ;
        if e * q <= i {
            assert(e <= d) by (nonlinear_arith)
                requires
                    e * q <= i,
                    i < (d + 1) * q,
                    q > 0,
            ;
        } else {
            assert(e > d) by (nonlinear_arith)
                requires
                    e * q > i,
                    d * q <= i,
                    q > 0,
            ;
        }
        if i < (e + 1) * q {
            assert(d <= e) by (nonlinear_arith)
                requires
                    i < (e + 1) * q,
                    d * q <= i,
                    q > 0,
            ;
        } else {
            assert(d > e) by (nonlinear_arith)
                requires
                    i >= (e + 1) * q,
                    i < (d + 1) * q,
                    q > 0,
            ;
        }
    }
}

/// Number of workers for `available` hardware threads.
pub fn worker_count(available: usize) -> (workers: usize)
    ensures
        workers == spec_worker_count(available as nat),
        workers >= 1,
{
    if available > 1 {
        available - 1
    } else {
        1
    }
}

/// Cuts the nodes `0..len` into `workers` contiguous slices, in order.
pub fn partition(len: usize, workers: usize) -> (ranges: Vec<Range<usize>>)
    requires
        workers >= 1,
    ensures
        ranges@.len() == workers,
        forall|e: int|
            0 <= e < workers ==> (#[trigger] ranges@[e]).start == slice_start(
                len as nat,
                workers as nat,
                e as nat,
            ) && ranges@[e].end == slice_end(len as nat, workers as nat, e as nat),
{
    let slice_len: usize = len / workers;
    let mut ranges: Vec<Range<usize>> = Vec::new();
    let mut e: usize = 0;
    while e < workers
        invariant
            workers >= 1,
            e <= workers,
            slice_len == len / workers,
            ranges@.len() == e,
            forall|k: int|
                0 <= k < e ==> (#[trigger] ranges@[k]).start == slice_start(
                    len as nat,
                    workers as nat,
                    k as nat,
                ) && ranges@[k].end == slice_end(len as nat, workers as nat, k as nat),
        decreases workers - e,
    {
        proof {
            lemma_slices_are_contiguous(len as nat, workers as nat, e as nat);
        }
        let start: usize = e * slice_len;
        let end: usize = if e == workers - 1 {
            len
        } else {
            (e + 1) * slice_len
        };
        ranges.push(Range { start, end });
        e += 1;
    }
    ranges
}

} // verus!

//! The step protocol of a worker.
//!
//! A run advances the layout by a number of steps. In each step a worker
//! first computes the new position of every node of its slice from the
//! positions as they stand (the read phase), then waits for its peers, then
//! writes the new positions (the commit phase), then waits again. A worker
//! waits twice per step whatever its slice holds, so all workers of a run
//! meet at the same points.

use crate::partition::{
    lemma_partition_covers_once, lemma_slices_are_contiguous, owner, partition, slice_end,
    slice_start,
};
use std::ops::Range;
use vstd::prelude::*;

verus! {

/// What a worker does next.
#[derive(Clone, Copy, Debug, PartialEq, Eq)]
pub enum Action {
    /// Begin a step: forget the change measured in the step before.
    Begin,
    /// Compute the new position of the node and keep it aside.
    Compute { node: usize },
    /// Wait until every worker of the run has come this far.
    Await,
    /// Write the new position of the node that was kept aside.
    Commit { node: usize },
    /// The run is over.
    Finish,
}

/// The part of a step a worker stands in.
#[derive(Clone, Copy, Debug, PartialEq, Eq)]
enum Stage {
    Begin,
    Read,
    Write,
}

/// `Compute` for the nodes `from..to`, in order.
pub open spec fn computes(from: nat, to: nat) -> Seq<Action> {
    Seq::new((to - from) as nat, |k: int| Action::Compute { node: (from + k) as usize })
}

/// `Commit` for the nodes `from..to`, in order.
pub open spec fn commits(from: nat, to: nat) -> Seq<Action> {
    Seq::new((to - from) as nat, |k: int| Action::Commit { node: (from + k) as usize })
}

/// One step of a worker whose slice is `start..end`.
pub open spec fn round(start: nat, end: nat) -> Seq<Action> {
    seq![Action::Begin] + computes(start, end) + seq![Action::Await] + commits(start, end)
        + seq![Action::Await]
}

/// Everything a worker whose slice is `start..end` does in a run of `steps`
/// steps.
pub open spec fn program(start: nat, end: nat, steps: nat) -> Seq<Action>
    decreases steps,
{
    if steps == 0 {
        seq![Action::Finish]
    } else {
        round(start, end) + program(start, end, (steps - 1) as nat)
    }
}

/// How often a worker waits in `actions`.
pub open spec fn awaits(actions: Seq<Action>) -> nat
    decreases actions.len(),
{
    if actions.len() == 0 {
        0
    } else {
        awaits(actions.drop_last()) + if actions.last() == Action::Await {
            1nat
        } else {
            0nat
        }
    }
}

/// What is left of a step for a worker that stands in `stage` at `node`.
spec fn rest_of_round(start: nat, end: nat, stage: Stage, node: nat) -> Seq<Action> {
    match stage {
        Stage::Begin => round(start, end),
        Stage::Read => computes(node, end) + seq![Action::Await] + commits(start, end)
            + seq![Action::Await],
        Stage::Write => commits(node, end) + seq![Action::Await],
    }
}

/// A run of no steps is no work: nothing is computed and nothing is written.
pub proof fn lemma_no_steps_no_work(start: nat, end: nat)
    ensures
        program(start, end, 0) == seq![Action::Finish],
{
}

/// The shape of a step: it begins, computes every node of the slice once
/// and in order, waits, commits every node of the slice once and in order,
/// and waits again.
pub proof fn lemma_round_shape(start: nat, end: nat)
    requires
        start <= end,
    ensures
        round(start, end).len() == 2 * (end - start) + 3,
        round(start, end)[0] == Action::Begin,
        forall|k: int|
            0 <= k < end - start ==> #[trigger] round(start, end)[1 + k] == (Action::Compute {
                node: (start + k) as usize,
            }),
        round(start, end)[1 + (end - start)] == Action::Await,
        forall|k: int|
            0 <= k < end - start ==> #[trigger] round(start, end)[2 + (end - start) + k] == (
            Action::Commit { node: (start + k) as usize }),
        round(start, end)[2 * (end - start) + 2] == Action::Await,
{
}

/// A step touches the nodes of the slice and no others: it computes a node,
/// and commits it, if and only if the node lies in the slice.
pub proof fn lemma_round_stays_in_slice(start: nat, end: nat, node: usize)
    requires
        start <= end <= usize::MAX,
    ensures
        round(start, end).contains(Action::Compute { node }) <==> start <= node < end,
        round(start, end).contains(Action::Commit { node }) <==> start <= node < end,
{
    let actions = round(start, end);
    lemma_round_shape(start, end);
    let n = end - start;
    if start <= node < end {
        assert(actions[1 + (node - start)] == Action::Compute { node });
        assert(actions[2 + n + (node - start)] == Action::Commit { node });
    }
    if actions.contains(Action::Compute { node }) {
        let k = choose|k: int| 0 <= k < actions.len() && actions[k] == Action::Compute { node };
        if 1 <= k < 1 + n {
            assert(actions[1 + (k - 1)] == Action::Compute { node: (start + (k - 1)) as usize });
        } else if 2 + n <= k < 2 + 2 * n {
            assert(actions[2 + n + (k - 2 - n)] == Action::Commit {
                node: (start + (k - 2 - n)) as usize,
            });
        }
    }
    if actions.contains(Action::Commit { node }) {
        let k = choose|k: int| 0 <= k < actions.len() && actions[k] == Action::Commit { node };
        if 1 <= k < 1 + n {
            assert(actions[1 + (k - 1)] == Action::Compute { node: (start + (k - 1)) as usize });
        } else if 2 + n <= k < 2 + 2 * n {
            assert(actions[2 + n + (k - 2 - n)] == Action::Commit {
                node: (start + (k - 2 - n)) as usize,
            });
        }
    }
}

/// Among the workers of a partition, each node has exactly one that computes
/// and commits it in a step: the worker of the slice that owns the node.
pub proof fn lemma_each_node_has_one_worker(len: nat, workers: nat, e: nat, node: usize)
    requires
        workers >= 1,
        e < workers,
        node < len <= usize::MAX,
    ensures
        round(slice_start(len, workers, e), slice_end(len, workers, e)).contains(
            Action::Compute { node },
        ) <==> e == owner(len, workers, node as nat),
        round(slice_start(len, workers, e), slice_end(len, workers, e)).contains(
            Action::Commit { node },
        ) <==> e == owner(len, workers, node as nat),
{
    lemma_slices_are_contiguous(len, workers, e);
    lemma_partition_covers_once(len, workers, e, node as nat);
    lemma_round_stays_in_slice(
        slice_start(len, workers, e),
        slice_end(len, workers, e),
        node,
    );
}

/// A program is its steps, one after another, and then `Finish`: the action
/// at place `at` of step `step` is the action at place `at` of a round.
pub proof fn lemma_program_shape(start: nat, end: nat, steps: nat, step: nat, at: int)
    requires
        start <= end,
        step < steps,
        0 <= at < round(start, end).len(),
    ensures
        program(start, end, steps).len() == steps * round(start, end).len() + 1,
        program(start, end, steps)[step * round(start, end).len() + at] == round(start, end)[at],
        program(start, end, steps).last() == Action::Finish,
    decreases steps,
{
    let len = round(start, end).len();
    let rest = program(start, end, (steps - 1) as nat);
    lemma_program_length(start, end, (steps - 1) as nat);
    assert(steps * len == len + (steps - 1) * len) by (nonlinear_arith);
    if step > 0 {
        lemma_program_shape(start, end, (steps - 1) as nat, (step - 1) as nat, at);
        assert(step * len == len + (step - 1) * len) by (nonlinear_arith);
        assert((step - 1) * len + at < (steps - 1) * len) by (nonlinear_arith)
            requires
                step < steps,
                0 <= at < len,
                step >= 1,
        ;
    } else {
        assert(step * len == 0) by (nonlinear_arith)
            requires
                step == 0,
        ;
    }
    if steps > 1 {
        lemma_program_shape(start, end, (steps - 1) as nat, 0, 0);
    }
}

/// The length of a program.
pub proof fn lemma_program_length(start: nat, end: nat, steps: nat)
    ensures
        program(start, end, steps).len() == steps * round(start, end).len() + 1,
    decreases steps,
{
    let len = round(start, end).len();
    if steps > 0 {
        lemma_program_length(start, end, (steps - 1) as nat);
        assert(steps * len == len + (steps - 1) * len) by (nonlinear_arith);
    } else {
        assert(steps * len == 0) by (nonlinear_arith)
            requires
                steps == 0,
        ;
    }
}

/// Waiting adds up over a concatenation.
pub proof fn lemma_awaits_add(first: Seq<Action>, second: Seq<Action>)
    ensures
        awaits(first + second) == awaits(first) + awaits(second),
    decreases second.len(),
{
    if second.len() == 0 {
        assert(first + second =~= first);
    } else {
        lemma_awaits_add(first, second.drop_last());
        assert((first + second).drop_last() =~= first + second.drop_last());
    }
}

/// Computing never waits.
pub proof fn lemma_computes_never_wait(from: nat, to: nat)
    requires
        from <= to,
    ensures
        awaits(computes(from, to)) == 0,
    decreases to - from,
{
    if to > from {
        lemma_computes_never_wait(from, (to - 1) as nat);
        assert(computes(from, to).drop_last() =~= computes(from, (to - 1) as nat));
        assert(computes(from, to).last() == Action::Compute { node: (to - 1) as usize });
    }
}

/// Committing never waits.
pub proof fn lemma_commits_never_wait(from: nat, to: nat)
    requires
        from <= to,
    ensures
        awaits(commits(from, to)) == 0,
    decreases to - from,
{
    if to > from {
        lemma_commits_never_wait(from, (to - 1) as nat);
        assert(commits(from, to).drop_last() =~= commits(from, (to - 1) as nat));
        assert(commits(from, to).last() == Action::Commit { node: (to - 1) as usize });
    }
}

/// Every worker waits twice in each step, whatever its slice holds: the
/// workers of a run, which all take the same number of steps, wait equally
/// often.
pub proof fn lemma_workers_wait_alike(start: nat, end: nat, steps: nat)
    requires
        start <= end,
    ensures
        awaits(program(start, end, steps)) == 2 * steps,
    decreases steps,
{
    let wait = seq![Action::Await];
    assert(awaits(wait) == 1) by {
        assert(wait.drop_last() =~= Seq::<Action>::empty());
        assert(awaits(wait.drop_last()) == 0);
    }
    if steps == 0 {
        let finish = seq![Action::Finish];
        assert(finish.drop_last() =~= Seq::<Action>::empty());
        assert(awaits(finish.drop_last()) == 0);
    } else {
        let begin = seq![Action::Begin];
        assert(awaits(begin) == 0) by {
            assert(begin.drop_last() =~= Seq::<Action>::empty());
            assert(awaits(begin.drop_last()) == 0);
        }
        lemma_computes_never_wait(start, end);
        lemma_commits_never_wait(start, end);
        lemma_awaits_add(begin, computes(start, end));
        lemma_awaits_add(begin + computes(start, end), wait);
        lemma_awaits_add(begin + computes(start, end) + wait, commits(start, end));
        lemma_awaits_add(begin + computes(start, end) + wait + commits(start, end), wait);
        lemma_workers_wait_alike(start, end, (steps - 1) as nat);
        lemma_awaits_add(round(start, end), program(start, end, (steps - 1) as nat));
    }
}

/// A worker of a run: it hands out, one by one, the actions of its program.
#[derive(Debug)]
pub struct Worker {
    start: usize,
    end: usize,
    steps_left: usize,
    stage: Stage,
    node: usize,
}

impl Worker {
    #[verifier::type_invariant]
    spec fn inv(&self) -> bool {
        &&& self.start <= self.end
        &&& self.stage != Stage::Begin ==> self.start <= self.node <= self.end
    }

    /// The slice of the worker.
    pub closed spec fn spec_slice(&self) -> Range<usize> {
        Range { start: self.start, end: self.end }
    }

    /// The actions that are still to come, `Finish` being the last.
    pub closed spec fn remaining(&self) -> Seq<Action> {
        if self.steps_left == 0 {
            seq![Action::Finish]
        } else {
            rest_of_round(self.start as nat, self.end as nat, self.stage, self.node as nat)
                + program(self.start as nat, self.end as nat, (self.steps_left - 1) as nat)
        }
    }

    /// A worker for the nodes of `slice` in a run of `steps` steps. A slice
    /// that ends before it starts holds no node.
    pub fn new(slice: Range<usize>, steps: usize) -> (worker: Self)
        ensures
            worker.spec_slice().start == slice.start,
            worker.spec_slice().end == if slice.end < slice.start {
                slice.start
            } else {
                slice.end
            },
            worker.remaining() == program(
                worker.spec_slice().start as nat,
                worker.spec_slice().end as nat,
                steps as nat,
            ),
    {
        let end: usize = if slice.end < slice.start {
            slice.start
        } else {
            slice.end
        };
        Worker { start: slice.start, end, steps_left: steps, stage: Stage::Begin, node: slice.start }
    }

    /// The slice of the worker: every node that it computes or commits lies
    /// in it.
    pub fn slice(&self) -> (slice: Range<usize>)
        ensures
            slice == self.spec_slice(),
            slice.start <= slice.end,
    {
        proof {
            use_type_invariant(self);
        }
        Range { start: self.start, end: self.end }
    }

    /// Hands out the next action. Once the program is through, the answer
    /// stays `Finish`.
    pub fn next(&mut self) -> (action: Action)
        ensures
            final(self).spec_slice() == old(self).spec_slice(),
            action == old(self).remaining().first(),
            final(self).remaining() == if action == Action::Finish {
                old(self).remaining()
            } else {
                old(self).remaining().drop_first()
            },
    {
        proof {
            use_type_invariant(&*self);
        }
        if self.steps_left == 0 {
            return Action::Finish;
        }
        let ghost start = self.start as nat;
        let ghost end = self.end as nat;
        let ghost later = program(start, end, (self.steps_left - 1) as nat);
        let ghost wait = seq![Action::Await];
        match self.stage {
            Stage::Begin => {
                self.node = self.start;
                self.stage = Stage::Read;
                proof {
                    assert((round(start, end) + later).drop_first() =~= computes(start, end) + wait
                        + commits(start, end) + wait + later);
                }
                Action::Begin
            },
            Stage::Read => {
                if self.node < self.end {
                    let node: usize = self.node;
                    self.node = node + 1;
                    proof {
                        let before = computes(node as nat, end) + wait + commits(start, end) + wait
                            + later;
                        assert(before.first() == Action::Compute { node });
                        assert(before.drop_first() =~= computes((node + 1) as nat, end) + wait
                            + commits(start, end) + wait + later);
                    }
                    Action::Compute { node }
                } else {
                    self.stage = Stage::Write;
                    self.node = self.start;
                    proof {
                        let before = computes(end, end) + wait + commits(start, end) + wait + later;
                        assert(before.first() == Action::Await);
                        assert(before.drop_first() =~= commits(start, end) + wait + later);
                    }
                    Action::Await
                }
            },
            Stage::Write => {
                if self.node < self.end {
                    let node: usize = self.node;
                    self.node = node + 1;
                    proof {
                        let before = commits(node as nat, end) + wait + later;
                        assert(before.first() == Action::Commit { node });
                        assert(before.drop_first() =~= commits((node + 1) as nat, end) + wait
                            + later);
                    }
                    Action::Commit { node }
                } else {
                    self.stage = Stage::Begin;
                    self.steps_left = self.steps_left - 1;
                    proof {
                        let before = commits(end, end) + wait + later;
                        assert(before.first() == Action::Await);
                        assert(before.drop_first() =~= later);
                    }
                    Action::Await
                }
            },
        }
    }
}

/// The workers of a run of `steps` steps over `len` nodes: one for each
/// slice of the partition among `workers` workers, in the order of the
/// slices.
pub fn assign(len: usize, workers: usize, steps: usize) -> (crew: Vec<Worker>)
    requires
        workers >= 1,
    ensures
        crew@.len() == workers,
        forall|e: int|
            0 <= e < workers ==> {
                &&& (#[trigger] crew@[e]).spec_slice().start == slice_start(
                    len as nat,
                    workers as nat,
                    e as nat,
                )
                &&& crew@[e].spec_slice().end == slice_end(len as nat, workers as nat, e as nat)
                &&& crew@[e].remaining() == program(
                    slice_start(len as nat, workers as nat, e as nat),
                    slice_end(len as nat, workers as nat, e as nat),
                    steps as nat,
                )
            },
{
    let slices = partition(len, workers);
    let mut crew: Vec<Worker> = Vec::new();
    let mut e: usize = 0;
    while e < workers
        invariant
            e <= workers,
            workers >= 1,
            slices@.len() == workers,
            forall|k: int|
                0 <= k < workers ==> (#[trigger] slices@[k]).start == slice_start(
                    len as nat,
                    workers as nat,
                    k as nat,
                ) && slices@[k].end == slice_end(len as nat, workers as nat, k as nat),
            crew@.len() == e,
            forall|k: int|
                0 <= k < e ==> {
                    &&& (#[trigger] crew@[k]).spec_slice().start == slice_start(
                        len as nat,
                        workers as nat,
                        k as nat,
                    )
                    &&& crew@[k].spec_slice().end == slice_end(
                        len as nat,
                        workers as nat,
                        k as nat,
                    )
                    &&& crew@[k].remaining() == program(
                        slice_start(len as nat, workers as nat, k as nat),
                        slice_end(len as nat, workers as nat, k as nat),
                        steps as nat,
                    )
                },
        decreases workers - e,
    {
        proof {
            lemma_slices_are_contiguous(len as nat, workers as nat, e as nat);
        }
        let slice = Range { start: slices[e].start, end: slices[e].end };
        crew.push(Worker::new(slice, steps));
        e += 1;
    }
    crew
}

} // verus!

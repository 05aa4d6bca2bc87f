//! What a concurrent run may produce.
//!
//! Workers take the operations of their own input in order, but the
//! accumulator sees the operations of different inputs in whatever order
//! the workers reach it. A schedule records that order as the sequence of
//! inputs whose turn it was. Every run of workers over the same inputs
//! follows some schedule, and the values that schedules lead to are the
//! only ones a correct run can end with.

use vstd::prelude::*;
use crate::accumulator::Calculator;
use crate::operation::{eval_all, Operation};
use crate::runner::{sequential_value, task_operations, FileTask};

verus! {

/// How many steps of `order` are turns of input number `file`.
pub open spec fn turns(order: Seq<usize>, file: int) -> nat
    decreases order.len(),
{
    if order.len() == 0 {
        0
    } else {
        turns(order.drop_last(), file) + if order.last() == file {
            1nat
        } else {
            0nat
        }
    }
}

/// Whether `order` is a schedule of `files`: every step names an input,
/// and every input gets as many turns as it has operations.
pub open spec fn is_schedule(order: Seq<usize>, files: Seq<Seq<Operation>>) -> bool {
    &&& forall|k: int| 0 <= k < order.len() ==> #[trigger] order[k] < files.len()
    &&& forall|f: int| 0 <= f < files.len() ==> turns(order, f) == #[trigger] files[f].len()
}

/// The operations in the order in which `order` takes them: each turn of
/// an input takes the first operation of it that has not been taken yet.
pub open spec fn interleaved(order: Seq<usize>, files: Seq<Seq<Operation>>) -> Seq<Operation>
    decreases order.len(),
{
    if order.len() == 0 {
        Seq::empty()
    } else {
        let before = order.drop_last();
        let file = order.last() as int;
        interleaved(before, files).push(files[file][turns(before, file) as int])
    }
}

/// Whether some schedule of `files` leads from `start` to `value`.
pub open spec fn reachable(start: u8, files: Seq<Seq<Operation>>, value: u8) -> bool {
    exists|order: Seq<usize>| #[trigger]
        is_schedule(order, files) && eval_all(start, interleaved(order, files)) == value
}

/// The operations of each input, as sequences.
pub open spec fn file_views(files: Seq<Vec<Operation>>) -> Seq<Seq<Operation>> {
    files.map_values(|file: Vec<Operation>| file@)
}

/// An input has had no more turns after part of the steps than after all
/// of them.
pub proof fn lemma_turns_monotonic(order: Seq<usize>, k: int, file: int)
    requires
        0 <= k <= order.len(),
    ensures
        turns(order.take(k), file) <= turns(order, file),
    decreases order.len() - k,
{
    if k == order.len() {
        assert(order.take(k) == order);
    } else {
        lemma_turns_monotonic(order.drop_last(), k, file);
        assert(order.drop_last().take(k) == order.take(k));
    }
}

/// `n` turns in a row of input number `file`.
pub open spec fn steps_of(file: usize, n: nat) -> Seq<usize> {
    Seq::new(n, |i: int| file)
}

/// The schedule that lets every input run to its end before the next one
/// starts, the inputs in the order given.
pub open spec fn in_order(files: Seq<Seq<Operation>>) -> Seq<usize>
    decreases files.len(),
{
    if files.len() == 0 {
        Seq::empty()
    } else {
        in_order(files.drop_last()) + steps_of((files.len() - 1) as usize, files.last().len())
    }
}

/// The turns of an input over two runs of steps add up.
pub proof fn lemma_turns_concat(first: Seq<usize>, second: Seq<usize>, file: int)
    ensures
        turns(first + second, file) == turns(first, file) + turns(second, file),
    decreases second.len(),
{
    if second.len() == 0 {
        assert(first + second == first);
    } else {
        lemma_turns_concat(first, second.drop_last(), file);
        assert((first + second).drop_last() == first + second.drop_last());
        assert((first + second).last() == second.last());
    }
}

/// A row of turns of one input holds turns of no other.
pub proof fn lemma_turns_of_steps(file: usize, n: nat, other: int)
    ensures
        turns(steps_of(file, n), other) == if other == file {
            n
        } else {
            0
        },
    decreases n,
{
    if n > 0 {
        lemma_turns_of_steps(file, (n - 1) as nat, other);
        assert(steps_of(file, n).drop_last() == steps_of(file, (n - 1) as nat));
    }
}

/// A row of turns of one input, after any steps, takes the next
/// operations of that input in order.
pub proof fn lemma_interleaved_steps(
    order: Seq<usize>,
    file: usize,
    n: nat,
    files: Seq<Seq<Operation>>,
)
    requires
        file < files.len(),
        turns(order, file as int) + n <= files[file as int].len(),
    ensures
        interleaved(order + steps_of(file, n), files) == interleaved(order, files)
            + files[file as int].subrange(
            turns(order, file as int) as int,
            (turns(order, file as int) + n) as int,
        ),
    decreases n,
{
    let from = turns(order, file as int) as int;
    if n == 0 {
        assert(order + steps_of(file, n) == order);
        assert(interleaved(order, files) + files[file as int].subrange(from, from)
            == interleaved(order, files));
    } else {
        let m = (n - 1) as nat;
        let whole = order + steps_of(file, n);
        let shorter = order + steps_of(file, m);
        lemma_interleaved_steps(order, file, m, files);
        lemma_turns_concat(order, steps_of(file, m), file as int);
        lemma_turns_of_steps(file, m, file as int);
        assert(whole.drop_last() == shorter);
        assert(whole.last() == file);
        assert(files[file as int].subrange(from, from + n) == files[file as int].subrange(
            from,
            from + m,
        ).push(files[file as int][from + m]));
        assert(interleaved(whole, files) == interleaved(shorter, files).push(
            files[file as int][from + m],
        ));
    }
}

/// Steps that name only the first `m` inputs take the same operations
/// whether or not further inputs stand behind those.
pub proof fn lemma_interleaved_prefix(order: Seq<usize>, files: Seq<Seq<Operation>>, m: int)
    requires
        0 <= m <= files.len(),
        forall|k: int| 0 <= k < order.len() ==> #[trigger] order[k] < m,
    ensures
        interleaved(order, files) == interleaved(order, files.take(m)),
    decreases order.len(),
{
    if order.len() > 0 {
        let before = order.drop_last();
        assert forall|k: int| 0 <= k < before.len() implies #[trigger] before[k] < m by {
            assert(before[k] == order[k]);
        }
        lemma_interleaved_prefix(before, files, m);
        assert(order[order.len() - 1] < m);
        assert(files.take(m)[order.last() as int] == files[order.last() as int]);
    }
}

/// Letting the inputs run one after the other is a schedule, and it takes
/// the operations of the first input, then those of the second, and so on.
pub proof fn lemma_in_order_is_schedule(files: Seq<Seq<Operation>>)
    requires
        files.len() <= usize::MAX,
    ensures
        is_schedule(in_order(files), files),
        forall|f: int| f >= files.len() ==> turns(in_order(files), f) == 0,
        interleaved(in_order(files), files) == files.flatten(),
    decreases files.len(),
{
    if files.len() == 0 {
        assert forall|f: int| f >= files.len() implies turns(in_order(files), f) == 0 by {}
        assert(files.flatten() == Seq::<Operation>::empty());
    } else {
        let prefix = files.drop_last();
        let last = (files.len() - 1) as usize;
        let head = in_order(prefix);
        let tail = steps_of(last, files.last().len());
        lemma_in_order_is_schedule(prefix);
        assert forall|k: int| 0 <= k < in_order(files).len() implies #[trigger] in_order(
            files,
        )[k] < files.len() by {
            if k < head.len() {
                assert(in_order(files)[k] == head[k]);
            }
        }
        assert forall|f: int| true implies turns(in_order(files), f) == if 0 <= f < files.len() {
            files[f].len()
        } else if f >= files.len() {
            0
        } else {
            turns(in_order(files), f)
        } by {
            lemma_turns_concat(head, tail, f);
            lemma_turns_of_steps(last, files.last().len(), f);
            if 0 <= f < prefix.len() {
                assert(prefix[f] == files[f]);
            }
        }
        assert(turns(head, last as int) == 0);
        lemma_interleaved_steps(head, last, files.last().len(), files);
        assert(files[last as int].subrange(0, files.last().len() as int) == files.last());
        lemma_interleaved_prefix(head, files, prefix.len() as int);
        assert(files.take(prefix.len() as int) == prefix);
        assert(files == prefix.push(files.last()));
        prefix.lemma_flatten_push(files.last());
    }
}

/// The value of the in-order run is one that a concurrent run may end
/// with: running the inputs one after the other is one of the schedules.
pub proof fn lemma_in_order_is_reachable(start: u8, files: Seq<Seq<Operation>>)
    requires
        files.len() <= usize::MAX,
    ensures
        reachable(start, files, eval_all(start, files.flatten())),
{
    lemma_in_order_is_schedule(files);
    assert(is_schedule(in_order(files), files));
}

/// With a single input, a schedule has no choice: it takes the operations
/// of that input in their order.
pub proof fn lemma_single_file_schedule(order: Seq<usize>, files: Seq<Seq<Operation>>)
    requires
        files.len() == 1,
        is_schedule(order, files),
    ensures
        interleaved(order, files) == files[0],
{
    lemma_single_file_prefix(order, files, order.len() as int);
    assert(order.take(order.len() as int) == order);
    assert(files[0].take(files[0].len() as int) == files[0]);
}

/// With a single input, the first `k` steps of a schedule take its first
/// `k` operations.
proof fn lemma_single_file_prefix(order: Seq<usize>, files: Seq<Seq<Operation>>, k: int)
    requires
        files.len() == 1,
        is_schedule(order, files),
        0 <= k <= order.len(),
    ensures
        turns(order.take(k), 0) == k,
        k <= files[0].len(),
        interleaved(order.take(k), files) == files[0].take(k),
    decreases k,
{
    lemma_turns_monotonic(order, k, 0);
    if k > 0 {
        lemma_single_file_prefix(order, files, k - 1);
        let steps = order.take(k);
        assert(steps.drop_last() == order.take(k - 1));
        assert(steps.last() == order[k - 1]);
        assert(order[k - 1] < files.len());
        assert(files[0].take(k) == files[0].take(k - 1).push(files[0][k - 1]));
    } else {
        assert(files[0].take(0) == Seq::<Operation>::empty());
    }
}

/// With a single input, a concurrent run can end with one value only: the
/// one that running the input from start to end gives.
pub proof fn lemma_single_file_reachable(start: u8, files: Seq<Seq<Operation>>, value: u8)
    requires
        files.len() == 1,
    ensures
        reachable(start, files, value) <==> value == eval_all(start, files[0]),
{
    if reachable(start, files, value) {
        let order = choose|order: Seq<usize>| #[trigger]
            is_schedule(order, files) && eval_all(start, interleaved(order, files)) == value;
        lemma_single_file_schedule(order, files);
    }
    if value == eval_all(start, files[0]) {
        lemma_in_order_is_reachable(start, files);
        files.lemma_flatten_singleton();
    }
}


/// With a single input, every concurrent run ends with the value of the
/// in-order run.
pub proof fn lemma_single_input_agrees(start: u8, tasks: Seq<FileTask>, value: u8)
    requires
        tasks.len() == 1,
    ensures
        reachable(start, task_operations(tasks), value) <==> value == sequential_value(
            start,
            tasks,
        ),
{
    let files = task_operations(tasks);
    lemma_single_file_reachable(start, files, value);
    files.lemma_flatten_singleton();
}

/// The in-order run of several inputs ends with a value that a concurrent
/// run over them may end with too.
pub proof fn lemma_sequential_is_reachable(start: u8, tasks: Seq<FileTask>)
    requires
        tasks.len() <= usize::MAX,
    ensures
        reachable(start, task_operations(tasks), sequential_value(start, tasks)),
{
    lemma_in_order_is_reachable(start, task_operations(tasks));
}

/// Follows `order` over `files` from `start`: step by step, the input
/// whose turn it is gives its next operation to the accumulator. Returns
/// the value reached, or nothing where `order` is no schedule of `files`.
pub fn replay(start: u8, files: &Vec<Vec<Operation>>, order: &Vec<usize>) -> (res: Option<u8>)
    ensures
        res is Some <==> is_schedule(order@, file_views(files@)),
        res is Some ==> res == Some(eval_all(start, interleaved(order@, file_views(files@)))),
        res is Some ==> reachable(start, file_views(files@), res->0),
{
    let ghost views = file_views(files@);
    let mut taken: Vec<usize> = Vec::new();
    let mut f: usize = 0;
    while f < files.len()
        invariant
            f <= files.len(),
            taken@.len() == f,
            forall|g: int| 0 <= g < f ==> #[trigger] taken@[g] == 0,
        decreases files.len() - f,
    {
        taken.push(0);
        f = f + 1;
    }
    let mut calc = Calculator::with_value(start);
    let mut k: usize = 0;
    while k < order.len()
        invariant
            k <= order.len(),
            views == file_views(files@),
            taken@.len() == files@.len(),
            forall|j: int| 0 <= j < k ==> #[trigger] order@[j] < files@.len(),
            forall|g: int|
                0 <= g < files@.len() ==> #[trigger] taken@[g] == turns(order@.take(k as int), g),
            forall|g: int| 0 <= g < files@.len() ==> #[trigger] taken@[g] <= views[g].len(),
            calc@ == eval_all(start, interleaved(order@.take(k as int), views)),
        decreases order.len() - k,
    {
        let file: usize = order[k];
        if file >= files.len() {
            return None;
        }
        let ghost before = order@.take(k as int);
        let ghost next = order@.take(k + 1);
        proof {
            assert(next.drop_last() == before);
            assert(next.last() == file);
            assert(views[file as int] == files@[file as int]@);
        }
        let at: usize = taken[file];
        if at >= files[file].len() {
            proof {
                assert(turns(next, file as int) == at + 1);
                lemma_turns_monotonic(order@, k + 1, file as int);
                assert(turns(order@, file as int) > views[file as int].len());
            }
            return None;
        }
        let _ = calc.apply(files[file][at]);
        taken.set(file, at + 1);
        proof {
            let done = interleaved(before, views);
            let op = views[file as int][at as int];
            assert(interleaved(next, views) == done.push(op));
            assert(done.push(op).drop_last() == done);
            assert forall|g: int| 0 <= g < files@.len() implies #[trigger] taken@[g] == turns(
                next,
                g,
            ) by {
                if g != file {
                    assert(turns(next, g) == turns(before, g));
                }
            }
        }
        k = k + 1;
    }
    assert(order@.take(k as int) == order@);
    let mut g: usize = 0;
    while g < files.len()
        invariant
            g <= files.len(),
            views == file_views(files@),
            taken@.len() == files@.len(),
            forall|h: int| 0 <= h < files@.len() ==> #[trigger] taken@[h] == turns(order@, h),
            forall|h: int| 0 <= h < g ==> turns(order@, h) == #[trigger] views[h].len(),
        decreases files.len() - g,
    {
        assert(views[g as int] == files@[g as int]@);
        if taken[g] != files[g].len() {
            assert(turns(order@, g as int) != views[g as int].len());
            return None;
        }
        g = g + 1;
    }
    assert(is_schedule(order@, views));
    Some(calc.value())
}

} // verus!

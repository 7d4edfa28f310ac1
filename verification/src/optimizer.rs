//! Coalescing of runs of single-step operations.
//!
//! A program is read as a succession of maximal runs: a run of `Inc(1)` and
//! `Dec(1)`, a run of `Next(1)` and `Prev(1)`, or a single operation of any
//! other form, which is a barrier. A run is replaced by at most one counted
//! operation with the run's net effect; a barrier stays as it is.

use vstd::prelude::*;
use vstd::seq_lib::lemma_concat_associative;
use crate::ops::Op;

verus! {

/// The two kinds of run that are coalesced.
#[derive(Debug, PartialEq, Eq, Clone, Copy, Structural)]
pub enum RunKind {
    /// Changes of the current cell.
    Cell,
    /// Moves of the tape pointer.
    Move,
}

/// What `op` contributes to a run of kind `kind`: `1` or `-1` for the two
/// single-step operations of that kind, `0` for every other operation.
pub open spec fn unit_delta(kind: RunKind, op: Op) -> int {
    match kind {
        RunKind::Cell => if op == Op::Inc(1) {
            1
        } else if op == Op::Dec(1) {
            -1
        } else {
            0
        },
        RunKind::Move => if op == Op::Next(1) {
            1
        } else if op == Op::Prev(1) {
            -1
        } else {
            0
        },
    }
}

/// Whether `op` is a single-step operation of kind `kind`.
pub open spec fn is_unit(kind: RunKind, op: Op) -> bool {
    unit_delta(kind, op) != 0
}

/// The kind of run that `op` belongs to; `None` for a barrier, which is
/// coalesced with none of its neighbours.
pub open spec fn run_kind(op: Op) -> Option<RunKind> {
    if is_unit(RunKind::Cell, op) {
        Some(RunKind::Cell)
    } else if is_unit(RunKind::Move, op) {
        Some(RunKind::Move)
    } else {
        None
    }
}

/// The index just past the maximal run of kind `kind` that starts at `from`
/// (`from` itself where no such run starts there).
pub open spec fn run_end(kind: RunKind, ops: Seq<Op>, from: int) -> int
    decreases ops.len() - from,
{
    if 0 <= from < ops.len() && is_unit(kind, ops[from]) {
        run_end(kind, ops, from + 1)
    } else {
        from
    }
}

/// The net effect of the operations in `[from, to)` on a run of kind `kind`.
pub open spec fn net_delta(kind: RunKind, ops: Seq<Op>, from: int, to: int) -> int
    decreases to - from,
{
    if from < to {
        net_delta(kind, ops, from, to - 1) + unit_delta(kind, ops[to - 1])
    } else {
        0
    }
}

/// What a run of kind `kind` with net effect `delta` is replaced by: nothing
/// where the run cancels out, else one counted operation in the direction of
/// `delta`. A cell count is the magnitude reduced modulo 256.
pub open spec fn emit(kind: RunKind, delta: int) -> Seq<Op> {
    if delta == 0 {
        Seq::empty()
    } else {
        match kind {
            RunKind::Cell => if delta > 0 {
                seq![Op::Inc((delta % 256) as u8)]
            } else {
                seq![Op::Dec(((-delta) % 256) as u8)]
            },
            RunKind::Move => if delta > 0 {
                seq![Op::Next(delta as usize)]
            } else {
                seq![Op::Prev((-delta) as usize)]
            },
        }
    }
}

/// A run ends beyond its first operation and within the program.
pub proof fn lemma_run_end_bounds(kind: RunKind, ops: Seq<Op>, from: int)
    requires
        0 <= from <= ops.len(),
    ensures
        from <= run_end(kind, ops, from) <= ops.len(),
        from < ops.len() && is_unit(kind, ops[from]) ==> from < run_end(kind, ops, from),
        forall|j: int| from <= j < run_end(kind, ops, from) ==> is_unit(kind, #[trigger] ops[j]),
        run_end(kind, ops, from) < ops.len() ==> !is_unit(kind, ops[run_end(kind, ops, from)]),
    decreases ops.len() - from,
{
    if from < ops.len() && is_unit(kind, ops[from]) {
        lemma_run_end_bounds(kind, ops, from + 1);
    }
}

/// The coalesced form of `ops[from..]`, read as maximal runs from `from` on.
pub open spec fn optimize_from(ops: Seq<Op>, from: int) -> Seq<Op>
    decreases ops.len() - from,
{
    if from < 0 || from >= ops.len() {
        Seq::empty()
    } else {
        match run_kind(ops[from]) {
            Some(kind) => {
                let end = run_end(kind, ops, from);
                proof {
                    lemma_run_end_bounds(kind, ops, from);
                }
                emit(kind, net_delta(kind, ops, from, end)) + optimize_from(ops, end)
            },
            None => seq![ops[from]] + optimize_from(ops, from + 1),
        }
    }
}

/// The coalesced form of a whole program.
pub open spec fn optimize_spec(ops: Seq<Op>) -> Seq<Op> {
    optimize_from(ops, 0)
}

/// A stretch of single-step operations of one kind that is followed by an
/// operation of another form, or by the end of the program, is a maximal
/// run.
pub proof fn lemma_run_end_is(kind: RunKind, ops: Seq<Op>, from: int, to: int)
    requires
        0 <= from <= to <= ops.len(),
        forall|j: int| from <= j < to ==> is_unit(kind, #[trigger] ops[j]),
        to < ops.len() ==> !is_unit(kind, ops[to]),
    ensures
        run_end(kind, ops, from) == to,
    decreases to - from,
{
    if from < to {
        lemma_run_end_is(kind, ops, from + 1, to);
    }
}

/// The net effect of a stretch is no larger than the stretch is long.
pub proof fn lemma_net_delta_bounds(kind: RunKind, ops: Seq<Op>, from: int, to: int)
    requires
        from <= to,
    ensures
        -(to - from) <= net_delta(kind, ops, from, to) <= to - from,
    decreases to - from,
{
    if from < to {
        lemma_net_delta_bounds(kind, ops, from, to - 1);
    }
}

/// The net effect of a stretch is the sum of the net effects of its parts.
pub proof fn lemma_net_delta_split(kind: RunKind, ops: Seq<Op>, from: int, mid: int, to: int)
    requires
        from <= mid <= to,
    ensures
        net_delta(kind, ops, from, to) == net_delta(kind, ops, from, mid) + net_delta(
            kind,
            ops,
            mid,
            to,
        ),
    decreases to - mid,
{
    if mid < to {
        lemma_net_delta_split(kind, ops, from, mid, to - 1);
    }
}

/// Where a maximal run of kind `kind` fills `[start, at)`, the coalesced
/// form from `start` on is the run's replacement followed by the coalesced
/// form from `at` on.
pub proof fn lemma_optimize_from_run(kind: RunKind, ops: Seq<Op>, start: int, at: int)
    requires
        0 <= start < at <= ops.len(),
        forall|j: int| start <= j < at ==> is_unit(kind, #[trigger] ops[j]),
        at < ops.len() ==> !is_unit(kind, ops[at]),
    ensures
        optimize_from(ops, start) == emit(kind, net_delta(kind, ops, start, at)) + optimize_from(
            ops,
            at,
        ),
{
    lemma_run_end_is(kind, ops, start, at);
}

/// The coalesced form is no longer than what it was made from.
pub proof fn lemma_optimize_len(ops: Seq<Op>, from: int)
    requires
        0 <= from <= ops.len(),
    ensures
        optimize_from(ops, from).len() <= ops.len() - from,
    decreases ops.len() - from,
{
    if from < ops.len() {
        match run_kind(ops[from]) {
            Some(kind) => {
                lemma_run_end_bounds(kind, ops, from);
                lemma_optimize_len(ops, run_end(kind, ops, from));
            },
            None => {
                lemma_optimize_len(ops, from + 1);
            },
        }
    }
}

/// A program that is one run is replaced by the run's net effect alone.
pub proof fn lemma_optimize_single_run(kind: RunKind, ops: Seq<Op>)
    requires
        forall|j: int| 0 <= j < ops.len() ==> is_unit(kind, #[trigger] ops[j]),
    ensures
        optimize_spec(ops) == emit(kind, net_delta(kind, ops, 0, ops.len() as int)),
{
    if ops.len() > 0 {
        lemma_optimize_from_run(kind, ops, 0, ops.len() as int);
    }
}

/// The net effect of `ups` increments followed by `downs` decrements is
/// `ups - downs`.
pub proof fn lemma_net_delta_ups_downs(ops: Seq<Op>, ups: nat, downs: nat, to: int)
    requires
        ops.len() == ups + downs,
        forall|j: int| 0 <= j < ups ==> #[trigger] ops[j] == Op::Inc(1),
        forall|j: int| ups <= j < ups + downs ==> #[trigger] ops[j] == Op::Dec(1),
        0 <= to <= ups + downs,
    ensures
        net_delta(RunKind::Cell, ops, 0, to) == if to <= ups {
            to
        } else {
            ups - (to - ups)
        },
    decreases to,
{
    if to > 0 {
        lemma_net_delta_ups_downs(ops, ups, downs, to - 1);
    }
}

/// A run of `k` increments is replaced by the single operation `Inc` with
/// the count `k` modulo 256.
pub proof fn lemma_increment_run(ops: Seq<Op>, k: nat)
    requires
        k > 0,
        ops.len() == k,
        forall|j: int| 0 <= j < k ==> #[trigger] ops[j] == Op::Inc(1),
    ensures
        optimize_spec(ops) == seq![Op::Inc((k % 256) as u8)],
{
    lemma_net_delta_ups_downs(ops, k, 0, k as int);
    lemma_optimize_single_run(RunKind::Cell, ops);
}

/// A run of increments followed at once by as many decrements is replaced
/// by nothing.
pub proof fn lemma_cancelling_run(ops: Seq<Op>, k: nat)
    requires
        ops.len() == k + k,
        forall|j: int| 0 <= j < k ==> #[trigger] ops[j] == Op::Inc(1),
        forall|j: int| k <= j < k + k ==> #[trigger] ops[j] == Op::Dec(1),
    ensures
        optimize_spec(ops) == Seq::<Op>::empty(),
{
    lemma_net_delta_ups_downs(ops, k, k, (k + k) as int);
    lemma_optimize_single_run(RunKind::Cell, ops);
}

/// The state of the coalescing scan between two operations.
#[derive(Debug, PartialEq, Eq, Clone, Copy, Structural)]
pub enum Pending {
    /// No run is open.
    Idle,
    /// A run of kind `kind` is open; `delta` is its net effect so far.
    Run { kind: RunKind, delta: i128 },
}

impl Pending {
    /// The net effect of an open run is small enough to be the count of one
    /// operation, and to take one step more.
    pub open spec fn wf(self) -> bool {
        self matches Pending::Run { delta, .. } ==> -(usize::MAX as int) <= delta
            <= usize::MAX as int
    }

    /// The operations that closing this state adds to the output.
    pub open spec fn emitted(self) -> Seq<Op> {
        match self {
            Pending::Idle => Seq::empty(),
            Pending::Run { kind, delta } => emit(kind, delta as int),
        }
    }

    /// Whether this state is the one the scan is in at index `at`, where the
    /// open run, if any, began at `start`.
    spec fn covers(self, ops: Seq<Op>, start: int, at: int) -> bool {
        match self {
            Pending::Idle => start == at,
            Pending::Run { kind, delta } => {
                &&& start < at
                &&& forall|j: int| start <= j < at ==> is_unit(kind, #[trigger] ops[j])
                &&& delta == net_delta(kind, ops, start, at)
            },
        }
    }
}

/// Closes the open run, if any: appends to `out` the one operation that
/// stands for it, or nothing where the run cancels out.
pub fn flush(pending: Pending, out: &mut Vec<Op>)
    requires
        pending.wf(),
    ensures
        final(out)@ == old(out)@ + pending.emitted(),
{
    match pending {
        Pending::Idle => {},
        Pending::Run { kind, delta } => {
            if delta != 0 {
                let magnitude: i128 = if delta > 0 {
                    delta
                } else {
                    -delta
                };
                let op = match kind {
                    RunKind::Cell => {
                        let count: u8 = (magnitude % 256) as u8;
                        if delta > 0 {
                            Op::Inc(count)
                        } else {
                            Op::Dec(count)
                        }
                    },
                    RunKind::Move => {
                        let count: usize = magnitude as usize;
                        if delta > 0 {
                            Op::Next(count)
                        } else {
                            Op::Prev(count)
                        }
                    },
                };
                out.push(op);
            }
        },
    }
}

/// The single step that `op` adds to a run, with the run's kind; `None`
/// for a barrier.
pub fn unit_of(op: Op) -> (unit: Option<(RunKind, i128)>)
    ensures
        match unit {
            Some((kind, step)) => run_kind(op) == Some(kind) && step == unit_delta(kind, op),
            None => run_kind(op) is None,
        },
{
    match op {
        Op::Inc(n) => if n == 1 {
            Some((RunKind::Cell, 1))
        } else {
            None
        },
        Op::Dec(n) => if n == 1 {
            Some((RunKind::Cell, -1))
        } else {
            None
        },
        Op::Next(n) => if n == 1 {
            Some((RunKind::Move, 1))
        } else {
            None
        },
        Op::Prev(n) => if n == 1 {
            Some((RunKind::Move, -1))
        } else {
            None
        },
        _ => None,
    }
}

/// Closes the run that the scan holds open at index `at`, where the run
/// ends: what has been written, followed by the coalesced form of what is
/// still to be read, stays the coalesced form of the whole.
fn close_run(
    pending: Pending,
    out: &mut Vec<Op>,
    Ghost(ops): Ghost<Seq<Op>>,
    Ghost(start): Ghost<int>,
    Ghost(at): Ghost<int>,
)
    requires
        0 <= start <= at <= ops.len() <= usize::MAX,
        pending.covers(ops, start, at),
        pending matches Pending::Run { kind, .. } ==> at == ops.len() || !is_unit(kind, ops[at]),
        optimize_spec(ops) == old(out)@ + optimize_from(ops, start),
    ensures
        optimize_spec(ops) == final(out)@ + optimize_from(ops, at),
{
    proof {
        if let Pending::Run { kind, delta } = pending {
            lemma_net_delta_bounds(kind, ops, start, at);
            lemma_optimize_from_run(kind, ops, start, at);
        }
        lemma_concat_associative(out@, pending.emitted(), optimize_from(ops, at));
    }
    flush(pending, out);
}

/// Rewrites a program into its coalesced form.
///
/// Every maximal run of single cell steps, and every maximal run of single
/// pointer steps, becomes one counted operation with the same net effect,
/// or nothing where the run cancels out. All other operations are kept, in
/// their order.
pub fn optimize(ops: Vec<Op>) -> (out: Vec<Op>)
    ensures
        out@ == optimize_spec(ops@),
        out@.len() <= ops@.len(),
{
    proof {
        lemma_optimize_len(ops@, 0);
    }
    let mut out: Vec<Op> = Vec::new();
    let mut pending = Pending::Idle;
    let ghost mut start: int = 0;
    let mut i: usize = 0;
    while i < ops.len()
        invariant
            0 <= start <= i <= ops.len(),
            pending.covers(ops@, start, i as int),
            optimize_spec(ops@) == out@ + optimize_from(ops@, start),
        decreases ops.len() - i,
    {
        let op = ops[i];
        match unit_of(op) {
            Some((kind, step)) => {
                match pending {
                    Pending::Run { kind: open, delta } if open == kind => {
                        proof {
                            lemma_net_delta_bounds(kind, ops@, start, i as int);
                        }
                        pending = Pending::Run { kind, delta: delta + step };
                    },
                    _ => {
                        close_run(pending, &mut out, Ghost(ops@), Ghost(start), Ghost(i as int));
                        pending = Pending::Run { kind, delta: step };
                        proof {
                            start = i as int;
                            assert(net_delta(kind, ops@, start, start) == 0);
                        }
                    },
                }
            },
            None => {
                close_run(pending, &mut out, Ghost(ops@), Ghost(start), Ghost(i as int));
                proof {
                    lemma_concat_associative(out@, seq![op], optimize_from(ops@, i + 1));
                    start = i + 1;
                }
                out.push(op);
                pending = Pending::Idle;
            },
        }
        i += 1;
    }
    close_run(pending, &mut out, Ghost(ops@), Ghost(start), Ghost(i as int));
    out
}

} // verus!

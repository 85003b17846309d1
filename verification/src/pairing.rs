//! One column at a time.
//!
//! While a column is active, a pressed key connects it to a row. Were a
//! second column active at the same moment, a row could no longer tell the
//! two apart. This module proves that the requests of a scan never allow
//! that: a column is deactivated before the next one is activated, and a scan
//! that runs to its end activates and deactivates every column exactly once.

use vstd::prelude::*;
use crate::scan::Call;
use crate::scan::Ending;
use crate::scan::Scan;
use crate::scan::column_pass;
use crate::scan::passes;
use crate::scan::reads;

verus! {

/// How many of `calls` ask for column `col` to be activated.
pub open spec fn activations(calls: Seq<Call>, col: int) -> nat
    decreases calls.len(),
{
    if calls.len() == 0 {
        0
    } else {
        let earlier: nat = activations(calls.drop_last(), col);
        match calls.last() {
            Call::Enable { col: c, .. } if c == col => earlier + 1,
            _ => earlier,
        }
    }
}

/// How many of `calls` ask for column `col` to be deactivated.
pub open spec fn deactivations(calls: Seq<Call>, col: int) -> nat
    decreases calls.len(),
{
    if calls.len() == 0 {
        0
    } else {
        let earlier: nat = deactivations(calls.drop_last(), col);
        match calls.last() {
            Call::Disable { col: c, .. } if c == col => earlier + 1,
            _ => earlier,
        }
    }
}

/// The columns that may be active once `calls` have been served, when the
/// columns in `start` may have been active before.
///
/// A request to activate a column makes the column active; where the driver
/// failed, the column may be active all the same. A request to deactivate a
/// column clears it only where the driver succeeded.
pub open spec fn active_from(start: Set<int>, calls: Seq<Call>) -> Set<int>
    decreases calls.len(),
{
    if calls.len() == 0 {
        start
    } else {
        let earlier: Set<int> = active_from(start, calls.drop_last());
        match calls.last() {
            Call::Enable { col, .. } => earlier.insert(col),
            Call::Disable { col, ok: true } => earlier.remove(col),
            _ => earlier,
        }
    }
}

/// The columns that may be active once `calls` have been served, when none
/// was active before.
pub open spec fn active_after(calls: Seq<Call>) -> Set<int> {
    active_from(Set::empty(), calls)
}

/// Whether `columns` holds one column at most.
pub open spec fn at_most_one(columns: Set<int>) -> bool {
    forall|a: int, b: int| columns.contains(a) && columns.contains(b) ==> a == b
}

/// Whether every request in `calls` that names a column names `col`.
pub open spec fn only_column(calls: Seq<Call>, col: int) -> bool {
    forall|k: int|
        0 <= k < calls.len() ==> match #[trigger] calls[k] {
            Call::Enable { col: c, .. } => c == col,
            Call::Disable { col: c, .. } => c == col,
            Call::Read { .. } => true,
        }
}

/// Requests made one after the other are counted one after the other.
proof fn lemma_activations_add(a: Seq<Call>, b: Seq<Call>, col: int)
    ensures
        activations(a + b, col) == activations(a, col) + activations(b, col),
        deactivations(a + b, col) == deactivations(a, col) + deactivations(b, col),
    decreases b.len(),
{
    if b.len() == 0 {
        assert(a + b =~= a);
    } else {
        assert((a + b).drop_last() =~= a + b.drop_last());
        lemma_activations_add(a, b.drop_last(), col);
    }
}

/// Serving `a` and then `b` is serving `a + b`.
proof fn lemma_active_add(start: Set<int>, a: Seq<Call>, b: Seq<Call>)
    ensures
        active_from(start, a + b) == active_from(active_from(start, a), b),
    decreases b.len(),
{
    if b.len() == 0 {
        assert(a + b =~= a);
    } else {
        assert((a + b).drop_last() =~= a + b.drop_last());
        lemma_active_add(start, a, b.drop_last());
    }
}

/// Sampling rows activates and deactivates nothing.
proof fn lemma_reads_touch_no_column(column: Seq<bool>, start: Set<int>, col: int)
    ensures
        activations(reads(column), col) == 0,
        deactivations(reads(column), col) == 0,
        active_from(start, reads(column)) == start,
    decreases column.len(),
{
    if column.len() > 0 {
        assert(reads(column).drop_last() =~= reads(column.drop_last()));
        lemma_reads_touch_no_column(column.drop_last(), start, col);
    }
}

/// A column scanned without a failure is activated once and deactivated
/// once, names no other column, and is left inactive.
proof fn lemma_column_pass_pairs(at: int, column: Seq<bool>, col: int)
    ensures
        activations(column_pass(at, column), col) == (if col == at {
            1nat
        } else {
            0nat
        }),
        deactivations(column_pass(at, column), col) == (if col == at {
            1nat
        } else {
            0nat
        }),
        active_after(column_pass(at, column)) == Set::<int>::empty(),
        only_column(column_pass(at, column), at),
{
    let enable = seq![Call::Enable { col: at, ok: true }];
    let disable = seq![Call::Disable { col: at, ok: true }];
    let none = Set::<int>::empty();
    let nothing = Seq::<Call>::empty();
    assert(enable.drop_last() =~= nothing);
    assert(disable.drop_last() =~= nothing);
    assert(activations(nothing, col) == 0 && deactivations(nothing, col) == 0);
    assert(active_from(none, nothing) == none);
    assert(active_from(none.insert(at), nothing) == none.insert(at));
    lemma_reads_touch_no_column(column, none.insert(at), col);
    lemma_activations_add(enable, reads(column), col);
    lemma_activations_add(enable + reads(column), disable, col);
    lemma_active_add(none, enable, reads(column));
    lemma_active_add(none, enable + reads(column), disable);
}

/// Every column that may be active after requests that name only `col` was
/// active before or is `col`.
proof fn lemma_only_column_active(start: Set<int>, calls: Seq<Call>, col: int)
    requires
        only_column(calls, col),
    ensures
        active_from(start, calls).subset_of(start.insert(col)),
    decreases calls.len(),
{
    if calls.len() > 0 {
        let earlier = calls.drop_last();
        assert(only_column(earlier, col)) by {
            assert forall|k: int| 0 <= k < earlier.len() implies earlier[k] == calls[k] by {}
        }
        lemma_only_column_active(start, earlier, col);
    }
}

/// The columns scanned without a failure were each activated once and
/// deactivated once, and none of them is left active.
pub proof fn lemma_passes_pair(samples: Seq<Seq<bool>>, col: int)
    ensures
        activations(passes(samples), col) == (if 0 <= col < samples.len() {
            1nat
        } else {
            0nat
        }),
        deactivations(passes(samples), col) == (if 0 <= col < samples.len() {
            1nat
        } else {
            0nat
        }),
        active_after(passes(samples)) == Set::<int>::empty(),
    decreases samples.len(),
{
    if samples.len() > 0 {
        let earlier = samples.drop_last();
        let at: int = samples.len() - 1;
        lemma_passes_pair(earlier, col);
        lemma_column_pass_pairs(at, samples.last(), col);
        lemma_activations_add(passes(earlier), column_pass(at, samples.last()), col);
        lemma_active_add(Set::empty(), passes(earlier), column_pass(at, samples.last()));
    }
}

/// Requests that name one column only, made after columns that were scanned
/// without a failure, never leave two columns active.
proof fn lemma_one_at_a_time_after_passes(
    samples: Seq<Seq<bool>>,
    rest: Seq<Call>,
    col: int,
    k: int,
)
    requires
        only_column(rest, col),
        0 <= k <= (passes(samples) + rest).len(),
    ensures
        at_most_one(active_after((passes(samples) + rest).take(k))),
    decreases samples.len(),
{
    let done = passes(samples);
    let all = done + rest;
    if k <= done.len() {
        assert(all.take(k) =~= done.take(k));
        if samples.len() > 0 {
            let earlier = samples.drop_last();
            let at: int = samples.len() - 1;
            lemma_column_pass_pairs(at, samples.last(), col);
            lemma_one_at_a_time_after_passes(earlier, column_pass(at, samples.last()), at, k);
        }
    } else {
        let part = rest.take(k - done.len());
        assert(all.take(k) =~= done + part);
        assert(only_column(part, col)) by {
            assert forall|n: int| 0 <= n < part.len() implies part[n] == rest[n] by {}
        }
        lemma_passes_pair(samples, col);
        lemma_active_add(Set::empty(), done, part);
        lemma_only_column_active(Set::empty(), part, col);
    }
}

/// The requests of a scan are those of the columns it scanned without a
/// failure, followed by requests that name the next column only.
proof fn lemma_calls_split(scan: Scan, cols: nat, rows: nat) -> (parts: (
    Seq<Seq<bool>>,
    Seq<Call>,
    int,
))
    requires
        scan.wf(cols, rows),
    ensures
        scan.calls() == passes(parts.0) + parts.1,
        only_column(parts.1, parts.2),
{
    let n: int = scan.samples.len() as int;
    match scan.ending {
        Ending::Completed => {
            (scan.samples, Seq::empty(), 0)
        },
        Ending::EnableFailed => {
            let rest = seq![Call::Enable { col: n, ok: false }];
            (scan.samples, rest, n)
        },
        Ending::ReadFailed => {
            let partial = scan.samples.last();
            let rest = (seq![Call::Enable { col: n - 1, ok: true }] + reads(partial)).push(
                Call::Read { row: partial.len() as int, reply: None },
            );
            (scan.samples.drop_last(), rest, n - 1)
        },
        Ending::DisableFailed => {
            let rest = (seq![Call::Enable { col: n - 1, ok: true }] + reads(
                scan.samples.last(),
            )).push(Call::Disable { col: n - 1, ok: false });
            (scan.samples.drop_last(), rest, n - 1)
        },
    }
}

/// One column at a time: at no moment of a scan, whether it ran to its end or
/// was cut short by a failure, can two columns be active.
pub proof fn lemma_one_column_at_a_time(scan: Scan, cols: nat, rows: nat)
    requires
        scan.wf(cols, rows),
    ensures
        forall|k: int|
            0 <= k <= scan.calls().len() ==> at_most_one(
                active_after(#[trigger] scan.calls().take(k)),
            ),
{
    let parts = lemma_calls_split(scan, cols, rows);
    assert forall|k: int| 0 <= k <= scan.calls().len() implies at_most_one(
        active_after(#[trigger] scan.calls().take(k)),
    ) by {
        lemma_one_at_a_time_after_passes(parts.0, parts.1, parts.2, k);
    }
}

/// Pairing: a scan that ran to its end activated every column of the matrix
/// exactly once and deactivated it exactly once, touched no other column,
/// never had two columns active, and left no column active.
pub proof fn lemma_completed_scan_pairs_columns(scan: Scan, cols: nat, rows: nat)
    requires
        scan.wf(cols, rows),
        scan.completed(),
    ensures
        forall|k: int|
            0 <= k <= scan.calls().len() ==> at_most_one(
                active_after(#[trigger] scan.calls().take(k)),
            ),
        forall|col: int|
            0 <= col < cols ==> #[trigger] activations(scan.calls(), col) == 1,
        forall|col: int|
            0 <= col < cols ==> #[trigger] deactivations(scan.calls(), col) == 1,
        forall|col: int|
            !(0 <= col < cols) ==> #[trigger] activations(scan.calls(), col) == 0,
        forall|col: int|
            !(0 <= col < cols) ==> #[trigger] deactivations(scan.calls(), col) == 0,
        active_after(scan.calls()) == Set::<int>::empty(),
{
    assert forall|col: int| 0 <= col < cols implies #[trigger] activations(scan.calls(), col)
        == 1 by {
        lemma_passes_pair(scan.samples, col);
    }
    assert forall|col: int| 0 <= col < cols implies #[trigger] deactivations(scan.calls(), col)
        == 1 by {
        lemma_passes_pair(scan.samples, col);
    }
    assert forall|col: int| !(0 <= col < cols) implies #[trigger] activations(scan.calls(), col)
        == 0 by {
        lemma_passes_pair(scan.samples, col);
    }
    assert forall|col: int| !(0 <= col < cols) implies #[trigger] deactivations(
        scan.calls(),
        col,
    ) == 0 by {
        lemma_passes_pair(scan.samples, col);
    }
    lemma_passes_pair(scan.samples, 0);
    lemma_one_column_at_a_time(scan, cols, rows);
}

/// The place, among the requests of a scan, of the request that samples the
/// key at column `i` and row `j`.
pub open spec fn read_position(samples: Seq<Seq<bool>>, i: int, j: int) -> int {
    passes(samples.take(i)).len() + 1 + j
}

/// The requests of columns scanned without a failure, split at column `i`:
/// what precedes the column, the column itself, and what follows it.
proof fn lemma_passes_split(samples: Seq<Seq<bool>>, i: int) -> (rest: Seq<Call>)
    requires
        0 <= i < samples.len(),
    ensures
        passes(samples) == passes(samples.take(i)) + column_pass(i, samples[i]) + rest,
    decreases samples.len(),
{
    let earlier = samples.drop_last();
    if i == samples.len() - 1 {
        assert(samples.take(i) =~= earlier);
        Seq::empty()
    } else {
        let inner = lemma_passes_split(earlier, i);
        assert(earlier.take(i) =~= samples.take(i));
        inner + column_pass(samples.len() - 1, samples.last())
    }
}

/// The requests of a scan, split at a column that it sampled: what precedes
/// the column, the activation of the column with the samples taken in it, and
/// what follows them.
proof fn lemma_calls_at_column(scan: Scan, cols: nat, rows: nat, i: int) -> (rest: Seq<Call>)
    requires
        scan.wf(cols, rows),
        0 <= i < scan.samples.len(),
    ensures
        scan.calls() == passes(scan.samples.take(i)) + (seq![(Call::Enable { col: i, ok: true })]
            + reads(scan.samples[i])) + rest,
{
    let samples = scan.samples;
    let last: int = samples.len() - 1;
    let closing = seq![Call::Disable { col: i, ok: true }];
    let failed = match scan.ending {
        Ending::Completed => Seq::empty(),
        Ending::EnableFailed => seq![Call::Enable { col: last + 1, ok: false }],
        Ending::ReadFailed => seq![Call::Read { row: samples.last().len() as int, reply: None }],
        Ending::DisableFailed => seq![Call::Disable { col: last, ok: false }],
    };
    if scan.ending is Completed || scan.ending is EnableFailed {
        // Every column that was sampled was also deactivated.
        let later = lemma_passes_split(samples, i);
        closing + later + failed
    } else if i == last {
        // The scan failed in this very column.
        assert(samples.take(i) =~= samples.drop_last());
        failed
    } else {
        // The scan failed in the last column, which comes later.
        let later = lemma_passes_split(samples.drop_last(), i);
        assert(samples.drop_last().take(i) =~= samples.take(i));
        closing + later + seq![Call::Enable { col: last, ok: true }] + reads(samples.last())
            + failed
    }
}

/// Every key is sampled under its own column: when a scan asks for row `j`
/// in order to sample the key at column `i`, it has activated column `i`, and
/// no other column can be active. The answer to that request is the sample
/// that the scan holds for the key.
pub proof fn lemma_sampled_under_own_column(scan: Scan, cols: nat, rows: nat, i: int, j: int)
    requires
        scan.wf(cols, rows),
        scan.sampled(i, j),
    ensures
        0 <= read_position(scan.samples, i, j) < scan.calls().len(),
        scan.calls()[read_position(scan.samples, i, j)] == (Call::Read {
            row: j,
            reply: Some(scan.samples[i][j]),
        }),
        active_after(scan.calls().take(read_position(scan.samples, i, j))) == Set::<
            int,
        >::empty().insert(i),
{
    lemma_calls_at_column(scan, cols, rows, i);
    let before = passes(scan.samples.take(i));
    let enable = seq![Call::Enable { col: i, ok: true }];
    let earlier = reads(scan.samples[i].take(j));
    let none = Set::<int>::empty();
    // Up to the request in question the scan has made the requests of the
    // columns before, activated column `i` and sampled its rows below `j`.
    assert(scan.calls().take(read_position(scan.samples, i, j)) =~= before + (enable + earlier));
    lemma_passes_pair(scan.samples.take(i), i);
    lemma_active_add(none, before, enable + earlier);
    lemma_active_add(none, enable, earlier);
    lemma_reads_touch_no_column(scan.samples[i].take(j), none.insert(i), i);
    assert(enable.drop_last() =~= Seq::<Call>::empty());
    assert(active_from(none, Seq::<Call>::empty()) == none);
}

} // verus!

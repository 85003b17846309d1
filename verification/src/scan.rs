//! The mathematical model of one scan of the matrix.
//!
//! A scan visits the columns in ascending order. For each column it asks the
//! column driver to activate the line, asks the row driver for every row in
//! ascending order, and asks the column driver to deactivate the line again.
//! The first request that a driver fails ends the scan on the spot.
//!
//! A [`Scan`] records what the row driver answered and how the scan ended.
//! From these two facts follow the requests that were made of the drivers
//! ([`Scan::calls`]) and the counters that the scan leaves behind
//! ([`Scan::counters_after`]).

use vstd::prelude::*;
use vstd::math::min;
use crate::debounce::COUNTER_MAX;
use crate::debounce::next_count;

verus! {

/// One request made of a driver, with the driver's answer.
pub enum Call {
    /// The column driver was asked to activate column `col`.
    Enable { col: int, ok: bool },
    /// The row driver was asked to sample row `row`; `reply` is the sample,
    /// or `None` where the driver failed.
    Read { row: int, reply: Option<bool> },
    /// The column driver was asked to deactivate column `col`.
    Disable { col: int, ok: bool },
}

/// The answer of the row driver as the journal holds it.
pub open spec fn reply_of(r: Result<bool, ()>) -> Option<bool> {
    match r {
        Ok(pressed) => Some(pressed),
        Err(_) => None,
    }
}

/// How a scan ended.
pub enum Ending {
    /// Every column was activated, sampled and deactivated.
    Completed,
    /// The column driver failed to activate the next column.
    EnableFailed,
    /// The row driver failed to sample the next row of the active column.
    ReadFailed,
    /// The column driver failed to deactivate the column just sampled.
    DisableFailed,
}

/// One scan: the samples it took and the way it ended.
///
/// `samples[i][j]` is the answer of the row driver for row `j` while column
/// `i` was active. Only the cells that were sampled have an entry, so after a
/// failure the table is shorter than the matrix, and its last column may be
/// shorter than the others.
pub struct Scan {
    pub samples: Seq<Seq<bool>>,
    pub ending: Ending,
}

/// The requests that sample the rows of one column, each answered with the
/// matching entry of `column`.
pub open spec fn reads(column: Seq<bool>) -> Seq<Call> {
    Seq::new(column.len(), |j: int| Call::Read { row: j, reply: Some(column[j]) })
}

/// The requests of one column that was scanned without a failure.
pub open spec fn column_pass(col: int, column: Seq<bool>) -> Seq<Call> {
    seq![Call::Enable { col, ok: true }] + reads(column) + seq![Call::Disable { col, ok: true }]
}

/// The requests of the leading columns of a scan, all scanned without a
/// failure and sampled as `samples` says.
pub open spec fn passes(samples: Seq<Seq<bool>>) -> Seq<Call>
    decreases samples.len(),
{
    if samples.len() == 0 {
        Seq::empty()
    } else {
        passes(samples.drop_last()) + column_pass(samples.len() - 1, samples.last())
    }
}

/// The counters that follow `before` once the keys listed in `samples` have
/// been sampled: the counter of a sampled key moves by its sample, every
/// other counter stays as it was.
pub open spec fn sampled_counters(before: Seq<Seq<u8>>, samples: Seq<Seq<bool>>) -> Seq<Seq<u8>> {
    Seq::new(
        before.len(),
        |i: int|
            Seq::new(
                before[i].len(),
                |j: int|
                    if 0 <= i < samples.len() && 0 <= j < samples[i].len() {
                        next_count(before[i][j], samples[i][j])
                    } else {
                        before[i][j]
                    },
            ),
    )
}

impl Scan {
    /// Whether the scan can be one of a matrix with `cols` columns and `rows`
    /// rows.
    pub open spec fn wf(self, cols: nat, rows: nat) -> bool {
        let n: nat = self.samples.len();
        match self.ending {
            Ending::Completed => {
                &&& n == cols
                &&& forall|i: int| 0 <= i < n ==> (#[trigger] self.samples[i]).len() == rows
            },
            Ending::EnableFailed => {
                &&& n < cols
                &&& forall|i: int| 0 <= i < n ==> (#[trigger] self.samples[i]).len() == rows
            },
            Ending::ReadFailed => {
                &&& 1 <= n <= cols
                &&& forall|i: int| 0 <= i < n - 1 ==> (#[trigger] self.samples[i]).len() == rows
                &&& self.samples[n - 1].len() < rows
            },
            Ending::DisableFailed => {
                &&& 1 <= n <= cols
                &&& forall|i: int| 0 <= i < n ==> (#[trigger] self.samples[i]).len() == rows
            },
        }
    }

    /// Whether the scan ran to its end without a failure.
    pub open spec fn completed(self) -> bool {
        self.ending is Completed
    }

    /// Whether the scan sampled the key at column `i` and row `j`.
    pub open spec fn sampled(self, i: int, j: int) -> bool {
        0 <= i < self.samples.len() && 0 <= j < self.samples[i].len()
    }

    /// Whether the scan sampled the key at column `i` and row `j` and found
    /// it pressed.
    pub open spec fn saw_pressed(self, i: int, j: int) -> bool {
        self.sampled(i, j) && self.samples[i][j]
    }

    /// Whether the scan sampled the key at column `i` and row `j` and found
    /// it released.
    pub open spec fn saw_released(self, i: int, j: int) -> bool {
        self.sampled(i, j) && !self.samples[i][j]
    }

    /// The requests that the scan made of the drivers, in the order in which
    /// it made them.
    pub open spec fn calls(self) -> Seq<Call> {
        let n: nat = self.samples.len();
        match self.ending {
            Ending::Completed => passes(self.samples),
            Ending::EnableFailed => passes(self.samples).push(
                Call::Enable { col: n as int, ok: false },
            ),
            Ending::ReadFailed => {
                let partial = self.samples.last();
                (passes(self.samples.drop_last()).push(Call::Enable { col: n - 1, ok: true })
                    + reads(partial)).push(Call::Read { row: partial.len() as int, reply: None })
            },
            Ending::DisableFailed => {
                (passes(self.samples.drop_last()).push(Call::Enable { col: n - 1, ok: true })
                    + reads(self.samples.last())).push(Call::Disable { col: n - 1, ok: false })
            },
        }
    }

    /// The counters that the scan leaves behind when it starts from `before`:
    /// a counter moves by one sample where the scan sampled its key, and
    /// stays as it was elsewhere.
    pub open spec fn counters_after(self, before: Seq<Seq<u8>>) -> Seq<Seq<u8>> {
        sampled_counters(before, self.samples)
    }
}

/// Before the first sample of a column is taken, the counters are those
/// that the columns before it have left.
pub(crate) proof fn lemma_column_opened(before: Seq<Seq<u8>>, samples: Seq<Seq<bool>>)
    ensures
        sampled_counters(before, Seq::empty()) == before,
        sampled_counters(before, samples.push(Seq::empty())) == sampled_counters(before, samples),
{
    assert(sampled_counters(before, Seq::empty()) =~~= before);
    assert(sampled_counters(before, samples.push(Seq::empty())) =~~= sampled_counters(
        before,
        samples,
    ));
}

/// One more sample in the column that is being scanned moves the counter of
/// its key and no other.
pub(crate) proof fn lemma_sample_taken(
    before: Seq<Seq<u8>>,
    samples: Seq<Seq<bool>>,
    column: Seq<bool>,
    pressed: bool,
)
    requires
        samples.len() < before.len(),
        column.len() < before[samples.len() as int].len(),
    ensures
        ({
            let i: int = samples.len() as int;
            let j: int = column.len() as int;
            let so_far = sampled_counters(before, samples.push(column));
            &&& so_far[i][j] == before[i][j]
            &&& sampled_counters(before, samples.push(column.push(pressed))) == so_far.update(
                i,
                so_far[i].update(j, next_count(so_far[i][j], pressed)),
            )
        }),
{
    let i: int = samples.len() as int;
    let j: int = column.len() as int;
    let so_far = sampled_counters(before, samples.push(column));
    assert(sampled_counters(before, samples.push(column.push(pressed))) =~~= so_far.update(
        i,
        so_far[i].update(j, next_count(so_far[i][j], pressed)),
    ));
}

/// The requests of a column grow by one with each sample taken.
pub(crate) proof fn lemma_read_answered(column: Seq<bool>, pressed: bool)
    ensures
        reads(column.push(pressed)) == reads(column).push(
            (Call::Read { row: column.len() as int, reply: Some(pressed) }),
        ),
{
}

/// Once a column has been deactivated, its requests follow those of the
/// columns before it.
pub(crate) proof fn lemma_column_closed(samples: Seq<Seq<bool>>, column: Seq<bool>)
    ensures
        passes(samples.push(column)) == (passes(samples).push(
            (Call::Enable { col: samples.len() as int, ok: true }),
        ) + reads(column)).push((Call::Disable { col: samples.len() as int, ok: true })),
{
    assert(samples.push(column).drop_last() =~= samples);
}

/// The counters that a series of scans leaves behind when the first of them
/// starts from `before`.
pub open spec fn counters_after_all(before: Seq<Seq<u8>>, scans: Seq<Scan>) -> Seq<Seq<u8>>
    decreases scans.len(),
{
    if scans.len() == 0 {
        before
    } else {
        scans.last().counters_after(counters_after_all(before, scans.drop_last()))
    }
}

/// No scan changes the shape of the counter table.
pub proof fn lemma_scans_keep_shape(before: Seq<Seq<u8>>, scans: Seq<Scan>)
    ensures
        counters_after_all(before, scans).len() == before.len(),
        forall|i: int|
            0 <= i < before.len() ==> (#[trigger] counters_after_all(before, scans)[i]).len()
                == before[i].len(),
    decreases scans.len(),
{
    if scans.len() > 0 {
        lemma_scans_keep_shape(before, scans.drop_last());
    }
}

/// Saturation: after a series of scans that each found the key at column `i`
/// and row `j` pressed, the counter of that key has risen by the number of
/// scans, but not beyond the largest value a counter can hold. Where the
/// counter started at zero, as it does in a new matrix and after a released
/// sample, it stands at the smaller of the two.
pub proof fn lemma_pressed_scans_saturate(before: Seq<Seq<u8>>, scans: Seq<Scan>, i: int, j: int)
    requires
        0 <= i < before.len(),
        0 <= j < before[i].len(),
        forall|k: int| 0 <= k < scans.len() ==> (#[trigger] scans[k]).saw_pressed(i, j),
    ensures
        counters_after_all(before, scans)[i][j] == min(
            before[i][j] + scans.len(),
            COUNTER_MAX as int,
        ),
        before[i][j] == 0 ==> counters_after_all(before, scans)[i][j] == min(
            scans.len() as int,
            COUNTER_MAX as int,
        ),
    decreases scans.len(),
{
    if scans.len() > 0 {
        let earlier = scans.drop_last();
        assert forall|k: int| 0 <= k < earlier.len() implies (#[trigger] earlier[k]).saw_pressed(
            i,
            j,
        ) by {
            assert(earlier[k] == scans[k]);
        }
        lemma_pressed_scans_saturate(before, earlier, i, j);
        lemma_scans_keep_shape(before, earlier);
    }
}

/// Reset: a scan that found the key at column `i` and row `j` released
/// leaves the counter of that key at zero, whatever the scans before it did.
pub proof fn lemma_released_scan_resets(before: Seq<Seq<u8>>, scans: Seq<Scan>, i: int, j: int)
    requires
        0 <= i < before.len(),
        0 <= j < before[i].len(),
        scans.len() > 0,
        scans.last().saw_released(i, j),
    ensures
        counters_after_all(before, scans)[i][j] == 0,
{
    lemma_scans_keep_shape(before, scans.drop_last());
}

} // verus!

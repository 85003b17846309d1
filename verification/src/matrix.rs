//! The scanning engine.

use vstd::prelude::*;
use crate::debounce::COUNTER_MAX;
use crate::debounce::advance;
use crate::debounce::is_pressed;
use crate::debounce::next_count;
use crate::drivers::KeyColumns;
use crate::drivers::KeyRows;
use crate::scan::Call;
use crate::scan::Ending;
use crate::scan::Scan;
use crate::scan::lemma_column_closed;
use crate::scan::lemma_column_opened;
use crate::scan::lemma_read_answered;
use crate::scan::lemma_sample_taken;
use crate::scan::passes;
use crate::scan::reads;
use crate::scan::reply_of;
use crate::scan::sampled_counters;

verus! {

/// A table with `CN` columns of `RN` entries each, read as a sequence of
/// columns.
pub open spec fn table_view<T, const CN: usize, const RN: usize>(table: [[T; RN]; CN]) -> Seq<
    Seq<T>,
> {
    Seq::new(CN as nat, |i: int| table[i]@)
}

/// A table with `cols` columns of `rows` zeroes each.
pub open spec fn zeroes(cols: nat, rows: nat) -> Seq<Seq<u8>> {
    Seq::new(cols, |i: int| Seq::new(rows, |j: int| 0u8))
}

/// The keys that a counter table with the given threshold reports as
/// pressed.
pub open spec fn pressed_keys(counters: Seq<Seq<u8>>, threshold: u8) -> Seq<Seq<bool>> {
    Seq::new(
        counters.len(),
        |i: int| Seq::new(counters[i].len(), |j: int| is_pressed(counters[i][j], threshold)),
    )
}

/// What a [`KeyMatrix`] stands for.
pub struct MatrixView {
    /// The debounce counters, `counters[i][j]` for the key at column `i` and
    /// row `j`.
    pub counters: Seq<Seq<u8>>,
    /// The number of pressed samples in a row that a key's counter has to
    /// exceed before the key is reported as pressed.
    pub threshold: u8,
    /// Every request that the matrix has made of its drivers since it was
    /// created, the oldest first.
    pub journal: Seq<Call>,
}

/// A key matrix with `CN` columns and `RN` rows.
///
/// The matrix owns its two drivers, the threshold it was created with, and
/// one counter for each key. Only [`KeyMatrix::poll`] changes the counters.
/// In proofs the matrix also carries a journal of every request it has made
/// of the drivers; the journal takes no room in the compiled program.
pub struct KeyMatrix<C, R, const CN: usize, const RN: usize> where
    C: KeyColumns<CN>,
    R: KeyRows<RN>,
 {
    cols: C,
    rows: R,
    debounce_count: u8,
    state: [[u8; RN]; CN],
    journal: Ghost<Seq<Call>>,
}

impl<C, R, const CN: usize, const RN: usize> View for KeyMatrix<C, R, CN, RN> where
    C: KeyColumns<CN>,
    R: KeyRows<RN>,
 {
    type V = MatrixView;

    closed spec fn view(&self) -> MatrixView {
        MatrixView {
            counters: table_view(self.state),
            threshold: self.debounce_count,
            journal: self.journal@,
        }
    }
}

impl<C, R, const CN: usize, const RN: usize> KeyMatrix<C, R, CN, RN> where
    C: KeyColumns<CN>,
    R: KeyRows<RN>,
 {
    /// The column driver that the matrix owns.
    pub closed spec fn columns(&self) -> C {
        self.cols
    }

    /// The row driver that the matrix owns.
    pub closed spec fn rows(&self) -> R {
        self.rows
    }

    /// Whether `snapshot` is the state that the matrix reports: a key is
    /// pressed exactly where its counter exceeds the threshold.
    pub open spec fn reports(&self, snapshot: [[bool; RN]; CN]) -> bool {
        table_view(snapshot) == pressed_keys(self@.counters, self@.threshold)
    }

    /// The counter table always has the shape of the matrix.
    pub proof fn lemma_shape(&self)
        ensures
            self@.counters.len() == CN,
            forall|i: int| 0 <= i < CN ==> (#[trigger] self@.counters[i]).len() == RN,
    {
    }

    /// Creates a key matrix that owns the two drivers. Every counter starts
    /// at zero, and no request is made of the drivers.
    ///
    /// A key is reported as pressed once `poll` has found it pressed more
    /// than `debounce_count` times in a row.
    pub fn new(debounce_count: u8, cols: C, rows: R) -> (matrix: Self)
        ensures
            matrix@.counters == zeroes(CN as nat, RN as nat),
            matrix@.threshold == debounce_count,
            matrix@.journal == Seq::<Call>::empty(),
            matrix.columns() == cols,
            matrix.rows() == rows,
    {
        KeyMatrix {
            cols,
            rows,
            debounce_count,
            state: Self::init_state(),
            journal: Ghost(Seq::empty()),
        }
    }

    /// Returns a counter table in which every counter is zero.
    fn init_state() -> (table: [[u8; RN]; CN])
        ensures
            table_view(table) == zeroes(CN as nat, RN as nat),
    {
        let table = [[0u8; RN]; CN];
        assert(table_view(table) =~~= zeroes(CN as nat, RN as nat));
        table
    }

    /// Asks the column driver to activate column `col` and notes the request
    /// in the journal.
    fn enable(&mut self, col: usize) -> (r: Result<(), ()>)
        requires
            col < CN,
        ensures
            final(self)@.counters == old(self)@.counters,
            final(self)@.threshold == old(self)@.threshold,
            final(self)@.journal == old(self)@.journal.push(
                (Call::Enable { col: col as int, ok: r is Ok }),
            ),
    {
        let r = self.cols.enable_column(col);
        self.journal = Ghost(self.journal@.push(Call::Enable { col: col as int, ok: r is Ok }));
        r
    }

    /// Asks the column driver to deactivate column `col` and notes the
    /// request in the journal.
    fn disable(&mut self, col: usize) -> (r: Result<(), ()>)
        requires
            col < CN,
        ensures
            final(self)@.counters == old(self)@.counters,
            final(self)@.threshold == old(self)@.threshold,
            final(self)@.journal == old(self)@.journal.push(
                (Call::Disable { col: col as int, ok: r is Ok }),
            ),
    {
        let r = self.cols.disable_column(col);
        self.journal = Ghost(self.journal@.push(Call::Disable { col: col as int, ok: r is Ok }));
        r
    }

    /// Asks the row driver to sample row `row` and notes the request in the
    /// journal.
    fn read(&mut self, row: usize) -> (r: Result<bool, ()>)
        requires
            row < RN,
        ensures
            final(self)@.counters == old(self)@.counters,
            final(self)@.threshold == old(self)@.threshold,
            final(self)@.journal == old(self)@.journal.push(
                (Call::Read { row: row as int, reply: reply_of(r) }),
            ),
    {
        let r = self.rows.read_row(row);
        self.journal = Ghost(
            self.journal@.push(Call::Read { row: row as int, reply: reply_of(r) }),
        );
        r
    }

    /// Takes the sample of the key at column `col` and row `row` into its
    /// counter.
    fn record(&mut self, col: usize, row: usize, pressed: bool)
        requires
            col < CN,
            row < RN,
        ensures
            final(self)@.threshold == old(self)@.threshold,
            final(self)@.journal == old(self)@.journal,
            final(self)@.counters == old(self)@.counters.update(
                col as int,
                old(self)@.counters[col as int].update(
                    row as int,
                    next_count(old(self)@.counters[col as int][row as int], pressed),
                ),
            ),
    {
        let count: u8 = self.state[col][row];
        self.state[col][row] = advance(count, pressed);
    }

    /// Scans the matrix once.
    ///
    /// The columns are visited in ascending order. Each is activated, every
    /// row is sampled in ascending order, and the column is deactivated again
    /// before the next one is touched. A pressed sample raises the counter of
    /// its key by one, saturating; a released sample resets it to zero.
    ///
    /// The first request that a driver fails ends the scan: `poll` returns
    /// the error at once, makes no further request, and leaves the counters
    /// as the samples taken so far have set them. The column that was active
    /// at that moment is not deactivated.
    ///
    /// What the drivers answer is theirs to decide, so the contract speaks of
    /// some [`Scan`] of a matrix of this size. The call succeeds exactly if
    /// that scan ran to its end, the journal has grown by the requests of the
    /// scan, and the counters are those that the scan leaves behind. A matrix
    /// without columns asks nothing of its drivers, so its scan succeeds.
    pub fn poll(&mut self) -> (r: Result<(), ()>)
        ensures
            final(self)@.threshold == old(self)@.threshold,
            exists|scan: Scan|
                (#[trigger] scan.wf(CN as nat, RN as nat)) && (r is Ok <==> scan.completed())
                    && final(self)@.journal == old(self)@.journal + scan.calls()
                    && final(self)@.counters == scan.counters_after(old(self)@.counters),
            CN == 0 ==> r is Ok && final(self)@ == old(self)@,
    {
        let ghost mut samples: Seq<Seq<bool>> = Seq::empty();
        proof {
            lemma_column_opened(self@.counters, samples);
        }
        for i in 0..CN
            invariant
                samples.len() == i,
                forall|a: int| 0 <= a < i ==> (#[trigger] samples[a]).len() == RN,
                self@.threshold == old(self)@.threshold,
                self@.journal == old(self)@.journal + passes(samples),
                self@.counters == sampled_counters(old(self)@.counters, samples),
                CN == 0 ==> self@ == old(self)@,
        {
            let ghost opened = self@.journal;
            let enabled = self.enable(i);
            if enabled.is_err() {
                proof {
                    let scan = Scan { samples, ending: Ending::EnableFailed };
                    assert(scan.wf(CN as nat, RN as nat));
                }
                return Err(());
            }
            let ghost mut column: Seq<bool> = Seq::empty();
            proof {
                lemma_column_opened(old(self)@.counters, samples);
            }
            for j in 0..RN
                invariant
                    i < CN,
                    samples.len() == i,
                    forall|a: int| 0 <= a < i ==> (#[trigger] samples[a]).len() == RN,
                    column.len() == j,
                    self@.threshold == old(self)@.threshold,
                    opened == old(self)@.journal + passes(samples),
                    self@.journal == opened.push(Call::Enable { col: i as int, ok: true }) + reads(
                        column,
                    ),
                    self@.counters == sampled_counters(old(self)@.counters, samples.push(column)),
            {
                let sample = self.read(j);
                match sample {
                    Err(_) => {
                        proof {
                            let scan = Scan {
                                samples: samples.push(column),
                                ending: Ending::ReadFailed,
                            };
                            assert(scan.samples.drop_last() =~= samples);
                            assert(scan.wf(CN as nat, RN as nat));
                        }
                        return Err(());
                    },
                    Ok(pressed) => {
                        proof {
                            self.lemma_shape();
                            old(self).lemma_shape();
                            lemma_sample_taken(old(self)@.counters, samples, column, pressed);
                            lemma_read_answered(column, pressed);
                        }
                        self.record(i, j, pressed);
                        proof {
                            column = column.push(pressed);
                        }
                    },
                }
            }
            let disabled = self.disable(i);
            proof {
                lemma_column_closed(samples, column);
                assert(samples.push(column).drop_last() =~= samples);
            }
            if disabled.is_err() {
                proof {
                    let scan = Scan {
                        samples: samples.push(column),
                        ending: Ending::DisableFailed,
                    };
                    assert(scan.wf(CN as nat, RN as nat));
                }
                return Err(());
            }
            proof {
                samples = samples.push(column);
            }
        }
        proof {
            let scan = Scan { samples, ending: Ending::Completed };
            assert(scan.wf(CN as nat, RN as nat));
        }
        Ok(())
    }

    /// Returns the state of every key as of the last scan: the entry at
    /// `[i][j]` is `true` exactly if the counter of the key at column `i` and
    /// row `j` exceeds the threshold.
    pub fn current_state(&self) -> (snapshot: [[bool; RN]; CN])
        ensures
            self.reports(snapshot),
            forall|i: int, j: int|
                0 <= i < CN && 0 <= j < RN ==> snapshot[i][j] == (self@.counters[i][j]
                    > self@.threshold),
    {
        let mut snapshot = [[false; RN]; CN];
        for i in 0..CN
            invariant
                forall|a: int, b: int|
                    0 <= a < i && 0 <= b < RN ==> snapshot[a][b] == (self.state[a][b]
                        > self.debounce_count),
                forall|a: int, b: int| i <= a < CN && 0 <= b < RN ==> !snapshot[a][b],
        {
            for j in 0..RN
                invariant
                    i < CN,
                    forall|a: int, b: int|
                        0 <= a < i && 0 <= b < RN ==> snapshot[a][b] == (self.state[a][b]
                            > self.debounce_count),
                    forall|b: int|
                        0 <= b < j ==> snapshot[i as int][b] == (self.state[i as int][b]
                            > self.debounce_count),
                    forall|b: int| j <= b < RN ==> !snapshot[i as int][b],
                    forall|a: int, b: int| i < a < CN && 0 <= b < RN ==> !snapshot[a][b],
            {
                if self.state[i][j] > self.debounce_count {
                    snapshot[i][j] = true;
                }
            }
        }
        assert(table_view(snapshot) =~~= pressed_keys(self@.counters, self@.threshold));
        snapshot
    }

    /// Idempotence: the reported state is a function of the counters and the
    /// threshold alone, so two calls of `current_state` with no scan between
    /// them return the same table.
    pub proof fn lemma_current_state_repeats(
        &self,
        first: [[bool; RN]; CN],
        second: [[bool; RN]; CN],
    )
        requires
            self.reports(first),
            self.reports(second),
        ensures
            first == second,
    {
        assert forall|i: int| 0 <= i < CN implies first[i] == second[i] by {
            assert(table_view(first)[i] == table_view(second)[i]);
        }
    }

    /// With the threshold at the largest value a counter can hold, no key is
    /// ever reported as pressed, whatever has been sampled.
    pub proof fn lemma_max_threshold_mutes(&self, snapshot: [[bool; RN]; CN])
        requires
            self@.threshold == COUNTER_MAX,
            self.reports(snapshot),
        ensures
            forall|i: int, j: int| 0 <= i < CN && 0 <= j < RN ==> !snapshot[i][j],
    {
        assert forall|i: int, j: int| 0 <= i < CN && 0 <= j < RN implies !snapshot[i][j] by {
            assert(table_view(snapshot)[i][j] == pressed_keys(
                self@.counters,
                self@.threshold,
            )[i][j]);
        }
    }

    /// Returns the number of rows of the matrix.
    pub fn row_size(&self) -> (n: usize)
        ensures
            n == RN,
    {
        RN
    }

    /// Returns the number of columns of the matrix.
    pub fn col_size(&self) -> (n: usize)
        ensures
            n == CN,
    {
        CN
    }
}

} // verus!

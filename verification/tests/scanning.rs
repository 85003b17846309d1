use keymatrix::KeyColumns;
use keymatrix::KeyMatrix;
use keymatrix::KeyRows;
use std::cell::RefCell;
use std::rc::Rc;

/// One request that reached the simulated board.
#[derive(Debug, Clone, Copy, PartialEq, Eq)]
enum Request {
    Enable(usize),
    Read(usize),
    Disable(usize),
}

/// A simulated board: which keys are held down, which columns are active,
/// every request made so far, and the request that is to fail, if any.
struct Board<const CN: usize, const RN: usize> {
    held: [[bool; RN]; CN],
    active: Vec<usize>,
    most_active: usize,
    log: Vec<Request>,
    failing: Option<Request>,
}

impl<const CN: usize, const RN: usize> Board<CN, RN> {
    fn shared() -> Rc<RefCell<Self>> {
        Rc::new(RefCell::new(Board {
            held: [[false; RN]; CN],
            active: Vec::new(),
            most_active: 0,
            log: Vec::new(),
            failing: None,
        }))
    }

    fn serve(&mut self, request: Request) -> Result<(), ()> {
        self.log.push(request);
        if self.failing == Some(request) {
            Err(())
        } else {
            Ok(())
        }
    }
}

struct Columns<const CN: usize, const RN: usize> {
    board: Rc<RefCell<Board<CN, RN>>>,
}

struct Rows<const CN: usize, const RN: usize> {
    board: Rc<RefCell<Board<CN, RN>>>,
}

impl<const CN: usize, const RN: usize> KeyColumns<CN> for Columns<CN, RN> {
    fn size(&self) -> usize {
        CN
    }

    fn enable_column(&mut self, col: usize) -> Result<(), ()> {
        assert!(col < CN);
        let mut board = self.board.borrow_mut();
        board.serve(Request::Enable(col))?;
        board.active.push(col);
        board.most_active = board.most_active.max(board.active.len());
        Ok(())
    }

    fn disable_column(&mut self, col: usize) -> Result<(), ()> {
        assert!(col < CN);
        let mut board = self.board.borrow_mut();
        board.serve(Request::Disable(col))?;
        board.active.retain(|&c| c != col);
        Ok(())
    }
}

impl<const CN: usize, const RN: usize> KeyRows<RN> for Rows<CN, RN> {
    fn size(&self) -> usize {
        RN
    }

    fn read_row(&mut self, row: usize) -> Result<bool, ()> {
        assert!(row < RN);
        let mut board = self.board.borrow_mut();
        board.serve(Request::Read(row))?;
        Ok(board.active.iter().any(|&col| board.held[col][row]))
    }
}

type Board3 = Rc<RefCell<Board<3, 3>>>;
type Matrix3 = KeyMatrix<Columns<3, 3>, Rows<3, 3>, 3, 3>;

fn matrix3(threshold: u8) -> (Board3, Matrix3) {
    let board = Board::<3, 3>::shared();
    let matrix = KeyMatrix::new(
        threshold,
        Columns { board: board.clone() },
        Rows { board: board.clone() },
    );
    (board, matrix)
}

fn full_scan(cols: usize, rows: usize) -> Vec<Request> {
    let mut requests = Vec::new();
    for col in 0..cols {
        requests.push(Request::Enable(col));
        for row in 0..rows {
            requests.push(Request::Read(row));
        }
        requests.push(Request::Disable(col));
    }
    requests
}

#[test]
fn new_matrix_reports_nothing_and_touches_no_line() {
    let (board, matrix) = matrix3(5);
    assert_eq!(matrix.current_state(), [[false; 3]; 3]);
    assert!(board.borrow().log.is_empty());
}

#[test]
fn sizes_are_those_of_the_type() {
    let board = Board::<2, 4>::shared();
    let matrix: KeyMatrix<_, _, 2, 4> = KeyMatrix::new(
        1,
        Columns { board: board.clone() },
        Rows { board: board.clone() },
    );
    assert_eq!(matrix.col_size(), 2);
    assert_eq!(matrix.row_size(), 4);
    let (_, square) = matrix3(0);
    assert_eq!(square.col_size(), 3);
    assert_eq!(square.row_size(), 3);
}

#[test]
fn pressed_after_six_polls_with_threshold_five() {
    let (board, mut matrix) = matrix3(5);
    board.borrow_mut().held[1][2] = true;
    for _ in 0..5 {
        assert_eq!(matrix.poll(), Ok(()));
    }
    assert_eq!(matrix.current_state()[1][2], false);
    assert_eq!(matrix.current_state(), [[false; 3]; 3]);
    assert_eq!(matrix.poll(), Ok(()));
    assert_eq!(matrix.current_state()[1][2], true);
    let mut expected = [[false; 3]; 3];
    expected[1][2] = true;
    assert_eq!(matrix.current_state(), expected);
}

#[test]
fn one_released_sample_resets_a_pressed_key() {
    let (board, mut matrix) = matrix3(5);
    board.borrow_mut().held[1][2] = true;
    for _ in 0..6 {
        assert_eq!(matrix.poll(), Ok(()));
    }
    assert_eq!(matrix.current_state()[1][2], true);
    board.borrow_mut().held[1][2] = false;
    assert_eq!(matrix.poll(), Ok(()));
    assert_eq!(matrix.current_state()[1][2], false);
    // The count starts over: five more pressed samples are not enough.
    board.borrow_mut().held[1][2] = true;
    for _ in 0..5 {
        assert_eq!(matrix.poll(), Ok(()));
    }
    assert_eq!(matrix.current_state()[1][2], false);
    assert_eq!(matrix.poll(), Ok(()));
    assert_eq!(matrix.current_state()[1][2], true);
}

#[test]
fn read_failure_in_first_column_stops_the_scan() {
    let (board, mut matrix) = matrix3(0);
    board.borrow_mut().held = [[true; 3]; 3];
    board.borrow_mut().failing = Some(Request::Read(1));
    assert_eq!(matrix.poll(), Err(()));
    // Only row 0 of column 0 was sampled before the failure.
    let mut expected = [[false; 3]; 3];
    expected[0][0] = true;
    assert_eq!(matrix.current_state(), expected);
    assert_eq!(
        board.borrow().log,
        vec![Request::Enable(0), Request::Read(0), Request::Read(1)]
    );
}

#[test]
fn read_failure_leaves_earlier_counters_alone() {
    let (board, mut matrix) = matrix3(1);
    board.borrow_mut().held = [[true; 3]; 3];
    assert_eq!(matrix.poll(), Ok(()));
    assert_eq!(matrix.current_state(), [[false; 3]; 3]);
    board.borrow_mut().failing = Some(Request::Read(1));
    assert_eq!(matrix.poll(), Err(()));
    // Key (0, 0) has now been seen twice, every other key once.
    let mut expected = [[false; 3]; 3];
    expected[0][0] = true;
    assert_eq!(matrix.current_state(), expected);
    board.borrow_mut().failing = None;
    assert_eq!(matrix.poll(), Ok(()));
    assert_eq!(matrix.current_state(), [[true; 3]; 3]);
}

#[test]
fn enable_failure_stops_the_scan() {
    let (board, mut matrix) = matrix3(0);
    board.borrow_mut().held = [[true; 3]; 3];
    board.borrow_mut().failing = Some(Request::Enable(1));
    assert_eq!(matrix.poll(), Err(()));
    assert_eq!(
        matrix.current_state(),
        [[true; 3], [false; 3], [false; 3]]
    );
    assert_eq!(
        board.borrow().log,
        vec![
            Request::Enable(0),
            Request::Read(0),
            Request::Read(1),
            Request::Read(2),
            Request::Disable(0),
            Request::Enable(1),
        ]
    );
}

#[test]
fn enable_failure_in_first_column_changes_nothing() {
    let (board, mut matrix) = matrix3(0);
    board.borrow_mut().held = [[true; 3]; 3];
    board.borrow_mut().failing = Some(Request::Enable(0));
    assert_eq!(matrix.poll(), Err(()));
    assert_eq!(matrix.current_state(), [[false; 3]; 3]);
    assert_eq!(board.borrow().log, vec![Request::Enable(0)]);
}

#[test]
fn disable_failure_stops_the_scan_after_the_column() {
    let (board, mut matrix) = matrix3(0);
    board.borrow_mut().held = [[true; 3]; 3];
    board.borrow_mut().failing = Some(Request::Disable(1));
    assert_eq!(matrix.poll(), Err(()));
    assert_eq!(
        matrix.current_state(),
        [[true; 3], [true; 3], [false; 3]]
    );
    let mut expected = full_scan(2, 3);
    assert_eq!(expected.pop(), Some(Request::Disable(1)));
    expected.push(Request::Disable(1));
    assert_eq!(board.borrow().log, expected);
}

#[test]
fn failed_scan_does_not_roll_back_the_active_column() {
    let (board, mut matrix) = matrix3(0);
    board.borrow_mut().failing = Some(Request::Read(2));
    assert_eq!(matrix.poll(), Err(()));
    assert_eq!(board.borrow().active, vec![0]);
    assert_eq!(board.borrow().log.last(), Some(&Request::Read(2)));
}

#[test]
fn scan_after_a_failure_starts_over() {
    let (board, mut matrix) = matrix3(0);
    board.borrow_mut().failing = Some(Request::Enable(2));
    assert_eq!(matrix.poll(), Err(()));
    board.borrow_mut().failing = None;
    board.borrow_mut().log.clear();
    assert_eq!(matrix.poll(), Ok(()));
    assert_eq!(board.borrow().log, full_scan(3, 3));
}

#[test]
fn completed_scan_pairs_every_column() {
    let (board, mut matrix) = matrix3(3);
    assert_eq!(matrix.poll(), Ok(()));
    let board = board.borrow();
    assert_eq!(board.log, full_scan(3, 3));
    for col in 0..3 {
        let enabled = board.log.iter().filter(|&&r| r == Request::Enable(col)).count();
        let disabled = board.log.iter().filter(|&&r| r == Request::Disable(col)).count();
        assert_eq!(enabled, 1);
        assert_eq!(disabled, 1);
    }
    assert_eq!(board.most_active, 1);
    assert!(board.active.is_empty());
}

#[test]
fn every_scan_makes_the_same_requests() {
    let (board, mut matrix) = matrix3(3);
    for _ in 0..4 {
        assert_eq!(matrix.poll(), Ok(()));
    }
    let mut expected = Vec::new();
    for _ in 0..4 {
        expected.extend(full_scan(3, 3));
    }
    assert_eq!(board.borrow().log, expected);
    assert_eq!(board.borrow().most_active, 1);
}

#[test]
fn current_state_makes_no_request_and_repeats() {
    let (board, mut matrix) = matrix3(0);
    board.borrow_mut().held[2][0] = true;
    board.borrow_mut().held[0][1] = true;
    assert_eq!(matrix.poll(), Ok(()));
    let requests = board.borrow().log.len();
    let first = matrix.current_state();
    let second = matrix.current_state();
    let third = matrix.current_state();
    assert_eq!(first, second);
    assert_eq!(second, third);
    assert_eq!(board.borrow().log.len(), requests);
    let mut expected = [[false; 3]; 3];
    expected[2][0] = true;
    expected[0][1] = true;
    assert_eq!(first, expected);
}

#[test]
fn threshold_zero_needs_one_sample() {
    let (board, mut matrix) = matrix3(0);
    board.borrow_mut().held[0][0] = true;
    assert_eq!(matrix.current_state()[0][0], false);
    assert_eq!(matrix.poll(), Ok(()));
    assert_eq!(matrix.current_state()[0][0], true);
    board.borrow_mut().held[0][0] = false;
    assert_eq!(matrix.poll(), Ok(()));
    assert_eq!(matrix.current_state()[0][0], false);
}

#[test]
fn threshold_255_never_reports_a_key() {
    let (board, mut matrix) = matrix3(255);
    board.borrow_mut().held = [[true; 3]; 3];
    for _ in 0..600 {
        assert_eq!(matrix.poll(), Ok(()));
        assert_eq!(matrix.current_state(), [[false; 3]; 3]);
    }
}

#[test]
fn counter_saturates_at_255() {
    let (board, mut matrix) = matrix3(254);
    board.borrow_mut().held[2][1] = true;
    for _ in 0..254 {
        assert_eq!(matrix.poll(), Ok(()));
    }
    assert_eq!(matrix.current_state()[2][1], false);
    assert_eq!(matrix.poll(), Ok(()));
    assert_eq!(matrix.current_state()[2][1], true);
    // Far more samples than a counter can count: it stays at its maximum.
    for _ in 0..300 {
        assert_eq!(matrix.poll(), Ok(()));
        assert_eq!(matrix.current_state()[2][1], true);
    }
    let mut expected = [[false; 3]; 3];
    expected[2][1] = true;
    assert_eq!(matrix.current_state(), expected);
    // One released sample still resets it at once.
    board.borrow_mut().held[2][1] = false;
    assert_eq!(matrix.poll(), Ok(()));
    assert_eq!(matrix.current_state(), [[false; 3]; 3]);
}

#[test]
fn key_is_pressed_exactly_above_the_threshold() {
    for threshold in [0u8, 1, 5, 100, 253, 254, 255] {
        let (board, mut matrix) = matrix3(threshold);
        board.borrow_mut().held[0][2] = true;
        for polls in 1..=260u32 {
            assert_eq!(matrix.poll(), Ok(()));
            let count = polls.min(255);
            let mut expected = [[false; 3]; 3];
            expected[0][2] = count > u32::from(threshold);
            assert_eq!(matrix.current_state(), expected);
        }
    }
}

#[test]
fn keys_are_debounced_independently() {
    let (board, mut matrix) = matrix3(2);
    board.borrow_mut().held[0][0] = true;
    assert_eq!(matrix.poll(), Ok(()));
    board.borrow_mut().held[1][1] = true;
    assert_eq!(matrix.poll(), Ok(()));
    board.borrow_mut().held[2][2] = true;
    assert_eq!(matrix.poll(), Ok(()));
    // Seen three, two and one times: only the first exceeds the threshold.
    let mut expected = [[false; 3]; 3];
    expected[0][0] = true;
    assert_eq!(matrix.current_state(), expected);
    assert_eq!(matrix.poll(), Ok(()));
    expected[1][1] = true;
    assert_eq!(matrix.current_state(), expected);
    board.borrow_mut().held[0][0] = false;
    assert_eq!(matrix.poll(), Ok(()));
    expected[0][0] = false;
    expected[2][2] = true;
    assert_eq!(matrix.current_state(), expected);
}

#[test]
fn state_is_indexed_by_column_then_row() {
    let board = Board::<2, 4>::shared();
    let mut matrix: KeyMatrix<_, _, 2, 4> = KeyMatrix::new(
        0,
        Columns { board: board.clone() },
        Rows { board: board.clone() },
    );
    board.borrow_mut().held[1][3] = true;
    board.borrow_mut().held[0][2] = true;
    assert_eq!(matrix.poll(), Ok(()));
    assert_eq!(board.borrow().log, full_scan(2, 4));
    assert_eq!(
        matrix.current_state(),
        [[false, false, true, false], [false, false, false, true]]
    );
}

#[test]
fn matrix_without_columns_scans_nothing() {
    let board = Board::<0, 3>::shared();
    let mut matrix: KeyMatrix<_, _, 0, 3> = KeyMatrix::new(
        0,
        Columns { board: board.clone() },
        Rows { board: board.clone() },
    );
    assert_eq!(matrix.poll(), Ok(()));
    assert!(board.borrow().log.is_empty());
    let empty: [[bool; 3]; 0] = [];
    assert_eq!(matrix.current_state(), empty);
    assert_eq!(matrix.col_size(), 0);
    assert_eq!(matrix.row_size(), 3);
}

#[test]
fn matrix_without_rows_still_pairs_its_columns() {
    let board = Board::<2, 0>::shared();
    let mut matrix: KeyMatrix<_, _, 2, 0> = KeyMatrix::new(
        0,
        Columns { board: board.clone() },
        Rows { board: board.clone() },
    );
    assert_eq!(matrix.poll(), Ok(()));
    assert_eq!(
        board.borrow().log,
        vec![
            Request::Enable(0),
            Request::Disable(0),
            Request::Enable(1),
            Request::Disable(1),
        ]
    );
    assert_eq!(matrix.current_state(), [[false; 0]; 2]);
}

#[test]
fn drivers_report_their_size() {
    let board = Board::<2, 4>::shared();
    let columns = Columns { board: board.clone() };
    let rows = Rows { board: board.clone() };
    assert_eq!(KeyColumns::size(&columns), 2);
    assert_eq!(KeyRows::size(&rows), 4);
}

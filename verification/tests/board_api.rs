use word_search::board::{Board, BoardError, GridWord, Posn};
use word_search::direction::Direction;

fn make_grid(rows: &[&str]) -> Vec<Vec<char>> {
    rows.iter().map(|r| r.chars().collect()).collect()
}

fn make_words(ws: &[&str]) -> Vec<String> {
    ws.iter().map(|w| w.to_string()).collect()
}

#[test]
fn posn_new_sets_fields() {
    let p = Posn::new(3, 5);
    assert_eq!(p.row, 3);
    assert_eq!(p.col, 5);
    assert_eq!(p, Posn::new(3, 5));
}

#[test]
fn get_dirs_lists_all_eight() {
    let dirs = Direction::get_dirs();
    assert_eq!(dirs.len(), 8);
}

#[test]
fn dir_to_offset_unit_vectors() {
    assert_eq!(Direction::Up.dir_to_offset(), (-1, 0));
    assert_eq!(Direction::Down.dir_to_offset(), (1, 0));
    assert_eq!(Direction::Left.dir_to_offset(), (0, -1));
    assert_eq!(Direction::Right.dir_to_offset(), (0, 1));
    assert_eq!(Direction::LeftUp.dir_to_offset(), (-1, -1));
    assert_eq!(Direction::LeftDown.dir_to_offset(), (1, -1));
    assert_eq!(Direction::RightUp.dir_to_offset(), (-1, 1));
    assert_eq!(Direction::RightDown.dir_to_offset(), (1, 1));
}

#[test]
fn new_board_records_dimensions() {
    let b = Board::new(make_grid(&["ABC", "DEF"]), make_words(&["ABC"])).unwrap();
    assert_eq!(b.row_len, 2);
    assert_eq!(b.col_len, 3);
    assert!(b.word_indices.is_empty());
}

#[test]
fn new_rejects_empty_grid() {
    let r = Board::new(make_grid(&[]), make_words(&["A"]));
    assert_eq!(r.unwrap_err(), BoardError::EmptyGrid);
}

#[test]
fn new_rejects_ragged_rows() {
    let r = Board::new(make_grid(&["AB", "C"]), make_words(&["A"]));
    assert_eq!(r.unwrap_err(), BoardError::RaggedRow);
}

#[test]
fn new_rejects_empty_word() {
    let r = Board::new(make_grid(&["AB"]), make_words(&["A", ""]));
    assert_eq!(r.unwrap_err(), BoardError::EmptyWord);
}

#[test]
fn get_letter_reads_the_matrix() {
    let b = Board::new(make_grid(&["AB", "CD"]), make_words(&["A"])).unwrap();
    assert_eq!(b.get_letter(Posn::new(0, 0)), 'A');
    assert_eq!(b.get_letter(Posn::new(0, 1)), 'B');
    assert_eq!(b.get_letter(Posn::new(1, 0)), 'C');
    assert_eq!(b.get_letter(Posn::new(1, 1)), 'D');
}

#[test]
fn get_neighbor_steps_one_cell() {
    let b = Board::new(make_grid(&["AB", "CD"]), make_words(&["A"])).unwrap();
    let n = b.get_neighbor_in_dir(Posn::new(0, 0), &Direction::RightDown);
    assert_eq!(n, Some(Posn::new(1, 1)));
    let n = b.get_neighbor_in_dir(Posn::new(1, 1), &Direction::Up);
    assert_eq!(n, Some(Posn::new(0, 1)));
}

#[test]
fn get_neighbor_stops_at_every_edge() {
    let b = Board::new(make_grid(&["AB", "CD"]), make_words(&["A"])).unwrap();
    assert_eq!(b.get_neighbor_in_dir(Posn::new(0, 0), &Direction::Up), None);
    assert_eq!(b.get_neighbor_in_dir(Posn::new(0, 0), &Direction::Left), None);
    assert_eq!(b.get_neighbor_in_dir(Posn::new(1, 1), &Direction::Down), None);
    assert_eq!(b.get_neighbor_in_dir(Posn::new(1, 1), &Direction::Right), None);
    assert_eq!(
        b.get_neighbor_in_dir(Posn::new(0, 1), &Direction::RightUp),
        None
    );
}

#[test]
fn get_positions_is_row_major() {
    let b = Board::new(make_grid(&["AB", "CD"]), make_words(&["A"])).unwrap();
    let ps = b.get_positions();
    let pairs: Vec<(usize, usize)> = ps.iter().map(|p| (p.row, p.col)).collect();
    assert_eq!(pairs, vec![(0, 0), (0, 1), (1, 0), (1, 1)]);
}

#[test]
fn grid_words_enumerates_every_run() {
    // In a 2x2 grid each corner heads three runs of length two (one per
    // in-bounds direction) and eight runs of length one, one per direction.
    let b = Board::new(make_grid(&["AB", "CD"]), make_words(&["A"])).unwrap();
    let gws: Vec<GridWord> = b.grid_words();
    assert_eq!(gws.len(), 4 * (8 + 3));
    for gw in &gws {
        assert_eq!(gw.word.chars().count(), gw.posns.len());
        for p in &gw.posns {
            assert!(p.row < 2 && p.col < 2);
        }
    }
    let ab_runs: Vec<&GridWord> = gws.iter().filter(|gw| gw.word == "AB").collect();
    assert_eq!(ab_runs.len(), 1);
    assert_eq!(ab_runs[0].posns, vec![Posn::new(0, 0), Posn::new(0, 1)]);
}

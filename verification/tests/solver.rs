use word_search::board::Board;

fn make_grid(rows: &[&str]) -> Vec<Vec<char>> {
    rows.iter().map(|r| r.chars().collect()).collect()
}

fn make_words(ws: &[&str]) -> Vec<String> {
    ws.iter().map(|w| w.to_string()).collect()
}

fn solve_board(rows: &[&str], ws: &[&str]) -> Board {
    let mut b = Board::new(make_grid(rows), make_words(ws)).unwrap();
    b.solve();
    b
}

fn match_cells(b: &Board) -> Vec<(usize, usize)> {
    let mut v: Vec<(usize, usize)> = b.word_indices.iter().map(|p| (p.row, p.col)).collect();
    v.sort();
    v.dedup();
    v
}

#[test]
fn minimal_two_by_two_scenario() {
    // "AB" rightward from (0,0), "BD" downward from (0,1), "AD" diagonally
    // from (0,0): the union of the matched runs.
    let b = solve_board(&["AB", "CD"], &["AB", "BD", "AD"]);
    assert_eq!(match_cells(&b), vec![(0, 0), (0, 1), (1, 1)]);
}

#[test]
fn cat_tao_dog_scenario() {
    // "CAT" rightward from (0,0); "TAO" down-left diagonally from (0,2)
    // through (1,1) to (2,0); "DOG" appears nowhere.
    let b = solve_board(&["CAT", "XAO", "OXG"], &["CAT", "TAO", "DOG"]);
    assert_eq!(
        match_cells(&b),
        vec![(0, 0), (0, 1), (0, 2), (1, 1), (2, 0)]
    );
}

#[test]
fn solve_twice_is_idempotent() {
    let mut b = Board::new(
        make_grid(&["CAT", "XAO", "OXG"]),
        make_words(&["CAT", "TAO", "DOG"]),
    )
    .unwrap();
    b.solve();
    let first = match_cells(&b);
    b.solve();
    let second = match_cells(&b);
    assert_eq!(first, second);
    assert_eq!(b.grid, make_grid(&["CAT", "XAO", "OXG"]));
    assert_eq!(b.words, make_words(&["CAT", "TAO", "DOG"]));
}

#[test]
fn single_char_word_matches_every_cell_with_that_char() {
    let b = solve_board(&["ABA", "BAB"], &["A"]);
    assert_eq!(match_cells(&b), vec![(0, 0), (0, 2), (1, 1)]);
}

#[test]
fn single_cell_grid() {
    let b = solve_board(&["A"], &["A"]);
    assert_eq!(match_cells(&b), vec![(0, 0)]);
}

#[test]
fn non_occurring_word_contributes_nothing() {
    let b = solve_board(&["AB", "CD"], &["ZZZ"]);
    assert_eq!(match_cells(&b), vec![]);
    let with_extra = solve_board(&["AB", "CD"], &["AB", "QQ"]);
    let without = solve_board(&["AB", "CD"], &["AB"]);
    assert_eq!(match_cells(&with_extra), match_cells(&without));
}

#[test]
fn word_longer_than_any_run_does_not_match() {
    let b = solve_board(&["ABC"], &["ABCD"]);
    assert_eq!(match_cells(&b), vec![]);
}

#[test]
fn reversed_word_matches_along_opposite_direction() {
    // "AB" holds "BA" read leftward from (0,1): the same two cells.
    let b = solve_board(&["AB"], &["BA"]);
    assert_eq!(match_cells(&b), vec![(0, 0), (0, 1)]);
}

#[test]
fn matches_in_all_eight_directions() {
    let grid = ["ABC", "DEF", "GHI"];
    let cases: &[(&str, &[(usize, usize)])] = &[
        ("DEF", &[(1, 0), (1, 1), (1, 2)]),
        ("FED", &[(1, 0), (1, 1), (1, 2)]),
        ("BEH", &[(0, 1), (1, 1), (2, 1)]),
        ("HEB", &[(0, 1), (1, 1), (2, 1)]),
        ("AEI", &[(0, 0), (1, 1), (2, 2)]),
        ("IEA", &[(0, 0), (1, 1), (2, 2)]),
        ("GEC", &[(0, 2), (1, 1), (2, 0)]),
        ("CEG", &[(0, 2), (1, 1), (2, 0)]),
    ];
    for (word, expected) in cases {
        let b = solve_board(&grid, &[word]);
        let mut exp: Vec<(usize, usize)> = expected.to_vec();
        exp.sort();
        assert_eq!(match_cells(&b), exp, "word {}", word);
    }
}

#[test]
fn overlapping_matches_union_their_cells() {
    // "AA" matches rightward and leftward over the same two cells, and the
    // single "A" adds every cell holding 'A'.
    let b = solve_board(&["AAB"], &["AA", "A"]);
    assert_eq!(match_cells(&b), vec![(0, 0), (0, 1)]);
}

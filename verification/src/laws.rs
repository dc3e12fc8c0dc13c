use vstd::prelude::*;

use vstd::seq_lib::lemma_seq_contains_after_push;

use crate::board::{
    grid_wf, is_match_pos, lemma_step_zero, match_set, run_chars, run_ok, run_posns, step_col,
    step_in_grid, step_posn, step_row, Board, Posn,
};
use crate::direction::{col_off, lemma_opposite_off, opposite, row_off, Direction};

verus! {

/// Solving is idempotent: the match result is a function of the grid and the
/// word list alone, and `solve` leaves both unchanged, so two boards that
/// agree on grid and words — in particular the same board solved twice —
/// have the same match set.
pub proof fn lemma_solve_idempotent(b1: Board, b2: Board)
    requires
        b1.gview() == b2.gview(),
        b1.wview() == b2.wview(),
    ensures
        match_set(b1.gview(), b1.wview()) == match_set(b2.gview(), b2.wview()),
{
}

/// Directional symmetry: a run read from `head` in direction `d` is, cell
/// for cell, the run read from its far end in the opposite direction — the
/// characters and the cells both come out reversed. So whenever a word
/// matches along a run, its reverse matches along the reversed run.
pub proof fn lemma_directional_symmetry(g: Seq<Seq<char>>, head: Posn, d: Direction, len: int)
    requires
        grid_wf(g),
        run_ok(g, head, d, len),
    ensures
        ({
            let tail = run_posns(head, d, len)[len - 1];
            &&& run_ok(g, tail, opposite(d), len)
            &&& run_chars(g, tail, opposite(d), len) == run_chars(g, head, d, len).reverse()
            &&& run_posns(tail, opposite(d), len) == run_posns(head, d, len).reverse()
        }),
{
    let tail = run_posns(head, d, len)[len - 1];
    let od = opposite(d);
    lemma_opposite_off(d);
    assert(step_in_grid(g, head, d, len - 1));
    assert(tail == step_posn(head, d, len - 1));
    assert(tail.row == step_row(head, d, len - 1));
    assert(tail.col == step_col(head, d, len - 1));
    assert forall|j: int| 0 <= j < len implies step_row(tail, od, j) == step_row(
        head,
        d,
        len - 1 - j,
    ) && step_col(tail, od, j) == step_col(head, d, len - 1 - j) by {
        assert((len - 1) * row_off(d) - j * row_off(d) == (len - 1 - j) * row_off(d))
            by (nonlinear_arith);
        assert((len - 1) * col_off(d) - j * col_off(d) == (len - 1 - j) * col_off(d))
            by (nonlinear_arith);
        assert(j * row_off(od) == -(j * row_off(d))) by (nonlinear_arith)
            requires
                row_off(od) == -row_off(d),
        ;
        assert(j * col_off(od) == -(j * col_off(d))) by (nonlinear_arith)
            requires
                col_off(od) == -col_off(d),
        ;
    }
    assert forall|j: int| 0 <= j < len implies step_in_grid(g, tail, od, j) by {
        assert(step_in_grid(g, head, d, len - 1 - j));
    }
    assert(run_ok(g, tail, od, len));
    assert(run_chars(g, tail, od, len) =~= run_chars(g, head, d, len).reverse());
    assert(run_posns(tail, od, len) =~= run_posns(head, d, len).reverse());
}

/// A single-character target word matches at every grid cell holding that
/// character, and only at those cells: with that word as the only target,
/// the match set is exactly the set of cells bearing the character.
pub proof fn lemma_single_char_word(g: Seq<Seq<char>>, word: Seq<char>)
    requires
        grid_wf(g),
        word.len() == 1,
    ensures
        match_set(g, seq![word]) == Set::new(
            |p: Posn|
                p.row < g.len() && p.col < g[0].len() && g[p.row as int][p.col as int] == word[0],
        ),
{
    let cells = Set::new(
        |p: Posn|
            p.row < g.len() && p.col < g[0].len() && g[p.row as int][p.col as int] == word[0],
    );
    assert forall|p: Posn| match_set(g, seq![word]).contains(p) implies cells.contains(p) by {
        let (head, d, len) = choose|head: Posn, d: Direction, len: int|
            run_ok(g, head, d, len) && seq![word].contains(#[trigger] run_chars(g, head, d, len))
                && run_posns(head, d, len).contains(p);
        assert(run_chars(g, head, d, len) == word);
        assert(len == 1);
        lemma_step_zero(head, d);
        assert(run_posns(head, d, 1)[0] == head);
        assert(p == head);
        assert(step_in_grid(g, head, d, 0));
        assert(g[p.row as int][p.col as int] == run_chars(g, head, d, 1)[0]);
    }
    assert forall|p: Posn| cells.contains(p) implies match_set(g, seq![word]).contains(p) by {
        let d = Direction::Right;
        lemma_step_zero(p, d);
        assert(step_in_grid(g, p, d, 0));
        assert(run_ok(g, p, d, 1));
        assert(run_chars(g, p, d, 1) =~= word);
        assert(seq![word][0] == word);
        assert(seq![word].contains(run_chars(g, p, d, 1)));
        assert(run_posns(p, d, 1)[0] == p);
        assert(run_posns(p, d, 1).contains(p));
        assert(is_match_pos(g, seq![word], p));
    }
    assert(match_set(g, seq![word]) =~= cells);
}

/// A word that occurs along no run of the grid contributes nothing: adding
/// it to the target list leaves the match set unchanged.
pub proof fn lemma_non_occurring_word(g: Seq<Seq<char>>, words: Seq<Seq<char>>, word: Seq<char>)
    requires
        forall|head: Posn, d: Direction, len: int|
            run_ok(g, head, d, len) ==> #[trigger] run_chars(g, head, d, len) != word,
    ensures
        match_set(g, words.push(word)) == match_set(g, words),
{
    assert forall|p: Posn| match_set(g, words.push(word)).contains(p) implies match_set(
        g,
        words,
    ).contains(p) by {
        let (head, d, len) = choose|head: Posn, d: Direction, len: int|
            run_ok(g, head, d, len) && words.push(word).contains(
                #[trigger] run_chars(g, head, d, len),
            ) && run_posns(head, d, len).contains(p);
        lemma_seq_contains_after_push(words, word, run_chars(g, head, d, len));
        assert(words.contains(run_chars(g, head, d, len)));
        assert(is_match_pos(g, words, p));
    }
    assert forall|p: Posn| match_set(g, words).contains(p) implies match_set(
        g,
        words.push(word),
    ).contains(p) by {
        let (head, d, len) = choose|head: Posn, d: Direction, len: int|
            run_ok(g, head, d, len) && words.contains(#[trigger] run_chars(g, head, d, len))
                && run_posns(head, d, len).contains(p);
        lemma_seq_contains_after_push(words, word, run_chars(g, head, d, len));
        assert(words.push(word).contains(run_chars(g, head, d, len)));
        assert(is_match_pos(g, words.push(word), p));
    }
    assert(match_set(g, words.push(word)) =~= match_set(g, words));
}

/// Boundary respect: every cell of an in-bounds run lies strictly inside
/// the grid's row and column ranges.
pub proof fn lemma_boundary_respect(g: Seq<Seq<char>>, head: Posn, d: Direction, len: int, k: int)
    requires
        grid_wf(g),
        run_ok(g, head, d, len),
        0 <= k < len,
    ensures
        run_posns(head, d, len)[k].row < g.len(),
        run_posns(head, d, len)[k].col < g[0].len(),
{
    assert(step_in_grid(g, head, d, k));
}

} // verus!

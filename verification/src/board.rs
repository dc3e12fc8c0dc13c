use vstd::prelude::*;

use vstd::arithmetic::div_mod::lemma_fundamental_div_mod_converse;

use crate::direction::{col_off, row_off, Direction};

verus! {

/// Decomposing a row-major index: for `0 <= r < rl` and `0 <= c < cl`, the
/// index `r * cl + c` lies in `[0, rl * cl)` and divides back into `(r, c)`.
proof fn lemma_row_major_index(rl: int, cl: int, r: int, c: int)
    requires
        0 <= r < rl,
        0 <= c < cl,
    ensures
        0 <= r * cl + c < rl * cl,
        (r * cl + c) / cl == r,
        (r * cl + c) % cl == c,
{
    assert(0 <= r * cl + c < rl * cl) by (nonlinear_arith)
        requires
            0 <= r < rl,
            0 <= c < cl,
    ;
    lemma_fundamental_div_mod_converse(r * cl + c, cl, r, c);
}

/// A grid cell coordinate: row and column, both zero-based.
#[derive(Clone, Copy, PartialEq, Eq, Structural, Hash, Debug)]
pub struct Posn {
    pub row: usize,
    pub col: usize,
}

impl Posn {
    pub fn new(row: usize, col: usize) -> (r: Posn)
        ensures
            r.row == row,
            r.col == col,
    {
        Posn { row, col }
    }
}

/// A straight contiguous run of cells: the characters read along it and the
/// cells it covers, head first.
#[derive(Debug)]
pub struct GridWord {
    pub word: String,
    pub posns: Vec<Posn>,
}

/// Why a grid and word list were rejected at construction.
#[derive(Clone, Copy, PartialEq, Eq, Structural, Debug)]
pub enum BoardError {
    /// The grid has no rows.
    EmptyGrid,
    /// Some row's length differs from the first row's.
    RaggedRow,
    /// Some target word is the empty string.
    EmptyWord,
}

/// A word-search board: the character matrix, the target words, the cached
/// dimensions, and the set of cells covered by a matched word (filled by
/// `solve`).
#[derive(Debug)]
pub struct Board {
    pub grid: Vec<Vec<char>>,
    pub words: Vec<String>,
    pub row_len: usize,
    pub col_len: usize,
    pub word_indices: Vec<Posn>,
}

/// A rectangular, non-empty character matrix whose dimensions fit the machine.
pub open spec fn grid_wf(g: Seq<Seq<char>>) -> bool {
    &&& 0 < g.len() <= usize::MAX
    &&& g[0].len() <= usize::MAX
    &&& forall|i: int| 0 <= i < g.len() ==> (#[trigger] g[i]).len() == g[0].len()
}

/// The row index reached after `k` unit steps from `head` in direction `d`.
pub open spec fn step_row(head: Posn, d: Direction, k: int) -> int {
    head.row + k * row_off(d)
}

/// The column index reached after `k` unit steps from `head` in direction `d`.
pub open spec fn step_col(head: Posn, d: Direction, k: int) -> int {
    head.col + k * col_off(d)
}

/// The cell reached after `k` steps from `head` in direction `d`; meaningful
/// only when both coordinates are in range.
pub open spec fn step_posn(head: Posn, d: Direction, k: int) -> Posn {
    Posn { row: step_row(head, d, k) as usize, col: step_col(head, d, k) as usize }
}

/// Step `k` from `head` in direction `d` lands inside the grid `g`.
pub open spec fn step_in_grid(g: Seq<Seq<char>>, head: Posn, d: Direction, k: int) -> bool {
    &&& 0 <= step_row(head, d, k) < g.len()
    &&& 0 <= step_col(head, d, k) < g[0].len()
}

/// There is a straight run of `len >= 1` cells starting at `head` in
/// direction `d` that stays inside the grid.
pub open spec fn run_ok(g: Seq<Seq<char>>, head: Posn, d: Direction, len: int) -> bool {
    &&& 1 <= len
    &&& forall|k: int| 0 <= k < len ==> #[trigger] step_in_grid(g, head, d, k)
}

/// The characters read along the run of `len` cells from `head` in `d`.
pub open spec fn run_chars(g: Seq<Seq<char>>, head: Posn, d: Direction, len: int) -> Seq<char> {
    Seq::new(len as nat, |k: int| g[step_row(head, d, k)][step_col(head, d, k)])
}

/// The cells covered by the run of `len` cells from `head` in `d`, head first.
pub open spec fn run_posns(head: Posn, d: Direction, len: int) -> Seq<Posn> {
    Seq::new(len as nat, |k: int| step_posn(head, d, k))
}

/// `gw` records exactly the run of `len` cells from `head` in `d`: its string
/// is the characters along the run and its cells are the run's cells in order.
pub open spec fn gw_is_run(
    g: Seq<Seq<char>>,
    gw: GridWord,
    head: Posn,
    d: Direction,
    len: int,
) -> bool {
    &&& run_ok(g, head, d, len)
    &&& gw.word@ == run_chars(g, head, d, len)
    &&& gw.posns@ == run_posns(head, d, len)
}

/// `gw` is one of the candidate grid words of `g`: some in-bounds straight
/// run, of any length at least one.
pub open spec fn is_candidate(g: Seq<Seq<char>>, gw: GridWord) -> bool {
    exists|head: Posn, d: Direction, len: int| #[trigger] gw_is_run(g, gw, head, d, len)
}

/// `out` holds, at some index, a record of the run of `len` cells from
/// `head` in direction `d`.
pub open spec fn emitted(
    g: Seq<Seq<char>>,
    out: Seq<GridWord>,
    head: Posn,
    d: Direction,
    len: int,
) -> bool {
    exists|idx: int| 0 <= idx < out.len() && #[trigger] gw_is_run(g, out[idx], head, d, len)
}

/// Extending a sequence of grid words keeps every run already recorded.
proof fn lemma_emitted_grows(g: Seq<Seq<char>>, out: Seq<GridWord>, out2: Seq<GridWord>)
    requires
        out2.len() >= out.len(),
        forall|i: int| 0 <= i < out.len() ==> out2[i] == out[i],
    ensures
        forall|head: Posn, d: Direction, len: int|
            #[trigger] emitted(g, out, head, d, len) ==> emitted(g, out2, head, d, len),
{
    assert forall|head: Posn, d: Direction, len: int|
        #[trigger] emitted(g, out, head, d, len) implies emitted(g, out2, head, d, len) by {
        let idx = choose|idx: int| 0 <= idx < out.len() && gw_is_run(g, out[idx], head, d, len);
        assert(gw_is_run(g, out2[idx], head, d, len));
    }
}

/// Step zero lands on the head cell itself.
pub proof fn lemma_step_zero(head: Posn, d: Direction)
    ensures
        step_row(head, d, 0) == head.row,
        step_col(head, d, 0) == head.col,
        step_posn(head, d, 0) == head,
{
    assert(0 * row_off(d) == 0) by (nonlinear_arith);
    assert(0 * col_off(d) == 0) by (nonlinear_arith);
}

/// One more step in direction `d` adds the unit offset once more.
pub proof fn lemma_step_add(head: Posn, d: Direction, k: int)
    ensures
        step_row(head, d, k + 1) == step_row(head, d, k) + row_off(d),
        step_col(head, d, k + 1) == step_col(head, d, k) + col_off(d),
{
    assert((k + 1) * row_off(d) == k * row_off(d) + row_off(d)) by (nonlinear_arith);
    assert((k + 1) * col_off(d) == k * col_off(d) + col_off(d)) by (nonlinear_arith);
}

/// Both offset components lie in `{-1, 0, 1}` and they are not both zero.
pub proof fn lemma_off_range(d: Direction)
    ensures
        -1 <= row_off(d) <= 1,
        -1 <= col_off(d) <= 1,
        row_off(d) != 0 || col_off(d) != 0,
{
}

/// A run that stays inside the grid is no longer than the grid's
/// half-perimeter, row count plus column count.
pub proof fn lemma_run_len_bound(g: Seq<Seq<char>>, head: Posn, d: Direction, len: int)
    requires
        run_ok(g, head, d, len),
    ensures
        len <= g.len() + g[0].len(),
{
    lemma_off_range(d);
    lemma_step_zero(head, d);
    assert(step_in_grid(g, head, d, 0));
    assert(step_in_grid(g, head, d, len - 1));
    assert(len <= g.len() + g[0].len()) by (nonlinear_arith)
        requires
            1 <= len,
            0 <= head.row < g.len(),
            0 <= head.col < g[0].len(),
            0 <= head.row + (len - 1) * row_off(d) < g.len(),
            0 <= head.col + (len - 1) * col_off(d) < g[0].len(),
            -1 <= row_off(d) <= 1,
            -1 <= col_off(d) <= 1,
            row_off(d) != 0 || col_off(d) != 0,
    ;
}

/// `p` is covered by some run whose characters spell a target word.
pub open spec fn is_match_pos(g: Seq<Seq<char>>, words: Seq<Seq<char>>, p: Posn) -> bool {
    exists|head: Posn, d: Direction, len: int|
        run_ok(g, head, d, len) && words.contains(#[trigger] run_chars(g, head, d, len))
            && run_posns(head, d, len).contains(p)
}

/// The match result: every cell covered by at least one run that spells a
/// member of `words`.
pub open spec fn match_set(g: Seq<Seq<char>>, words: Seq<Seq<char>>) -> Set<Posn> {
    Set::new(|p: Posn| is_match_pos(g, words, p))
}

/// Every cell of `gw` is already collected in `res`, provided `gw`'s string
/// is one of the target words.
spec fn gw_covered(words: Seq<Seq<char>>, gw: GridWord, res: Seq<Posn>) -> bool {
    words.contains(gw.word@) ==> forall|j: int|
        0 <= j < gw.posns@.len() ==> res.contains(#[trigger] gw.posns@[j])
}

/// Growing the collected cells keeps every grid word covered.
proof fn lemma_covered_grows(
    words: Seq<Seq<char>>,
    gws: Seq<GridWord>,
    n: int,
    r0: Seq<Posn>,
    r1: Seq<Posn>,
)
    requires
        forall|q: Posn| r0.contains(q) ==> r1.contains(q),
        forall|idx: int| 0 <= idx < n ==> gw_covered(words, #[trigger] gws[idx], r0),
    ensures
        forall|idx: int| 0 <= idx < n ==> gw_covered(words, #[trigger] gws[idx], r1),
{
    assert forall|idx: int| 0 <= idx < n implies gw_covered(words, #[trigger] gws[idx], r1) by {
        if words.contains(gws[idx].word@) {
            assert forall|j: int| 0 <= j < gws[idx].posns@.len() implies r1.contains(
                #[trigger] gws[idx].posns@[j],
            ) by {
                assert(r0.contains(gws[idx].posns@[j]));
            }
        }
    }
}

/// True exactly when `w` equals one of the strings in `words`.
fn contains_word(words: &Vec<String>, w: &String) -> (r: bool)
    ensures
        r == words.deep_view().contains(w@),
{
    let ghost wv = words.deep_view();
    let mut i: usize = 0;
    while i < words.len()
        invariant
            wv == words.deep_view(),
            0 <= i <= wv.len(),
            wv.len() == words@.len(),
            forall|k: int| 0 <= k < wv.len() ==> wv[k] == (#[trigger] words@[k])@,
            forall|k: int| 0 <= k < i ==> wv[k] != w@,
        decreases wv.len() - i,
    {
        if words[i] == *w {
            assert(wv.contains(w@));
            return true;
        }
        i += 1;
    }
    assert(!wv.contains(w@));
    false
}

/// True exactly when the cell `p` occurs in `v`.
fn contains_posn(v: &Vec<Posn>, p: Posn) -> (r: bool)
    ensures
        r == v@.contains(p),
{
    let mut i: usize = 0;
    while i < v.len()
        invariant
            0 <= i <= v@.len(),
            forall|k: int| 0 <= k < i ==> v@[k] != p,
        decreases v@.len() - i,
    {
        if v[i] == p {
            assert(v@.contains(p));
            return true;
        }
        i += 1;
    }
    false
}

/// Appends one character to a string.
///
/// Relies on `alloc::string::String::push`, which appends the given `char`
/// to the end of the string.
#[verifier::external_body]
fn push_char(s: &mut String, c: char)
    ensures
        final(s)@ == old(s)@.push(c),
{
    s.push(c);
}

/// An element-for-element copy of a vector of cells.
fn copy_posns(v: &Vec<Posn>) -> (r: Vec<Posn>)
    ensures
        r@ == v@,
{
    let mut r: Vec<Posn> = Vec::new();
    let mut i: usize = 0;
    while i < v.len()
        invariant
            0 <= i <= v@.len(),
            r@.len() == i,
            forall|k: int| 0 <= k < i ==> r@[k] == v@[k],
        decreases v@.len() - i,
    {
        r.push(v[i]);
        i += 1;
    }
    proof {
        assert(r@ =~= v@);
    }
    r
}

impl Board {
    /// The grid as a mathematical sequence of rows of characters.
    pub open spec fn gview(self) -> Seq<Seq<char>> {
        self.grid.deep_view()
    }

    /// The target words as mathematical character sequences.
    pub open spec fn wview(self) -> Seq<Seq<char>> {
        self.words.deep_view()
    }

    /// The board's structural invariant: cached dimensions agree with the
    /// matrix, the matrix is non-empty and rectangular, and no target word is
    /// empty.
    pub open spec fn wf(self) -> bool {
        &&& self.row_len == self.grid@.len()
        &&& self.row_len > 0
        &&& forall|i: int|
            0 <= i < self.grid@.len() ==> (#[trigger] self.grid@[i])@.len() == self.col_len
        &&& forall|i: int| 0 <= i < self.words@.len() ==> (#[trigger] self.words@[i])@.len() > 0
    }

    /// A well-formed board's grid view is a well-formed grid.
    pub proof fn lemma_wf_grid(self)
        requires
            self.wf(),
        ensures
            grid_wf(self.gview()),
            self.gview().len() == self.row_len,
            self.gview().len() > 0 ==> self.gview()[0].len() == self.col_len,
            forall|i: int|
                0 <= i < self.gview().len() ==> (#[trigger] self.gview()[i]).len() == self.col_len,
            forall|i: int, j: int|
                0 <= i < self.gview().len() && 0 <= j < self.gview()[i].len()
                    ==> self.gview()[i][j] == self.grid@[i]@[j],
    {
        assert forall|i: int| 0 <= i < self.gview().len() implies (#[trigger] self.gview()[i]).len()
            == self.col_len by {
            assert(self.gview()[i] == self.grid@[i].deep_view());
            assert(self.grid@[i].deep_view().len() == self.grid@[i]@.len());
        }
    }

    /// Builds a board from a character matrix and a word list, rejecting a
    /// grid with no rows, a ragged grid, and an empty target word, in that
    /// order of checks.
    pub fn new(grid: Vec<Vec<char>>, words: Vec<String>) -> (r: Result<Board, BoardError>)
        ensures
            r is Ok <==> {
                &&& grid@.len() > 0
                &&& forall|i: int|
                    0 <= i < grid@.len() ==> (#[trigger] grid@[i])@.len() == grid@[0]@.len()
                &&& forall|i: int| 0 <= i < words@.len() ==> (#[trigger] words@[i])@.len() > 0
            },
            r is Ok ==> {
                let b = r->Ok_0;
                &&& b.wf()
                &&& b.grid@ == grid@
                &&& b.words@ == words@
                &&& b.row_len == grid@.len()
                &&& b.col_len == grid@[0]@.len()
                &&& b.word_indices@ == Seq::<Posn>::empty()
            },
            r == Err::<Board, BoardError>(BoardError::EmptyGrid) <==> grid@.len() == 0,
            r == Err::<Board, BoardError>(BoardError::RaggedRow) <==> grid@.len() > 0
                && !(forall|i: int|
                0 <= i < grid@.len() ==> (#[trigger] grid@[i])@.len() == grid@[0]@.len()),
            r == Err::<Board, BoardError>(BoardError::EmptyWord) <==> {
                &&& grid@.len() > 0
                &&& forall|i: int|
                    0 <= i < grid@.len() ==> (#[trigger] grid@[i])@.len() == grid@[0]@.len()
                &&& !(forall|i: int| 0 <= i < words@.len() ==> (#[trigger] words@[i])@.len() > 0)
            },
    {
        if grid.len() == 0 {
            return Err(BoardError::EmptyGrid);
        }
        let row_len = grid.len();
        let col_len = grid[0].len();
        let mut i: usize = 0;
        while i < row_len
            invariant
                row_len == grid@.len(),
                col_len == grid@[0]@.len(),
                0 <= i <= row_len,
                forall|k: int| 0 <= k < i ==> (#[trigger] grid@[k])@.len() == col_len,
            decreases row_len - i,
        {
            if grid[i].len() != col_len {
                return Err(BoardError::RaggedRow);
            }
            i += 1;
        }
        let mut j: usize = 0;
        while j < words.len()
            invariant
                grid@.len() > 0,
                forall|k: int| 0 <= k < grid@.len() ==> (#[trigger] grid@[k])@.len() == grid@[0]@.len(),
                0 <= j <= words@.len(),
                forall|k: int| 0 <= k < j ==> (#[trigger] words@[k])@.len() > 0,
            decreases words@.len() - j,
        {
            if words[j].as_str().is_empty() {
                return Err(BoardError::EmptyWord);
            }
            j += 1;
        }
        Ok(Board { grid, words, row_len, col_len, word_indices: Vec::new() })
    }

    /// The character stored at an in-bounds cell.
    pub fn get_letter(&self, posn: Posn) -> (r: char)
        requires
            self.wf(),
            posn.row < self.row_len,
            posn.col < self.col_len,
        ensures
            r == self.gview()[posn.row as int][posn.col as int],
    {
        proof {
            self.lemma_wf_grid();
        }
        self.grid[posn.row][posn.col]
    }

    /// The cell one unit step away from `posn` in direction `dir`, or `None`
    /// when that step leaves the grid.
    pub fn get_neighbor_in_dir(&self, posn: Posn, dir: &Direction) -> (r: Option<Posn>)
        requires
            self.wf(),
            posn.row < self.row_len,
            posn.col < self.col_len,
        ensures
            ({
                let nr = step_row(posn, *dir, 1);
                let nc = step_col(posn, *dir, 1);
                if 0 <= nr < self.row_len && 0 <= nc < self.col_len {
                    r == Some(Posn { row: nr as usize, col: nc as usize })
                } else {
                    r is None
                }
            }),
    {
        let (row_off_e, col_off_e): (i32, i32) = dir.dir_to_offset();
        let row_ok: bool = if row_off_e < 0 {
            posn.row > 0
        } else if row_off_e > 0 {
            posn.row + 1 < self.row_len
        } else {
            true
        };
        let col_ok: bool = if col_off_e < 0 {
            posn.col > 0
        } else if col_off_e > 0 {
            posn.col + 1 < self.col_len
        } else {
            true
        };
        if row_ok && col_ok {
            let new_row: usize = if row_off_e < 0 {
                posn.row - 1
            } else if row_off_e > 0 {
                posn.row + 1
            } else {
                posn.row
            };
            let new_col: usize = if col_off_e < 0 {
                posn.col - 1
            } else if col_off_e > 0 {
                posn.col + 1
            } else {
                posn.col
            };
            Some(Posn::new(new_row, new_col))
        } else {
            None
        }
    }

    /// Every cell of the grid, in row-major order.
    pub fn get_positions(&self) -> (r: Vec<Posn>)
        requires
            self.wf(),
        ensures
            r@.len() == self.row_len * self.col_len,
            forall|k: int|
                0 <= k < r@.len() ==> #[trigger] r@[k] == (Posn {
                    row: (k / (self.col_len as int)) as usize,
                    col: (k % (self.col_len as int)) as usize,
                }),
            forall|k: int|
                0 <= k < r@.len() ==> (#[trigger] r@[k]).row < self.row_len && r@[k].col
                    < self.col_len,
            forall|p: Posn| p.row < self.row_len && p.col < self.col_len ==> r@.contains(p),
    {
        let mut out: Vec<Posn> = Vec::new();
        let mut i: usize = 0;
        while i < self.row_len
            invariant
                0 <= i <= self.row_len,
                out@.len() == i * self.col_len,
                forall|k: int|
                    0 <= k < out@.len() ==> #[trigger] out@[k] == (Posn {
                        row: (k / (self.col_len as int)) as usize,
                        col: (k % (self.col_len as int)) as usize,
                    }),
                forall|k: int|
                    0 <= k < out@.len() ==> (#[trigger] out@[k]).row < self.row_len && out@[k].col
                        < self.col_len,
            decreases self.row_len - i,
        {
            let mut j: usize = 0;
            while j < self.col_len
                invariant
                    0 <= i < self.row_len,
                    0 <= j <= self.col_len,
                    out@.len() == i * self.col_len + j,
                    forall|k: int|
                        0 <= k < out@.len() ==> #[trigger] out@[k] == (Posn {
                            row: (k / (self.col_len as int)) as usize,
                            col: (k % (self.col_len as int)) as usize,
                        }),
                    forall|k: int|
                        0 <= k < out@.len() ==> (#[trigger] out@[k]).row < self.row_len
                            && out@[k].col < self.col_len,
                decreases self.col_len - j,
            {
                out.push(Posn::new(i, j));
                proof {
                    lemma_row_major_index(
                        self.row_len as int,
                        self.col_len as int,
                        i as int,
                        j as int,
                    );
                }
                j += 1;
            }
            proof {
                assert((i + 1) * self.col_len == i * self.col_len + self.col_len)
                    by (nonlinear_arith);
            }
            i += 1;
        }
        proof {
            let rl = self.row_len as int;
            let cl = self.col_len as int;
            assert forall|p: Posn| p.row < self.row_len && p.col < self.col_len implies out@.contains(
                p,
            ) by {
                lemma_row_major_index(rl, cl, p.row as int, p.col as int);
                let k = p.row * cl + p.col;
                assert(out@[k] == p);
            }
        }
        out
    }

    /// Every candidate grid word: for each cell and each of the eight
    /// directions, the run of every length from one up to the grid's edge,
    /// with the characters read along it and the cells it covers.
    #[verifier::loop_isolation(false)]
    #[verifier::rlimit(100)]
    pub fn grid_words(&self) -> (r: Vec<GridWord>)
        requires
            self.wf(),
        ensures
            forall|idx: int| 0 <= idx < r@.len() ==> is_candidate(self.gview(), #[trigger] r@[idx]),
            forall|head: Posn, d: Direction, len: int|
                #[trigger] run_ok(self.gview(), head, d, len) ==> emitted(
                    self.gview(),
                    r@,
                    head,
                    d,
                    len,
                ),
    {
        let ghost g = self.gview();
        proof {
            self.lemma_wf_grid();
        }
        let positions = self.get_positions();
        let dirs = Direction::get_dirs();
        let mut out: Vec<GridWord> = Vec::new();
        let mut pi: usize = 0;
        while pi < positions.len()
            invariant
                0 <= pi <= positions@.len(),
                forall|idx: int| 0 <= idx < out@.len() ==> is_candidate(g, #[trigger] out@[idx]),
                forall|k: int, d: Direction, len: int|
                    0 <= k < pi && #[trigger] run_ok(g, positions@[k], d, len) ==> emitted(
                        g,
                        out@,
                        positions@[k],
                        d,
                        len,
                    ),
            decreases positions@.len() - pi,
        {
            let head = positions[pi];
            let mut di: usize = 0;
            while di < dirs.len()
                invariant
                    0 <= di <= dirs@.len(),
                    forall|idx: int| 0 <= idx < out@.len() ==> is_candidate(g, #[trigger] out@[idx]),
                    forall|k: int, d: Direction, len: int|
                        0 <= k < pi && #[trigger] run_ok(g, positions@[k], d, len) ==> emitted(
                            g,
                            out@,
                            positions@[k],
                            d,
                            len,
                        ),
                    forall|jj: int, len: int|
                        0 <= jj < di && #[trigger] run_ok(g, head, dirs@[jj], len) ==> emitted(
                            g,
                            out@,
                            head,
                            dirs@[jj],
                            len,
                        ),
                decreases dirs@.len() - di,
            {
                let dir = dirs[di];
                let mut word = String::new();
                let c0 = self.get_letter(head);
                push_char(&mut word, c0);
                let mut posns: Vec<Posn> = Vec::new();
                posns.push(head);
                proof {
                    lemma_step_zero(head, dir);
                    assert(step_in_grid(g, head, dir, 0));
                    assert(run_ok(g, head, dir, 1));
                    assert(word@ =~= run_chars(g, head, dir, 1));
                    assert(posns@ =~= run_posns(head, dir, 1));
                }
                let ghost out0 = out@;
                out.push(GridWord { word: word.clone(), posns: copy_posns(&posns) });
                proof {
                    lemma_emitted_grows(g, out0, out@);
                    assert(gw_is_run(g, out@[out@.len() - 1], head, dir, 1));
                    lemma_run_len_bound(g, head, dir, 1);
                }
                let mut curr = head;
                let mut curr_neighbor = self.get_neighbor_in_dir(curr, &dir);
                proof {
                    lemma_step_add(head, dir, 0);
                }
                while curr_neighbor.is_some()
                    invariant
                        1 <= posns@.len() <= self.row_len + self.col_len,
                        run_ok(g, head, dir, posns@.len() as int),
                        curr == step_posn(head, dir, posns@.len() - 1),
                        curr.row < self.row_len,
                        curr.col < self.col_len,
                        ({
                            let n = posns@.len() as int;
                            match curr_neighbor {
                                Some(q) => step_in_grid(g, head, dir, n) && q == step_posn(
                                    head,
                                    dir,
                                    n,
                                ),
                                None => !step_in_grid(g, head, dir, n),
                            }
                        }),
                        posns@ == run_posns(head, dir, posns@.len() as int),
                        word@ == run_chars(g, head, dir, posns@.len() as int),
                        forall|l: int|
                            1 <= l <= posns@.len() ==> #[trigger] emitted(g, out@, head, dir, l),
                        forall|idx: int|
                            0 <= idx < out@.len() ==> is_candidate(g, #[trigger] out@[idx]),
                        forall|k: int, d: Direction, len: int|
                            0 <= k < pi && #[trigger] run_ok(g, positions@[k], d, len) ==> emitted(
                                g,
                                out@,
                                positions@[k],
                                d,
                                len,
                            ),
                        forall|jj: int, len: int|
                            0 <= jj < di && #[trigger] run_ok(g, head, dirs@[jj], len) ==> emitted(
                                g,
                                out@,
                                head,
                                dirs@[jj],
                                len,
                            ),
                    decreases self.row_len + self.col_len - posns@.len(),
                {
                    let ghost n = posns@.len() as int;
                    let next = curr_neighbor.unwrap();
                    proof {
                        assert(run_ok(g, head, dir, n + 1));
                        lemma_run_len_bound(g, head, dir, n + 1);
                    }
                    let c = self.get_letter(next);
                    push_char(&mut word, c);
                    posns.push(next);
                    proof {
                        assert(word@ =~= run_chars(g, head, dir, n + 1));
                        assert(posns@ =~= run_posns(head, dir, n + 1));
                    }
                    let ghost out1 = out@;
                    out.push(GridWord { word: word.clone(), posns: copy_posns(&posns) });
                    proof {
                        lemma_emitted_grows(g, out1, out@);
                        assert(gw_is_run(g, out@[out@.len() - 1], head, dir, n + 1));
                        assert forall|l: int| 1 <= l <= n + 1 implies #[trigger] emitted(
                            g,
                            out@,
                            head,
                            dir,
                            l,
                        ) by {
                            if l <= n {
                                assert(emitted(g, out1, head, dir, l));
                            }
                        }
                    }
                    curr = next;
                    curr_neighbor = self.get_neighbor_in_dir(curr, &dir);
                    proof {
                        lemma_step_add(head, dir, n);
                    }
                }
                proof {
                    let n = posns@.len() as int;
                    assert(!step_in_grid(g, head, dir, n));
                    assert forall|l: int| l > n implies !(#[trigger] run_ok(g, head, dir, l)) by {
                        if run_ok(g, head, dir, l) {
                            assert(step_in_grid(g, head, dir, n));
                        }
                    }
                    assert forall|len: int| #[trigger] run_ok(g, head, dir, len) implies emitted(
                        g,
                        out@,
                        head,
                        dir,
                        len,
                    ) by {
                        if len <= n {
                            assert(emitted(g, out@, head, dir, len));
                        }
                    }
                }
                di += 1;
            }
            proof {
                assert forall|d: Direction, len: int| #[trigger] run_ok(g, head, d, len) implies emitted(
                    g,
                    out@,
                    head,
                    d,
                    len,
                ) by {
                    assert(dirs@.contains(d));
                    let jj = choose|jj: int| 0 <= jj < dirs@.len() && dirs@[jj] == d;
                    assert(run_ok(g, head, dirs@[jj], len));
                }
            }
            pi += 1;
        }
        proof {
            let rl = self.row_len as int;
            let cl = self.col_len as int;
            assert forall|head: Posn, d: Direction, len: int| #[trigger] run_ok(
                g,
                head,
                d,
                len,
            ) implies emitted(g, out@, head, d, len) by {
                assert(step_in_grid(g, head, d, 0));
                lemma_step_zero(head, d);
                lemma_row_major_index(rl, cl, head.row as int, head.col as int);
                let k = head.row * cl + head.col;
                assert(positions@[k] == head);
                assert(run_ok(g, positions@[k], d, len));
            }
        }
        out
    }

    /// Finds every occurrence of every target word as a straight run in any
    /// of the eight directions and stores the set of cells covered by at
    /// least one occurrence. The result is a function of the grid and the
    /// word list alone; both are left unchanged, so solving again yields the
    /// same match result.
    #[verifier::loop_isolation(false)]
    #[verifier::rlimit(100)]
    pub fn solve(&mut self)
        requires
            old(self).wf(),
        ensures
            final(self).wf(),
            final(self).grid == old(self).grid,
            final(self).words == old(self).words,
            final(self).row_len == old(self).row_len,
            final(self).col_len == old(self).col_len,
            final(self).word_indices@.no_duplicates(),
            forall|p: Posn|
                #[trigger] final(self).word_indices@.contains(p) <==> match_set(
                    old(self).gview(),
                    old(self).wview(),
                ).contains(p),
    {
        let ghost g = self.gview();
        let ghost w = self.wview();
        let gws = self.grid_words();
        let mut result: Vec<Posn> = Vec::new();
        let mut i: usize = 0;
        while i < gws.len()
            invariant
                0 <= i <= gws@.len(),
                result@.no_duplicates(),
                forall|q: Posn| #[trigger] result@.contains(q) ==> match_set(g, w).contains(q),
                forall|idx: int| 0 <= idx < i ==> gw_covered(w, #[trigger] gws@[idx], result@),
            decreases gws@.len() - i,
        {
            let gw = &gws[i];
            if contains_word(&self.words, &gw.word) {
                let ghost (head, d, len) = choose|head: Posn, d: Direction, len: int|
                    gw_is_run(g, gws@[i as int], head, d, len);
                let mut j: usize = 0;
                while j < gw.posns.len()
                    invariant
                        0 <= j <= gws@[i as int].posns@.len(),
                        result@.no_duplicates(),
                        forall|q: Posn|
                            #[trigger] result@.contains(q) ==> match_set(g, w).contains(q),
                        forall|idx: int|
                            0 <= idx < i ==> gw_covered(w, #[trigger] gws@[idx], result@),
                        forall|jj: int|
                            0 <= jj < j ==> result@.contains(
                                #[trigger] gws@[i as int].posns@[jj],
                            ),
                    decreases gws@[i as int].posns@.len() - j,
                {
                    let p = gw.posns[j];
                    if !contains_posn(&result, p) {
                        proof {
                            assert(gw_is_run(g, gws@[i as int], head, d, len));
                            assert(run_posns(head, d, len)[j as int] == p);
                            assert(run_posns(head, d, len).contains(p));
                            assert(w.contains(run_chars(g, head, d, len)));
                            assert(is_match_pos(g, w, p));
                            assert(match_set(g, w).contains(p));
                        }
                        let ghost r0 = result@;
                        result.push(p);
                        proof {
                            assert(result@ == r0.push(p));
                            assert forall|q: Posn| #[trigger] result@.contains(q) implies r0.contains(
                                q,
                            ) || q == p by {
                                let idx = choose|idx: int|
                                    0 <= idx < result@.len() && result@[idx] == q;
                                if idx < r0.len() {
                                    assert(r0[idx] == q);
                                }
                            }
                            assert forall|q: Posn| r0.contains(q) implies #[trigger] result@.contains(
                                q,
                            ) by {
                                let idx = choose|idx: int| 0 <= idx < r0.len() && r0[idx] == q;
                                assert(result@[idx] == q);
                            }
                            assert(result@.contains(p)) by {
                                assert(result@[r0.len() as int] == p);
                            }
                            assert forall|a: int, b: int|
                                0 <= a < result@.len() && 0 <= b < result@.len() && a
                                    != b implies result@[a] != result@[b] by {
                                if a == r0.len() as int && b < r0.len() {
                                    if r0[b] == p {
                                        assert(r0.contains(p));
                                    }
                                } else if b == r0.len() as int && a < r0.len() {
                                    if r0[a] == p {
                                        assert(r0.contains(p));
                                    }
                                }
                            }
                            lemma_covered_grows(w, gws@, i as int, r0, result@);
                        }
                    }
                    j += 1;
                }
            }
            proof {
                assert(gw_covered(w, gws@[i as int], result@));
            }
            i += 1;
        }
        proof {
            assert forall|p: Posn| match_set(g, w).contains(p) implies result@.contains(p) by {
                let (head, d, len) = choose|head: Posn, d: Direction, len: int|
                    run_ok(g, head, d, len) && w.contains(#[trigger] run_chars(g, head, d, len))
                        && run_posns(head, d, len).contains(p);
                assert(emitted(g, gws@, head, d, len));
                let idx = choose|idx: int|
                    0 <= idx < gws@.len() && #[trigger] gw_is_run(g, gws@[idx], head, d, len);
                let j = choose|j: int|
                    0 <= j < run_posns(head, d, len).len() && run_posns(head, d, len)[j] == p;
                assert(gws@[idx].posns@[j] == p);
                assert(w.contains(gws@[idx].word@));
                assert(gw_covered(w, gws@[idx], result@));
            }
        }
        self.word_indices = result;
    }
}

} // verus!

use vstd::arithmetic::power2::pow2;
use vstd::prelude::*;
use vstd::string::StringExecFns;

use crate::square::Square;
use crate::uf::UnionFind;

verus! {

/// Cells strictly earlier in row-major order get strictly smaller flat
/// indices.
proof fn lemma_idx_lt(i1: int, j1: int, i2: int, j2: int, m: int)
    by (nonlinear_arith)
    requires
        0 <= j1 < m,
        0 <= j2 < m,
        0 <= i1,
        0 <= i2,
        i1 < i2 || (i1 == i2 && j1 < j2),
    ensures
        i1 * m + j1 < i2 * m + j2,
{
}

/// The flat index of an in-grid cell lies within the flat cell range.
proof fn lemma_idx_bounds(i: int, j: int, n: int, m: int)
    by (nonlinear_arith)
    requires
        0 <= i < n,
        0 <= j < m,
    ensures
        0 <= i * m + j < n * m,
{
}

/// Every flat index within range decomposes into the row and column of
/// exactly one in-grid cell.
proof fn lemma_coords(k: int, n: int, m: int)
    requires
        0 <= k < n * m,
        1 <= m,
    ensures
        0 <= k % m < m,
        0 <= k / m < n,
        k == (k / m) * m + (k % m),
{
    vstd::arithmetic::div_mod::lemma_fundamental_div_mod(k, m);
    vstd::arithmetic::div_mod::lemma_mod_bound(k, m);
    assert(k == (k / m) * m + (k % m)) by (nonlinear_arith)
        requires
            k == m * (k / m) + (k % m),
    ;
    assert(0 <= k / m < n) by (nonlinear_arith)
        requires
            k == (k / m) * m + (k % m),
            0 <= k < n * m,
            0 <= k % m < m,
            m >= 1,
    ;
}

/// A register that can hold a cell count can hold one search step: the
/// node budget of a search tree is at least two.
proof fn lemma_pow2_at_least_two(e: nat)
    requires
        e >= 1,
    ensures
        pow2(e) >= 2,
{
    vstd::arithmetic::power2::lemma2_to64();
    if e > 1 {
        vstd::arithmetic::power2::lemma_pow2_strictly_increases(1, e);
    }
}

/// How many of the first `t` cells are undetermined: neither white nor
/// black.
pub open spec fn undet_in(w: Seq<bool>, bl: Seq<bool>, t: int) -> nat
    decreases t,
{
    if t <= 0 {
        0
    } else {
        undet_in(w, bl, t - 1) + (if !w[t - 1] && !bl[t - 1] {
            1nat
        } else {
            0
        })
    }
}

/// Coloring one undetermined cell lowers the undetermined count of every
/// prefix that contains it by exactly one.
proof fn lemma_undet_update(w: Seq<bool>, bl: Seq<bool>, w2: Seq<bool>, bl2: Seq<bool>, pos: int, t: int)
    requires
        w2.len() == w.len(),
        bl2.len() == bl.len(),
        0 <= pos < w.len(),
        !w[pos] && !bl[pos],
        w2[pos] || bl2[pos],
        forall|x: int| 0 <= x < w.len() && x != pos ==> #[trigger] w2[x] == w[x],
        forall|x: int| 0 <= x < bl.len() && x != pos ==> #[trigger] bl2[x] == bl[x],
        t <= w.len(),
        bl.len() == w.len(),
    ensures
        undet_in(w2, bl2, t) == undet_in(w, bl, t) - (if pos < t {
            1int
        } else {
            0
        }),
    decreases t,
{
    if t > 0 {
        lemma_undet_update(w, bl, w2, bl2, pos, t - 1);
    }
}

/// The glyph of one decimal digit.
pub open spec fn dec_digit(d: int) -> Seq<char> {
    if d == 0 {
        seq!['0']
    } else if d == 1 {
        seq!['1']
    } else if d == 2 {
        seq!['2']
    } else if d == 3 {
        seq!['3']
    } else if d == 4 {
        seq!['4']
    } else if d == 5 {
        seq!['5']
    } else if d == 6 {
        seq!['6']
    } else if d == 7 {
        seq!['7']
    } else if d == 8 {
        seq!['8']
    } else {
        seq!['9']
    }
}

/// The decimal digits of a non-negative value, most significant first.
pub open spec fn dec_seq(v: int) -> Seq<char>
    decreases v,
{
    if v <= 9 {
        dec_digit(v)
    } else {
        dec_seq(v / 10) + dec_digit(v % 10)
    }
}

/// The glyph of one decimal digit, as a borrowed string.
fn digit_str(d: u8) -> (r: &'static str)
    requires
        d <= 9,
    ensures
        r@ == dec_digit(d as int),
{
    proof {
        reveal_strlit("0");
        reveal_strlit("1");
        reveal_strlit("2");
        reveal_strlit("3");
        reveal_strlit("4");
        reveal_strlit("5");
        reveal_strlit("6");
        reveal_strlit("7");
        reveal_strlit("8");
        reveal_strlit("9");
    }
    match d {
        0 => "0",
        1 => "1",
        2 => "2",
        3 => "3",
        4 => "4",
        5 => "5",
        6 => "6",
        7 => "7",
        8 => "8",
        _ => "9",
    }
}

/// The count of recursive calls a search made.
#[derive(Clone, Copy, Debug)]
pub struct Stat {
    pub num_call: u64,
}

impl Default for Stat {
    fn default() -> (r: Stat)
        ensures
            r.num_call == 0,
    {
        Stat { num_call: 0 }
    }
}

/// The solver state: the immutable clue grid, flattened row-major, and one
/// boolean per cell for each color. A cell is undetermined when neither
/// color bit is set; no cell ever carries both.
pub struct Board {
    n: usize,
    m: usize,
    init: Vec<Square>,
    white: Vec<bool>,
    black: Vec<bool>,
}

impl Board {
    pub closed spec fn rows(self) -> int {
        self.n as int
    }

    pub closed spec fn cols(self) -> int {
        self.m as int
    }

    /// The clue grid, flattened row-major.
    pub closed spec fn grid_view(self) -> Seq<Square> {
        self.init@
    }

    /// One boolean per cell, row-major: is the cell marked white?
    pub closed spec fn white_view(self) -> Seq<bool> {
        self.white@
    }

    /// One boolean per cell, row-major: is the cell marked black?
    pub closed spec fn black_view(self) -> Seq<bool> {
        self.black@
    }

    pub open spec fn total(self) -> int {
        self.rows() * self.cols()
    }

    pub open spec fn wf(self) -> bool {
        &&& self.rows() >= 1
        &&& 1 <= self.cols() <= 64
        &&& self.total() <= usize::MAX as int
        &&& self.grid_view().len() == self.total()
        &&& self.white_view().len() == self.total()
        &&& self.black_view().len() == self.total()
        &&& forall|k: int| 0 <= k < self.total() ==> (#[trigger] self.grid_view()[k]).wf()
        &&& forall|k: int|
            0 <= k < self.total() && #[trigger] self.white_view()[k] ==> !self.black_view()[k]
    }

    pub open spec fn in_grid(self, i: int, j: int) -> bool {
        0 <= i < self.rows() && 0 <= j < self.cols()
    }

    /// The flat row-major index of the cell in row `i`, column `j`.
    pub open spec fn idx(self, i: int, j: int) -> int {
        i * self.cols() + j
    }

    pub open spec fn is_white(self, i: int, j: int) -> bool {
        self.white_view()[self.idx(i, j)]
    }

    pub open spec fn is_black(self, i: int, j: int) -> bool {
        self.black_view()[self.idx(i, j)]
    }

    pub open spec fn square_of(self, i: int, j: int) -> Square {
        self.grid_view()[self.idx(i, j)]
    }

    pub open spec fn is_cape(self, i: int, j: int) -> bool {
        self.square_of(i, j) is Number
    }

    /// The first rule: a cape must end up white, so a cape marked black is
    /// an immediate contradiction.
    pub open spec fn capes_not_black(self) -> bool {
        forall|i: int, j: int|
            self.in_grid(i, j) && #[trigger] self.is_cape(i, j) ==> !self.is_black(i, j)
    }

    /// How many of a cell's grid neighbors are marked white. Cells outside
    /// the grid are never white.
    pub open spec fn white_nbrs(self, i: int, j: int) -> int {
        (if self.in_grid(i - 1, j) && self.is_white(i - 1, j) {
            1int
        } else {
            0
        }) + (if self.in_grid(i + 1, j) && self.is_white(i + 1, j) {
            1int
        } else {
            0
        }) + (if self.in_grid(i, j - 1) && self.is_white(i, j - 1) {
            1int
        } else {
            0
        }) + (if self.in_grid(i, j + 1) && self.is_white(i, j + 1) {
            1int
        } else {
            0
        })
    }

    /// How many of a cell's four neighbor positions are not marked black:
    /// positions outside the grid count as not-black, and so do white and
    /// undetermined cells.
    pub open spec fn notblack_nbrs(self, i: int, j: int) -> int {
        (if self.in_grid(i - 1, j) && self.is_black(i - 1, j) {
            0int
        } else {
            1
        }) + (if self.in_grid(i + 1, j) && self.is_black(i + 1, j) {
            0int
        } else {
            1
        }) + (if self.in_grid(i, j - 1) && self.is_black(i, j - 1) {
            0int
        } else {
            1
        }) + (if self.in_grid(i, j + 1) && self.is_black(i, j + 1) {
            0int
        } else {
            1
        })
    }

    /// The second rule, at one cell. A white cape is the tip of the white
    /// region: at most one white neighbor, and at least one side still
    /// possibly open. A white non-cape cell is never a dead end: at least
    /// two of its sides must remain not-black.
    pub open spec fn open_side_ok(self, i: int, j: int) -> bool {
        self.is_white(i, j) ==> (if self.is_cape(i, j) {
            self.white_nbrs(i, j) < 2 && self.notblack_nbrs(i, j) >= 1
        } else {
            self.notblack_nbrs(i, j) >= 2
        })
    }

    /// The second rule: every white cell satisfies the open-side condition.
    pub open spec fn open_sides_ok(self) -> bool {
        forall|i: int, j: int| self.in_grid(i, j) ==> #[trigger] self.open_side_ok(i, j)
    }

    /// The third rule, at one window: the four cells with upper-left corner
    /// (i, j) are neither all white nor all black.
    pub open spec fn block_ok(self, i: int, j: int) -> bool {
        &&& !(self.is_white(i, j) && self.is_white(i, j + 1) && self.is_white(i + 1, j)
            && self.is_white(i + 1, j + 1))
        &&& !(self.is_black(i, j) && self.is_black(i, j + 1) && self.is_black(i + 1, j)
            && self.is_black(i + 1, j + 1))
    }

    /// The third rule: no 2x2 window is entirely one color.
    pub open spec fn no_mono_blocks(self) -> bool {
        forall|i: int, j: int|
            0 <= i < self.rows() - 1 && 0 <= j < self.cols() - 1 ==> #[trigger] self.block_ok(i, j)
    }

    /// The fourth rule, for one cape of clue `k` and the upward direction:
    /// the `k - 1` cells above the cape must all fit in the grid and be
    /// not-black, and the cell just beyond the arm, if any, must not be
    /// white (the grid edge satisfies this on its own).
    pub open spec fn arm_up_ok(self, i: int, j: int, k: int) -> bool {
        &&& i >= k - 1
        &&& forall|r: int| i - k < r < i ==> !self.is_black(r, j)
        &&& (i - k < 0 || !self.is_white(i - k, j))
    }

    pub open spec fn arm_down_ok(self, i: int, j: int, k: int) -> bool {
        &&& i + k <= self.rows()
        &&& forall|r: int| i < r < i + k ==> !self.is_black(r, j)
        &&& (i + k >= self.rows() || !self.is_white(i + k, j))
    }

    pub open spec fn arm_left_ok(self, i: int, j: int, k: int) -> bool {
        &&& j >= k - 1
        &&& forall|c: int| j - k < c < j ==> !self.is_black(i, c)
        &&& (j - k < 0 || !self.is_white(i, j - k))
    }

    pub open spec fn arm_right_ok(self, i: int, j: int, k: int) -> bool {
        &&& j + k <= self.cols()
        &&& forall|c: int| j < c < j + k ==> !self.is_black(i, c)
        &&& (j + k >= self.cols() || !self.is_white(i, j + k))
    }

    /// The fourth rule, at one cell: a cape with a specified clue `k >= 2`
    /// must still have at least one direction in which its white arm can
    /// extend exactly `k` cells; plain capes (clue 1) are exempt.
    pub open spec fn cape_arm_ok(self, i: int, j: int) -> bool {
        let k = self.square_of(i, j).clue();
        k >= 2 ==> (self.arm_up_ok(i, j, k) || self.arm_down_ok(i, j, k) || self.arm_left_ok(
            i,
            j,
            k,
        ) || self.arm_right_ok(i, j, k))
    }

    /// The fourth rule: every numbered cape keeps a viable arm direction.
    pub open spec fn cape_arms_ok(self) -> bool {
        forall|i: int, j: int| self.in_grid(i, j) ==> #[trigger] self.cape_arm_ok(i, j)
    }

    /// A flat index that addresses some cell of the grid.
    pub open spec fn valid_cell(self, k: int) -> bool {
        0 <= k < self.total()
    }

    /// The cell at flat index `k` is white or undetermined.
    pub open spec fn nonblack_cell(self, k: int) -> bool {
        !self.black_view()[k]
    }

    /// The cells at flat indices `a` and `b` share a grid edge.
    pub open spec fn adjacent(self, a: int, b: int) -> bool {
        exists|i: int, j: int|
            #![trigger self.in_grid(i, j)]
            {
                &&& self.in_grid(i, j)
                &&& a == self.idx(i, j)
                &&& {
                    ||| (j + 1 < self.cols() && b == a + 1)
                    ||| (0 <= j - 1 && b == a - 1)
                    ||| (i + 1 < self.rows() && b == a + self.cols())
                    ||| (0 <= i - 1 && b == a - self.cols())
                }
            }
    }

    /// A walk from `a` to `b` along shared edges that never steps on a
    /// black cell. Undetermined cells may serve as connective tissue: they
    /// might still become white.
    pub open spec fn is_path(self, p: Seq<int>, a: int, b: int) -> bool {
        &&& p.len() >= 1
        &&& p[0] == a
        &&& p.last() == b
        &&& forall|t: int|
            0 <= t < p.len() ==> self.valid_cell(#[trigger] p[t]) && self.nonblack_cell(p[t])
        &&& forall|t1: int, t2: int|
            0 <= t1 && t2 == t1 + 1 && t2 < p.len() ==> #[trigger] self.adjacent(p[t1], p[t2])
    }

    /// Some not-black walk joins `a` and `b`.
    pub open spec fn linked(self, a: int, b: int) -> bool {
        exists|p: Seq<int>| self.is_path(p, a, b)
    }

    /// The fifth rule: every two white cells can still end up in one white
    /// region. If two white cells are unreachable from each other even
    /// through undetermined cells, no completion can connect them.
    pub open spec fn whites_connected(self) -> bool {
        forall|a: int, b: int|
            self.valid_cell(a) && self.valid_cell(b) && self.white_view()[a]
                && self.white_view()[b] ==> #[trigger] self.linked(a, b)
    }

    /// All five rules together.
    pub open spec fn consistent(self) -> bool {
        &&& self.capes_not_black()
        &&& self.open_sides_ok()
        &&& self.no_mono_blocks()
        &&& self.cape_arms_ok()
        &&& self.whites_connected()
    }

    /// Every cell is colored.
    pub open spec fn fully_colored(self) -> bool {
        forall|k: int|
            0 <= k < self.total() ==> (self.white_view()[k] || #[trigger] self.black_view()[k])
    }

    proof fn lemma_adjacent_sym(self, a: int, b: int)
        requires
            self.adjacent(a, b),
        ensures
            self.adjacent(b, a),
    {
        let (i, j): (int, int) = choose|i: int, j: int|
            {
                &&& self.in_grid(i, j)
                &&& a == self.idx(i, j)
                &&& {
                    ||| (j + 1 < self.cols() && b == a + 1)
                    ||| (0 <= j - 1 && b == a - 1)
                    ||| (i + 1 < self.rows() && b == a + self.cols())
                    ||| (0 <= i - 1 && b == a - self.cols())
                }
            };
        if j + 1 < self.cols() && b == a + 1 {
            assert(self.in_grid(i, j + 1));
            assert(b == self.idx(i, j + 1));
        } else if 0 <= j - 1 && b == a - 1 {
            assert(self.in_grid(i, j - 1));
            assert(b == self.idx(i, j - 1));
        } else if i + 1 < self.rows() && b == a + self.cols() {
            assert(self.in_grid(i + 1, j));
            assert(b == self.idx(i + 1, j)) by (nonlinear_arith)
                requires
                    a == self.idx(i, j),
                    b == a + self.cols(),
            ;
        } else {
            assert(self.in_grid(i - 1, j));
            assert(b == self.idx(i - 1, j)) by (nonlinear_arith)
                requires
                    a == self.idx(i, j),
                    b == a - self.cols(),
            ;
        }
    }

    proof fn lemma_linked_refl(self, a: int)
        requires
            self.valid_cell(a),
            self.nonblack_cell(a),
        ensures
            self.linked(a, a),
    {
        let p = seq![a];
        assert(self.is_path(p, a, a));
    }

    proof fn lemma_linked_step(self, a: int, b: int)
        requires
            self.valid_cell(a),
            self.valid_cell(b),
            self.nonblack_cell(a),
            self.nonblack_cell(b),
            self.adjacent(a, b),
        ensures
            self.linked(a, b),
    {
        let p = seq![a, b];
        assert(self.adjacent(p[0], p[1]));
        assert(self.is_path(p, a, b));
    }

    proof fn lemma_linked_sym(self, a: int, b: int)
        requires
            self.linked(a, b),
        ensures
            self.linked(b, a),
    {
        let p = choose|p: Seq<int>| self.is_path(p, a, b);
        let l = p.len() as int;
        let q = Seq::new(p.len(), |t: int| p[l - 1 - t]);
        assert forall|t1: int, t2: int|
            0 <= t1 && t2 == t1 + 1 && t2 < q.len() implies #[trigger] self.adjacent(
            q[t1],
            q[t2],
        ) by {
            assert(self.adjacent(p[l - 1 - t2], p[l - 1 - t1]));
            self.lemma_adjacent_sym(p[l - 1 - t2], p[l - 1 - t1]);
        }
        assert(q[0] == p[l - 1]);
        assert(q.last() == p[0]);
        assert(self.is_path(q, b, a));
    }

    proof fn lemma_linked_trans(self, a: int, b: int, c: int)
        requires
            self.linked(a, b),
            self.linked(b, c),
        ensures
            self.linked(a, c),
    {
        let p1 = choose|p: Seq<int>| self.is_path(p, a, b);
        let p2 = choose|p: Seq<int>| self.is_path(p, b, c);
        let l1 = p1.len() as int;
        let l2 = p2.len() as int;
        let q = p1 + p2.subrange(1, l2);
        assert(q.len() == l1 + l2 - 1);
        assert forall|t: int| 0 <= t < q.len() implies self.valid_cell(#[trigger] q[t])
            && self.nonblack_cell(q[t]) by {
            if t < l1 {
                assert(q[t] == p1[t]);
            } else {
                assert(q[t] == p2[t - l1 + 1]);
            }
        }
        assert forall|t1: int, t2: int|
            0 <= t1 && t2 == t1 + 1 && t2 < q.len() implies #[trigger] self.adjacent(
            q[t1],
            q[t2],
        ) by {
            if t2 < l1 {
                assert(q[t1] == p1[t1]);
                assert(q[t2] == p1[t2]);
                assert(self.adjacent(p1[t1], p1[t2]));
            } else if t1 == l1 - 1 {
                assert(q[t1] == p1[l1 - 1]);
                assert(p1[l1 - 1] == b);
                assert(q[t2] == p2[1]);
                assert(p2[0] == b);
                assert(self.adjacent(p2[0], p2[1]));
            } else {
                assert(q[t1] == p2[t1 - l1 + 1]);
                assert(q[t2] == p2[t2 - l1 + 1]);
                assert(self.adjacent(p2[t1 - l1 + 1], p2[t2 - l1 + 1]));
            }
        }
        assert(q[0] == p1[0]);
        if l2 == 1 {
            assert(q.last() == p1[l1 - 1]);
        } else {
            assert(q.last() == p2[l2 - 1]);
        }
        assert(self.is_path(q, a, c));
    }

    /// `b2` colors at least the cells `self` colors, the same way, on the
    /// same clue grid.
    pub open spec fn extended_by(self, b2: Board) -> bool {
        &&& b2.rows() == self.rows()
        &&& b2.cols() == self.cols()
        &&& b2.grid_view() == self.grid_view()
        &&& b2.wf()
        &&& forall|x: int|
            0 <= x < self.total() && #[trigger] self.white_view()[x] ==> b2.white_view()[x]
        &&& forall|x: int|
            0 <= x < self.total() && #[trigger] self.black_view()[x] ==> b2.black_view()[x]
    }

    /// Some full coloring that respects the current assignment satisfies
    /// all five rules: the board can still be completed to a solution.
    pub open spec fn solvable(self) -> bool {
        exists|b2: Board|
            #[trigger] self.extended_by(b2) && b2.fully_colored() && b2.consistent()
    }

    proof fn lemma_adjacent_transfer(self, b2: Board, x: int, y: int)
        requires
            self.rows() == b2.rows(),
            self.cols() == b2.cols(),
            b2.adjacent(x, y),
        ensures
            self.adjacent(x, y),
    {
        let (i, j): (int, int) = choose|i: int, j: int|
            {
                &&& b2.in_grid(i, j)
                &&& x == b2.idx(i, j)
                &&& {
                    ||| (j + 1 < b2.cols() && y == x + 1)
                    ||| (0 <= j - 1 && y == x - 1)
                    ||| (i + 1 < b2.rows() && y == x + b2.cols())
                    ||| (0 <= i - 1 && y == x - b2.cols())
                }
            };
        assert(self.in_grid(i, j));
        assert(x == self.idx(i, j));
    }

    /// A not-black walk of an extension is a not-black walk of the partial
    /// board: coloring cells black only removes walks.
    proof fn lemma_path_restrict(self, b2: Board, p: Seq<int>, a: int, c: int)
        requires
            self.wf(),
            self.extended_by(b2),
            b2.is_path(p, a, c),
        ensures
            self.is_path(p, a, c),
    {
        assert forall|t: int| 0 <= t < p.len() implies self.valid_cell(#[trigger] p[t])
            && self.nonblack_cell(p[t]) by {
            assert(b2.valid_cell(p[t]) && b2.nonblack_cell(p[t]));
        }
        assert forall|t1: int, t2: int|
            0 <= t1 && t2 == t1 + 1 && t2 < p.len() implies #[trigger] self.adjacent(
            p[t1],
            p[t2],
        ) by {
            assert(b2.adjacent(p[t1], p[t2]));
            self.lemma_adjacent_transfer(b2, p[t1], p[t2]);
        }
    }

    proof fn lemma_nbrs_restrict(self, b2: Board, i: int, j: int)
        requires
            self.wf(),
            self.extended_by(b2),
            self.in_grid(i, j),
        ensures
            self.white_nbrs(i, j) <= b2.white_nbrs(i, j),
            b2.notblack_nbrs(i, j) <= self.notblack_nbrs(i, j),
    {
        if self.in_grid(i - 1, j) {
            lemma_idx_bounds(i - 1, j, self.rows(), self.cols());
        }
        if self.in_grid(i + 1, j) {
            lemma_idx_bounds(i + 1, j, self.rows(), self.cols());
        }
        if self.in_grid(i, j - 1) {
            lemma_idx_bounds(i, j - 1, self.rows(), self.cols());
        }
        if self.in_grid(i, j + 1) {
            lemma_idx_bounds(i, j + 1, self.rows(), self.cols());
        }
    }

    proof fn lemma_arm_up_restrict(self, b2: Board, i: int, j: int, k: int)
        requires
            self.wf(),
            self.extended_by(b2),
            self.in_grid(i, j),
            2 <= k,
            b2.arm_up_ok(i, j, k),
        ensures
            self.arm_up_ok(i, j, k),
    {
        assert forall|r: int| i - k < r < i implies !self.is_black(r, j) by {
            lemma_idx_bounds(r, j, self.rows(), self.cols());
            assert(!b2.is_black(r, j));
        }
        if i - k >= 0 {
            lemma_idx_bounds(i - k, j, self.rows(), self.cols());
            assert(!b2.is_white(i - k, j));
        }
    }

    proof fn lemma_arm_down_restrict(self, b2: Board, i: int, j: int, k: int)
        requires
            self.wf(),
            self.extended_by(b2),
            self.in_grid(i, j),
            2 <= k,
            b2.arm_down_ok(i, j, k),
        ensures
            self.arm_down_ok(i, j, k),
    {
        assert forall|r: int| i < r < i + k implies !self.is_black(r, j) by {
            lemma_idx_bounds(r, j, self.rows(), self.cols());
            assert(!b2.is_black(r, j));
        }
        if i + k < self.rows() {
            lemma_idx_bounds(i + k, j, self.rows(), self.cols());
            assert(!b2.is_white(i + k, j));
        }
    }

    proof fn lemma_arm_left_restrict(self, b2: Board, i: int, j: int, k: int)
        requires
            self.wf(),
            self.extended_by(b2),
            self.in_grid(i, j),
            2 <= k,
            b2.arm_left_ok(i, j, k),
        ensures
            self.arm_left_ok(i, j, k),
    {
        assert forall|c: int| j - k < c < j implies !self.is_black(i, c) by {
            lemma_idx_bounds(i, c, self.rows(), self.cols());
            assert(!b2.is_black(i, c));
        }
        if j - k >= 0 {
            lemma_idx_bounds(i, j - k, self.rows(), self.cols());
            assert(!b2.is_white(i, j - k));
        }
    }

    proof fn lemma_arm_right_restrict(self, b2: Board, i: int, j: int, k: int)
        requires
            self.wf(),
            self.extended_by(b2),
            self.in_grid(i, j),
            2 <= k,
            b2.arm_right_ok(i, j, k),
        ensures
            self.arm_right_ok(i, j, k),
    {
        assert forall|c: int| j < c < j + k implies !self.is_black(i, c) by {
            lemma_idx_bounds(i, c, self.rows(), self.cols());
            assert(!b2.is_black(i, c));
        }
        if j + k < self.cols() {
            lemma_idx_bounds(i, j + k, self.rows(), self.cols());
            assert(!b2.is_white(i, j + k));
        }
    }

    /// The five rules only lose ground as cells are colored: a board whose
    /// extension is consistent is consistent itself. This is what makes
    /// pruning on a contradiction sound: once a partial board fails a
    /// rule, every completion fails it too.
    proof fn lemma_consistent_restrict(self, b2: Board)
        requires
            self.wf(),
            self.extended_by(b2),
            b2.consistent(),
        ensures
            self.consistent(),
    {
        assert forall|i: int, j: int|
            self.in_grid(i, j) && #[trigger] self.is_cape(i, j) implies !self.is_black(i, j) by {
            lemma_idx_bounds(i, j, self.rows(), self.cols());
            assert(b2.is_cape(i, j));
            assert(!b2.is_black(i, j));
        }
        assert forall|i: int, j: int| self.in_grid(i, j) implies #[trigger] self.open_side_ok(
            i,
            j,
        ) by {
            if self.is_white(i, j) {
                lemma_idx_bounds(i, j, self.rows(), self.cols());
                assert(b2.is_white(i, j));
                assert(b2.open_side_ok(i, j));
                self.lemma_nbrs_restrict(b2, i, j);
            }
        }
        assert forall|i: int, j: int|
            0 <= i < self.rows() - 1 && 0 <= j < self.cols() - 1 implies #[trigger] self.block_ok(
            i,
            j,
        ) by {
            lemma_idx_bounds(i, j, self.rows(), self.cols());
            lemma_idx_bounds(i, j + 1, self.rows(), self.cols());
            lemma_idx_bounds(i + 1, j, self.rows(), self.cols());
            lemma_idx_bounds(i + 1, j + 1, self.rows(), self.cols());
            assert(b2.block_ok(i, j));
        }
        assert forall|i: int, j: int| self.in_grid(i, j) implies #[trigger] self.cape_arm_ok(
            i,
            j,
        ) by {
            lemma_idx_bounds(i, j, self.rows(), self.cols());
            let k = self.square_of(i, j).clue();
            if k >= 2 {
                assert(b2.cape_arm_ok(i, j));
                assert(b2.square_of(i, j) == self.square_of(i, j));
                if b2.arm_up_ok(i, j, k) {
                    self.lemma_arm_up_restrict(b2, i, j, k);
                } else if b2.arm_down_ok(i, j, k) {
                    self.lemma_arm_down_restrict(b2, i, j, k);
                } else if b2.arm_left_ok(i, j, k) {
                    self.lemma_arm_left_restrict(b2, i, j, k);
                } else {
                    self.lemma_arm_right_restrict(b2, i, j, k);
                }
            }
        }
        assert forall|a: int, c: int|
            self.valid_cell(a) && self.valid_cell(c) && self.white_view()[a]
                && self.white_view()[c] implies #[trigger] self.linked(a, c) by {
            assert(b2.white_view()[a] && b2.white_view()[c]);
            assert(b2.linked(a, c));
            let p = choose|p: Seq<int>| b2.is_path(p, a, c);
            self.lemma_path_restrict(b2, p, a, c);
            assert(self.is_path(p, a, c));
        }
    }

    /// The union-find classes claim no more than the walks justify: two
    /// distinct cells in one class are always joined by a not-black walk.
    spec fn uf_linked_below(self, uf: UnionFind) -> bool {
        forall|x: int, y: int|
            0 <= x < self.total() && 0 <= y < self.total() && #[trigger] uf.same(x, y) ==> (x == y
                || self.linked(x, y))
    }

    /// Every edge between two not-black cells has been merged.
    spec fn edges_united(self, uf: UnionFind) -> bool {
        forall|u: int, v: int|
            self.valid_cell(u) && self.valid_cell(v) && self.nonblack_cell(u)
                && self.nonblack_cell(v) && #[trigger] self.adjacent(u, v) ==> uf.same(u, v)
    }

    /// The vertical edge below cell (i2, j2), if not-black on both ends,
    /// has been merged.
    spec fn vert_united(self, uf: UnionFind, i2: int, j2: int) -> bool {
        (!self.is_black(i2, j2) && !self.is_black(i2 + 1, j2)) ==> uf.same(
            self.idx(i2, j2),
            self.idx(i2 + 1, j2),
        )
    }

    /// The horizontal edge right of cell (i2, j2), if not-black on both
    /// ends, has been merged.
    spec fn horiz_united(self, uf: UnionFind, i2: int, j2: int) -> bool {
        (!self.is_black(i2, j2) && !self.is_black(i2, j2 + 1)) ==> uf.same(
            self.idx(i2, j2),
            self.idx(i2, j2 + 1),
        )
    }

    /// Merges one not-black edge, keeping the classes within what walks
    /// justify.
    fn unite_nonblack(&self, uf: &mut UnionFind, u: usize, v: usize)
        requires
            self.wf(),
            old(uf).wf(),
            old(uf).count() == self.total(),
            u < self.total(),
            v < self.total(),
            self.nonblack_cell(u as int),
            self.nonblack_cell(v as int),
            self.adjacent(u as int, v as int),
            self.uf_linked_below(*old(uf)),
        ensures
            final(uf).wf(),
            final(uf).count() == self.total(),
            self.uf_linked_below(*final(uf)),
            forall|x: int, y: int|
                0 <= x < self.total() && 0 <= y < self.total() && #[trigger] old(uf).same(x, y)
                    ==> final(uf).same(x, y),
            final(uf).same(u as int, v as int),
    {
        uf.unite(u, v);
        proof {
            let t = self.total();
            let ui = u as int;
            let vi = v as int;
            self.lemma_linked_step(ui, vi);
            assert forall|x: int, y: int|
                0 <= x < t && 0 <= y < t && #[trigger] uf.same(x, y) implies (x == y
                || self.linked(x, y)) by {
                if !old(uf).same(x, y) {
                    if old(uf).same(x, ui) && old(uf).same(y, vi) {
                        if x != ui {
                            self.lemma_linked_trans(x, ui, vi);
                        }
                        if y != vi {
                            self.lemma_linked_sym(y, vi);
                            self.lemma_linked_trans(x, vi, y);
                        }
                    } else {
                        assert(old(uf).same(x, vi) && old(uf).same(y, ui));
                        self.lemma_adjacent_sym(ui, vi);
                        self.lemma_linked_step(vi, ui);
                        if x != vi {
                            self.lemma_linked_trans(x, vi, ui);
                        }
                        if y != ui {
                            self.lemma_linked_sym(y, ui);
                            self.lemma_linked_trans(x, ui, y);
                        }
                    }
                }
            }
        }
    }

    /// Every cell along one walk ends up in the walk's single class.
    proof fn lemma_path_united(self, uf: UnionFind, p: Seq<int>, x: int, y: int)
        requires
            uf.wf(),
            uf.count() == self.total(),
            self.edges_united(uf),
            self.is_path(p, x, y),
        ensures
            uf.same(x, y),
        decreases p.len(),
    {
        if p.len() > 1 {
            assert(self.adjacent(p[0], p[1]));
            assert(uf.same(p[0], p[1]));
            let q = p.subrange(1, p.len() as int);
            assert forall|t1: int, t2: int|
                0 <= t1 && t2 == t1 + 1 && t2 < q.len() implies #[trigger] self.adjacent(
                q[t1],
                q[t2],
            ) by {
                assert(q[t1] == p[t1 + 1]);
                assert(q[t2] == p[t2 + 1]);
                assert(self.adjacent(p[t1 + 1], p[t2 + 1]));
            }
            assert(self.is_path(q, p[1], y));
            self.lemma_path_united(uf, q, p[1], y);
        }
    }

    proof fn lemma_linked_united(self, uf: UnionFind, x: int, y: int)
        requires
            uf.wf(),
            uf.count() == self.total(),
            self.edges_united(uf),
            self.linked(x, y),
        ensures
            uf.same(x, y),
    {
        let p = choose|p: Seq<int>| self.is_path(p, x, y);
        self.lemma_path_united(uf, p, x, y);
    }

    /// Builds the starting state of a puzzle: every cape is pre-marked
    /// white, every blank cell is undetermined, and nothing is black. The
    /// grid must be non-empty, rectangular, and at most 64 columns wide.
    pub fn new(init: &Vec<Vec<Square>>) -> (r: Board)
        requires
            init@.len() >= 1,
            1 <= init@[0]@.len() <= 64,
            forall|i: int| 0 <= i < init@.len() ==> (#[trigger] init@[i])@.len() == init@[0]@.len(),
            forall|i: int, j: int|
                0 <= i < init@.len() && 0 <= j < init@[0]@.len() ==> (#[trigger] init@[i]@[j]).wf(),
            init@.len() * init@[0]@.len() <= usize::MAX,
        ensures
            r.wf(),
            r.rows() == init@.len(),
            r.cols() == init@[0]@.len(),
            forall|i: int, j: int| r.in_grid(i, j) ==> #[trigger] r.square_of(i, j) == init@[i]@[j],
            forall|i: int, j: int|
                r.in_grid(i, j) ==> (#[trigger] r.is_white(i, j) <==> init@[i]@[j] is Number),
            forall|i: int, j: int| r.in_grid(i, j) ==> !#[trigger] r.is_black(i, j),
    {
        let n = init.len();
        let m = init[0].len();
        let mut grid: Vec<Square> = Vec::new();
        let mut white: Vec<bool> = Vec::new();
        let mut black: Vec<bool> = Vec::new();
        proof {
            assert(0 * (m as int) == 0) by (nonlinear_arith);
        }
        for i in 0..n
            invariant
                n == init@.len(),
                m == init@[0]@.len(),
                1 <= m <= 64,
                n * m <= usize::MAX,
                forall|i2: int| 0 <= i2 < n ==> (#[trigger] init@[i2])@.len() == m,
                grid@.len() == i * m,
                white@.len() == i * m,
                black@.len() == i * m,
                forall|i2: int, j2: int|
                    0 <= i2 < i && 0 <= j2 < m ==> #[trigger] grid@[i2 * m + j2] == init@[i2]@[j2],
                forall|i2: int, j2: int|
                    0 <= i2 < i && 0 <= j2 < m ==> (#[trigger] white@[i2 * m + j2] <==> init@[i2]@[j2] is Number),
                forall|i2: int, j2: int| 0 <= i2 < i && 0 <= j2 < m ==> !#[trigger] black@[i2 * m + j2],
        {
            for j in 0..m
                invariant
                    n == init@.len(),
                    m == init@[0]@.len(),
                    1 <= m <= 64,
                    i < n,
                    n * m <= usize::MAX,
                    forall|i2: int| 0 <= i2 < n ==> (#[trigger] init@[i2])@.len() == m,
                    grid@.len() == i * m + j,
                    white@.len() == i * m + j,
                    black@.len() == i * m + j,
                    forall|i2: int, j2: int|
                        0 <= i2 < n && 0 <= j2 < m && (i2 < i || (i2 == i && j2 < j))
                            ==> #[trigger] grid@[i2 * m + j2] == init@[i2]@[j2],
                    forall|i2: int, j2: int|
                        0 <= i2 < n && 0 <= j2 < m && (i2 < i || (i2 == i && j2 < j))
                            ==> (#[trigger] white@[i2 * m + j2] <==> init@[i2]@[j2] is Number),
                    forall|i2: int, j2: int|
                        0 <= i2 < n && 0 <= j2 < m && (i2 < i || (i2 == i && j2 < j))
                            ==> !#[trigger] black@[i2 * m + j2],
            {
                proof {
                    lemma_idx_bounds(i as int, j as int, n as int, m as int);
                }
                let sq = init[i][j];
                let is_cape = match sq {
                    Square::Blank => false,
                    Square::Number(_) => true,
                };
                grid.push(sq);
                white.push(is_cape);
                black.push(false);
                proof {
                    assert forall|i2: int, j2: int|
                        #![trigger grid@[i2 * m + j2]]
                        #![trigger white@[i2 * m + j2]]
                        #![trigger black@[i2 * m + j2]]
                        0 <= i2 < n && 0 <= j2 < m && (i2 < i || (i2 == i && j2 < j + 1)) implies {
                        &&& 0 <= i2 * m + j2 < grid@.len()
                        &&& grid@[i2 * m + j2] == init@[i2]@[j2]
                        &&& (white@[i2 * m + j2] <==> init@[i2]@[j2] is Number)
                        &&& !black@[i2 * m + j2]
                    } by {
                        lemma_idx_bounds(i2, j2, n as int, m as int);
                        if i2 < i || (i2 == i && j2 < j) {
                            lemma_idx_lt(i2, j2, i as int, j as int, m as int);
                        } else {
                            assert(i2 == i && j2 == j);
                            assert(i2 * m + j2 == i * m + j) by (nonlinear_arith)
                                requires
                                    i2 == i && j2 == j,
                            ;
                        }
                    }
                }
            }
            proof {
                assert((i + 1) * m == i * m + m) by (nonlinear_arith);
            }
        }
        let r = Board { n, m, init: grid, white, black };
        proof {
            assert forall|i2: int, j2: int| r.in_grid(i2, j2) implies #[trigger] r.square_of(i2, j2)
                == init@[i2]@[j2] && (#[trigger] r.is_white(i2, j2) <==> init@[i2]@[j2] is Number)
                && !r.is_black(i2, j2) by {
                lemma_idx_bounds(i2, j2, n as int, m as int);
            }
            assert forall|k: int|
                #![trigger r.grid_view()[k]]
                #![trigger r.white_view()[k]]
                #![trigger r.black_view()[k]]
                0 <= k < r.total() implies r.grid_view()[k].wf() && !r.black_view()[k] by {
                lemma_coords(k, n as int, m as int);
                let i2 = k / (m as int);
                let j2 = k % (m as int);
                assert(r.init@[i2 * (m as int) + j2] == init@[i2]@[j2]);
                assert(!r.black@[i2 * (m as int) + j2]);
            }
        }
        r
    }

    /// The flat index of the in-grid cell (i, j).
    fn flat(&self, i: usize, j: usize) -> (k: usize)
        requires
            self.wf(),
            i < self.rows(),
            j < self.cols(),
        ensures
            k == self.idx(i as int, j as int),
            k < self.total(),
    {
        proof {
            lemma_idx_bounds(i as int, j as int, self.rows(), self.cols());
        }
        i * self.m + j
    }

    /// Checks the first rule over the whole board.
    pub fn check_color_of_capes(&self) -> (r: Result<(), ()>)
        requires
            self.wf(),
        ensures
            r is Ok <==> self.capes_not_black(),
    {
        let n = self.n;
        let m = self.m;
        for i in 0..n
            invariant
                n == self.n,
                m == self.m,
                self.wf(),
                forall|i2: int, j2: int|
                    0 <= i2 < i && 0 <= j2 < m && #[trigger] self.is_cape(i2, j2) ==> !self.is_black(
                        i2,
                        j2,
                    ),
        {
            for j in 0..m
                invariant
                    n == self.n,
                    m == self.m,
                    i < n,
                    self.wf(),
                    forall|i2: int, j2: int|
                        0 <= i2 < n && 0 <= j2 < m && (i2 < i || (i2 == i && j2 < j))
                            && #[trigger] self.is_cape(i2, j2) ==> !self.is_black(i2, j2),
            {
                let k = self.flat(i, j);
                let cape = match self.init[k] {
                    Square::Blank => false,
                    Square::Number(_) => true,
                };
                if cape && self.black[k] {
                    proof {
                        assert(self.is_cape(i as int, j as int));
                        assert(self.is_black(i as int, j as int));
                    }
                    return Err(());
                }
            }
        }
        Ok(())
    }

    /// Checks the second rule over the whole board.
    pub fn check_capes(&self) -> (r: Result<(), ()>)
        requires
            self.wf(),
        ensures
            r is Ok <==> self.open_sides_ok(),
    {
        let n = self.n;
        let m = self.m;
        for i in 0..n
            invariant
                n == self.n,
                m == self.m,
                self.wf(),
                forall|i2: int, j2: int|
                    0 <= i2 < i && 0 <= j2 < m ==> #[trigger] self.open_side_ok(i2, j2),
        {
            for j in 0..m
                invariant
                    n == self.n,
                    m == self.m,
                    i < n,
                    self.wf(),
                    forall|i2: int, j2: int|
                        0 <= i2 < n && 0 <= j2 < m && (i2 < i || (i2 == i && j2 < j))
                            ==> #[trigger] self.open_side_ok(i2, j2),
            {
                let k = self.flat(i, j);
                if self.white[k] {
                    let mut num_white: u8 = 0;
                    let mut num_nonblack: u8 = 0;
                    if i > 0 {
                        let ku = self.flat(i - 1, j);
                        if self.white[ku] {
                            num_white += 1;
                        }
                        if !self.black[ku] {
                            num_nonblack += 1;
                        }
                    } else {
                        num_nonblack += 1;
                    }
                    if i + 1 < n {
                        let kd = self.flat(i + 1, j);
                        if self.white[kd] {
                            num_white += 1;
                        }
                        if !self.black[kd] {
                            num_nonblack += 1;
                        }
                    } else {
                        num_nonblack += 1;
                    }
                    if j > 0 {
                        let kl = self.flat(i, j - 1);
                        if self.white[kl] {
                            num_white += 1;
                        }
                        if !self.black[kl] {
                            num_nonblack += 1;
                        }
                    } else {
                        num_nonblack += 1;
                    }
                    if j + 1 < m {
                        let kr = self.flat(i, j + 1);
                        if self.white[kr] {
                            num_white += 1;
                        }
                        if !self.black[kr] {
                            num_nonblack += 1;
                        }
                    } else {
                        num_nonblack += 1;
                    }
                    proof {
                        assert(num_white as int == self.white_nbrs(i as int, j as int));
                        assert(num_nonblack as int == self.notblack_nbrs(i as int, j as int));
                    }
                    let cape = match self.init[k] {
                        Square::Blank => false,
                        Square::Number(_) => true,
                    };
                    if cape {
                        if num_white >= 2 || num_nonblack == 0 {
                            proof {
                                assert(!self.open_side_ok(i as int, j as int));
                            }
                            return Err(());
                        }
                    } else {
                        if num_nonblack <= 1 {
                            proof {
                                assert(!self.open_side_ok(i as int, j as int));
                            }
                            return Err(());
                        }
                    }
                }
            }
        }
        Ok(())
    }

    fn arm_up(&self, i: usize, j: usize, num: usize) -> (r: bool)
        requires
            self.wf(),
            i < self.rows(),
            j < self.cols(),
            2 <= num,
        ensures
            r == self.arm_up_ok(i as int, j as int, num as int),
    {
        if i + 1 < num {
            return false;
        }
        for d in 1..num
            invariant
                self.wf(),
                i < self.rows(),
                j < self.cols(),
                2 <= num <= i + 1,
                forall|r: int| i - d < r < i ==> !self.is_black(r, j as int),
        {
            let kk = self.flat(i - d, j);
            if self.black[kk] {
                proof {
                    assert(self.is_black(i - d, j as int));
                }
                return false;
            }
        }
        if i >= num {
            let kk = self.flat(i - num, j);
            if self.white[kk] {
                return false;
            }
        }
        true
    }

    fn arm_down(&self, i: usize, j: usize, num: usize) -> (r: bool)
        requires
            self.wf(),
            i < self.rows(),
            j < self.cols(),
            2 <= num,
        ensures
            r == self.arm_down_ok(i as int, j as int, num as int),
    {
        let n = self.n;
        if num > n - i {
            return false;
        }
        for d in 1..num
            invariant
                n == self.n,
                self.wf(),
                i < self.rows(),
                j < self.cols(),
                2 <= num <= n - i,
                forall|r: int| i < r < i + d ==> !self.is_black(r, j as int),
        {
            let kk = self.flat(i + d, j);
            if self.black[kk] {
                proof {
                    assert(self.is_black(i + d, j as int));
                }
                return false;
            }
        }
        if num < n - i {
            let kk = self.flat(i + num, j);
            if self.white[kk] {
                return false;
            }
        }
        true
    }

    fn arm_left(&self, i: usize, j: usize, num: usize) -> (r: bool)
        requires
            self.wf(),
            i < self.rows(),
            j < self.cols(),
            2 <= num,
        ensures
            r == self.arm_left_ok(i as int, j as int, num as int),
    {
        if j + 1 < num {
            return false;
        }
        for d in 1..num
            invariant
                self.wf(),
                i < self.rows(),
                j < self.cols(),
                2 <= num <= j + 1,
                forall|c: int| j - d < c < j ==> !self.is_black(i as int, c),
        {
            let kk = self.flat(i, j - d);
            if self.black[kk] {
                proof {
                    assert(self.is_black(i as int, j - d));
                }
                return false;
            }
        }
        if j >= num {
            let kk = self.flat(i, j - num);
            if self.white[kk] {
                return false;
            }
        }
        true
    }

    fn arm_right(&self, i: usize, j: usize, num: usize) -> (r: bool)
        requires
            self.wf(),
            i < self.rows(),
            j < self.cols(),
            2 <= num,
        ensures
            r == self.arm_right_ok(i as int, j as int, num as int),
    {
        let m = self.m;
        if num > m - j {
            return false;
        }
        for d in 1..num
            invariant
                m == self.m,
                self.wf(),
                i < self.rows(),
                j < self.cols(),
                2 <= num <= m - j,
                forall|c: int| j < c < j + d ==> !self.is_black(i as int, c),
        {
            let kk = self.flat(i, j + d);
            if self.black[kk] {
                proof {
                    assert(self.is_black(i as int, j + d));
                }
                return false;
            }
        }
        if num < m - j {
            let kk = self.flat(i, j + num);
            if self.white[kk] {
                return false;
            }
        }
        true
    }

    /// Checks the fourth rule over the whole board.
    pub fn check_cape_numbers(&self) -> (r: Result<(), ()>)
        requires
            self.wf(),
        ensures
            r is Ok <==> self.cape_arms_ok(),
    {
        let n = self.n;
        let m = self.m;
        for i in 0..n
            invariant
                n == self.n,
                m == self.m,
                self.wf(),
                forall|i2: int, j2: int|
                    0 <= i2 < i && 0 <= j2 < m ==> #[trigger] self.cape_arm_ok(i2, j2),
        {
            for j in 0..m
                invariant
                    n == self.n,
                    m == self.m,
                    i < n,
                    self.wf(),
                    forall|i2: int, j2: int|
                        0 <= i2 < n && 0 <= j2 < m && (i2 < i || (i2 == i && j2 < j))
                            ==> #[trigger] self.cape_arm_ok(i2, j2),
            {
                let k = self.flat(i, j);
                let clue = match self.init[k] {
                    Square::Blank => 0u8,
                    Square::Number(x) => x,
                };
                if clue >= 2 {
                    let num = clue as usize;
                    let ok = self.arm_up(i, j, num) || self.arm_down(i, j, num) || self.arm_left(
                        i,
                        j,
                        num,
                    ) || self.arm_right(i, j, num);
                    if !ok {
                        proof {
                            assert(!self.cape_arm_ok(i as int, j as int));
                        }
                        return Err(());
                    }
                }
                proof {
                    assert(self.cape_arm_ok(i as int, j as int));
                }
            }
        }
        Ok(())
    }

    /// Checks the fifth rule over the whole board: builds a fresh
    /// disjoint-set over all cells, merges every edge between two not-black
    /// cells, and rejects the board when the white cells span more than one
    /// class.
    pub fn check_connected(&self) -> (r: Result<(), ()>)
        requires
            self.wf(),
        ensures
            r is Ok <==> self.whites_connected(),
    {
        let n = self.n;
        let m = self.m;
        let total = n * m;
        let mut uf = UnionFind::new(total);
        proof {
            assert forall|x: int, y: int|
                0 <= x < self.total() && 0 <= y < self.total() && #[trigger] uf.same(x, y) implies (
            x == y || self.linked(x, y)) by {}
        }
        for i in 0..n - 1
            invariant
                n == self.n,
                m == self.m,
                total == n * m,
                self.wf(),
                uf.wf(),
                uf.count() == self.total(),
                self.uf_linked_below(uf),
                forall|i2: int, j2: int|
                    0 <= i2 < i && 0 <= j2 < m ==> #[trigger] self.vert_united(uf, i2, j2),
        {
            for j in 0..m
                invariant
                    n == self.n,
                    m == self.m,
                    total == n * m,
                    i < n - 1,
                    self.wf(),
                    uf.wf(),
                    uf.count() == self.total(),
                    self.uf_linked_below(uf),
                    forall|i2: int, j2: int|
                        0 <= i2 < n && 0 <= j2 < m && (i2 < i || (i2 == i && j2 < j))
                            ==> #[trigger] self.vert_united(uf, i2, j2),
            {
                let a = self.flat(i, j);
                let b = self.flat(i + 1, j);
                let ghost uf0 = uf;
                if !self.black[a] && !self.black[b] {
                    proof {
                        assert(self.in_grid(i as int, j as int));
                        assert((i as int + 1) * (m as int) == (i as int) * (m as int) + (
                        m as int)) by (nonlinear_arith);
                        assert(self.adjacent(a as int, b as int));
                    }
                    self.unite_nonblack(&mut uf, a, b);
                }
                proof {
                    assert forall|i2: int, j2: int|
                        0 <= i2 < n && 0 <= j2 < m && (i2 < i || (i2 == i && j2 < j
                            + 1)) implies #[trigger] self.vert_united(uf, i2, j2) by {
                        if i2 == i && j2 == j {
                            assert((i as int + 1) * (m as int) == (i as int) * (m as int) + (
                            m as int)) by (nonlinear_arith);
                        } else {
                            assert(self.vert_united(uf0, i2, j2));
                            if !self.is_black(i2, j2) && !self.is_black(i2 + 1, j2) {
                                lemma_idx_bounds(i2, j2, self.rows(), self.cols());
                                lemma_idx_bounds(i2 + 1, j2, self.rows(), self.cols());
                                assert(uf0.same(self.idx(i2, j2), self.idx(i2 + 1, j2)));
                            }
                        }
                    }
                }
            }
        }
        for i in 0..n
            invariant
                n == self.n,
                m == self.m,
                total == n * m,
                self.wf(),
                uf.wf(),
                uf.count() == self.total(),
                self.uf_linked_below(uf),
                forall|i2: int, j2: int|
                    0 <= i2 < n - 1 && 0 <= j2 < m ==> #[trigger] self.vert_united(uf, i2, j2),
                forall|i2: int, j2: int|
                    0 <= i2 < i && 0 <= j2 < m - 1 ==> #[trigger] self.horiz_united(uf, i2, j2),
        {
            for j in 0..m - 1
                invariant
                    n == self.n,
                    m == self.m,
                    total == n * m,
                    i < n,
                    self.wf(),
                    uf.wf(),
                    uf.count() == self.total(),
                    self.uf_linked_below(uf),
                    forall|i2: int, j2: int|
                        0 <= i2 < n - 1 && 0 <= j2 < m ==> #[trigger] self.vert_united(uf, i2, j2),
                    forall|i2: int, j2: int|
                        0 <= i2 < n && 0 <= j2 < m - 1 && (i2 < i || (i2 == i && j2 < j))
                            ==> #[trigger] self.horiz_united(uf, i2, j2),
            {
                let a = self.flat(i, j);
                let b = self.flat(i, j + 1);
                let ghost uf0 = uf;
                if !self.black[a] && !self.black[b] {
                    proof {
                        assert(self.in_grid(i as int, j as int));
                        assert(self.adjacent(a as int, b as int));
                    }
                    self.unite_nonblack(&mut uf, a, b);
                }
                proof {
                    assert forall|i2: int, j2: int|
                        0 <= i2 < n && 0 <= j2 < m - 1 && (i2 < i || (i2 == i && j2 < j
                            + 1)) implies #[trigger] self.horiz_united(uf, i2, j2) by {
                        if !(i2 == i && j2 == j) {
                            assert(self.horiz_united(uf0, i2, j2));
                            if !self.is_black(i2, j2) && !self.is_black(i2, j2 + 1) {
                                lemma_idx_bounds(i2, j2, self.rows(), self.cols());
                                lemma_idx_bounds(i2, j2 + 1, self.rows(), self.cols());
                                assert(uf0.same(self.idx(i2, j2), self.idx(i2, j2 + 1)));
                            }
                        }
                    }
                    assert forall|i2: int, j2: int|
                        0 <= i2 < n - 1 && 0 <= j2 < m implies #[trigger] self.vert_united(
                        uf,
                        i2,
                        j2,
                    ) by {
                        assert(self.vert_united(uf0, i2, j2));
                        if !self.is_black(i2, j2) && !self.is_black(i2 + 1, j2) {
                            lemma_idx_bounds(i2, j2, self.rows(), self.cols());
                            lemma_idx_bounds(i2 + 1, j2, self.rows(), self.cols());
                            assert(uf0.same(self.idx(i2, j2), self.idx(i2 + 1, j2)));
                        }
                    }
                }
            }
        }
        proof {
            assert forall|u: int, v: int|
                self.valid_cell(u) && self.valid_cell(v) && self.nonblack_cell(u)
                    && self.nonblack_cell(v) && #[trigger] self.adjacent(u, v) implies uf.same(
                u,
                v,
            ) by {
                let (ci, cj): (int, int) = choose|ci: int, cj: int|
                    {
                        &&& self.in_grid(ci, cj)
                        &&& u == self.idx(ci, cj)
                        &&& {
                            ||| (cj + 1 < self.cols() && v == u + 1)
                            ||| (0 <= cj - 1 && v == u - 1)
                            ||| (ci + 1 < self.rows() && v == u + self.cols())
                            ||| (0 <= ci - 1 && v == u - self.cols())
                        }
                    };
                if cj + 1 < self.cols() && v == u + 1 {
                    assert(self.horiz_united(uf, ci, cj));
                } else if 0 <= cj - 1 && v == u - 1 {
                    assert(self.horiz_united(uf, ci, cj - 1));
                } else if ci + 1 < self.rows() && v == u + self.cols() {
                    assert(self.vert_united(uf, ci, cj));
                    assert((ci + 1) * (m as int) == ci * (m as int) + (m as int))
                        by (nonlinear_arith);
                } else {
                    assert(self.vert_united(uf, ci - 1, cj));
                    assert((ci - 1) * (m as int) == ci * (m as int) - (m as int))
                        by (nonlinear_arith);
                }
            }
            assert(self.edges_united(uf));
        }
        let mut seen_any = false;
        let mut rf: usize = 0;
        let ghost mut first_w: int = 0;
        for k in 0..total
            invariant
                n == self.n,
                m == self.m,
                total == n * m,
                self.wf(),
                uf.wf(),
                uf.count() == self.total(),
                self.uf_linked_below(uf),
                self.edges_united(uf),
                !seen_any ==> forall|w: int| 0 <= w < k ==> !self.white_view()[w],
                seen_any ==> 0 <= first_w < self.total() && self.white_view()[first_w]
                    && uf.root_spec(first_w) == rf,
                seen_any ==> forall|w: int|
                    0 <= w < k && #[trigger] self.white_view()[w] ==> uf.root_spec(w) == rf,
        {
            if self.white[k] {
                let ghost ufb = uf;
                let rk = uf.find(k);
                proof {
                    assert forall|x: int, y: int|
                        0 <= x < self.total() && 0 <= y < self.total() && #[trigger] uf.same(
                            x,
                            y,
                        ) implies (x == y || self.linked(x, y)) by {
                        assert(ufb.same(x, y));
                    }
                    assert forall|u: int, v: int|
                        self.valid_cell(u) && self.valid_cell(v) && self.nonblack_cell(u)
                            && self.nonblack_cell(v) && #[trigger] self.adjacent(u, v) implies uf.same(
                        u,
                        v,
                    ) by {
                        assert(ufb.same(u, v));
                    }
                }
                if !seen_any {
                    seen_any = true;
                    rf = rk;
                    proof {
                        first_w = k as int;
                    }
                } else if rk != rf {
                    proof {
                        assert(uf.root_spec(first_w) == rf);
                        assert(uf.root_spec(k as int) == rk);
                        assert(!uf.same(first_w, k as int));
                        if self.linked(first_w, k as int) {
                            self.lemma_linked_united(uf, first_w, k as int);
                        }
                        assert(!self.linked(first_w, k as int));
                        assert(!self.whites_connected());
                    }
                    return Err(());
                }
            }
        }
        proof {
            assert forall|a: int, b: int|
                self.valid_cell(a) && self.valid_cell(b) && self.white_view()[a]
                    && self.white_view()[b] implies #[trigger] self.linked(a, b) by {
                assert(seen_any);
                assert(uf.root_spec(a) == rf);
                assert(uf.root_spec(b) == rf);
                assert(uf.same(a, b));
                if a == b {
                    self.lemma_linked_refl(a);
                }
            }
        }
        Ok(())
    }

    /// Checks the third rule over the whole board.
    pub fn check_2x2(&self) -> (r: Result<(), ()>)
        requires
            self.wf(),
        ensures
            r is Ok <==> self.no_mono_blocks(),
    {
        let n = self.n;
        let m = self.m;
        for i in 0..n - 1
            invariant
                n == self.n,
                m == self.m,
                self.wf(),
                forall|i2: int, j2: int|
                    0 <= i2 < i && 0 <= j2 < m - 1 ==> #[trigger] self.block_ok(i2, j2),
        {
            for j in 0..m - 1
                invariant
                    n == self.n,
                    m == self.m,
                    i < n - 1,
                    self.wf(),
                    forall|i2: int, j2: int|
                        0 <= i2 < n - 1 && 0 <= j2 < m - 1 && (i2 < i || (i2 == i && j2 < j))
                            ==> #[trigger] self.block_ok(i2, j2),
            {
                let k00 = self.flat(i, j);
                let k01 = self.flat(i, j + 1);
                let k10 = self.flat(i + 1, j);
                let k11 = self.flat(i + 1, j + 1);
                let all_white = self.white[k00] && self.white[k01] && self.white[k10]
                    && self.white[k11];
                let all_black = self.black[k00] && self.black[k01] && self.black[k10]
                    && self.black[k11];
                if all_white || all_black {
                    proof {
                        assert(!self.block_ok(i as int, j as int));
                    }
                    return Err(());
                }
            }
        }
        Ok(())
    }

    /// How many cells are still undetermined.
    pub open spec fn undet_count(self) -> nat {
        undet_in(self.white_view(), self.black_view(), self.total())
    }

    /// Runs the five checks in sequence, cheapest first, stopping at the
    /// first failure. The order is a performance choice only: the result is
    /// a pure function of the board state, so repeated calls on an
    /// unmodified board agree.
    pub fn contradicts(&self) -> (r: Result<(), ()>)
        requires
            self.wf(),
        ensures
            r is Ok <==> self.consistent(),
    {
        if self.check_color_of_capes().is_err() {
            return Err(());
        }
        if self.check_capes().is_err() {
            return Err(());
        }
        if self.check_2x2().is_err() {
            return Err(());
        }
        if self.check_cape_numbers().is_err() {
            return Err(());
        }
        if self.check_connected().is_err() {
            return Err(());
        }
        Ok(())
    }

    /// The search's success predicate: the board is consistent and every
    /// cell is colored.
    pub fn finished(&self) -> (r: bool)
        requires
            self.wf(),
        ensures
            r == (self.consistent() && self.fully_colored()),
    {
        if self.contradicts().is_err() {
            return false;
        }
        let total = self.n * self.m;
        for k in 0..total
            invariant
                self.wf(),
                total == self.total(),
                forall|t: int|
                    0 <= t < k ==> (self.white_view()[t] || #[trigger] self.black_view()[t]),
        {
            if !self.white[k] && !self.black[k] {
                return false;
            }
        }
        true
    }

    /// Exhaustive backtracking over the undetermined cells, in row-major
    /// order, trying white before black at the first undetermined cell.
    /// It succeeds exactly on the solvable boards: those with a full
    /// coloring that respects the current assignment and all five rules.
    /// On success the board holds the full coloring found; on failure every
    /// trial assignment has been undone, so the board is exactly as it was.
    pub fn search(&mut self, stat: &mut Stat) -> (r: bool)
        requires
            old(self).wf(),
        ensures
            final(self).wf(),
            final(self).rows() == old(self).rows(),
            final(self).cols() == old(self).cols(),
            final(self).grid_view() == old(self).grid_view(),
            r == old(self).solvable(),
            r ==> final(self).fully_colored() && final(self).consistent(),
            forall|x: int|
                0 <= x < old(self).total() && #[trigger] old(self).white_view()[x]
                    ==> final(self).white_view()[x],
            forall|x: int|
                0 <= x < old(self).total() && #[trigger] old(self).black_view()[x]
                    ==> final(self).black_view()[x],
            !r ==> final(self).white_view() == old(self).white_view() && final(self).black_view()
                == old(self).black_view(),
            final(stat).num_call >= old(stat).num_call,
            old(stat).num_call < u64::MAX ==> final(stat).num_call >= old(stat).num_call + 1,
            final(stat).num_call <= old(stat).num_call + pow2(old(self).undet_count() + 1) - 1,
            old(self).consistent() && old(self).fully_colored() && old(stat).num_call < u64::MAX
                ==> final(stat).num_call == old(stat).num_call + 1,
        decreases old(self).undet_count(),
    {
        if stat.num_call < u64::MAX {
            stat.num_call = stat.num_call + 1;
        }
        if self.finished() {
            proof {
                lemma_pow2_at_least_two(old(self).undet_count() + 1);
                assert(old(self).extended_by(*self));
                assert(old(self).solvable());
            }
            return true;
        }
        if self.contradicts().is_err() {
            proof {
                lemma_pow2_at_least_two(old(self).undet_count() + 1);
                if old(self).solvable() {
                    let b2 = choose|b2: Board|
                        old(self).extended_by(b2) && b2.fully_colored() && b2.consistent();
                    self.lemma_consistent_restrict(b2);
                    assert(false);
                }
            }
            return false;
        }
        let total = self.n * self.m;
        let mut k: usize = 0;
        while k < total && (self.white[k] || self.black[k])
            invariant
                self.wf(),
                total == self.total(),
                k <= total,
                forall|t: int|
                    0 <= t < k ==> (self.white_view()[t] || #[trigger] self.black_view()[t]),
            decreases total - k,
        {
            k = k + 1;
        }
        if k == total {
            proof {
                assert(self.fully_colored());
                assert(false);
            }
            return false;
        }
        self.white.set(k, true);
        proof {
            lemma_undet_update(
                old(self).white_view(),
                old(self).black_view(),
                self.white_view(),
                self.black_view(),
                k as int,
                self.total(),
            );
        }
        let ghost mid = *self;
        if self.search(stat) {
            proof {
                assert forall|x: int|
                    0 <= x < old(self).total() && #[trigger] old(self).white_view()[x] implies self.white_view()[x] by {
                    assert(mid.white_view()[x]);
                }
                vstd::arithmetic::power2::lemma_pow2_unfold(old(self).undet_count() + 1);
                vstd::arithmetic::power2::lemma_pow2_pos(old(self).undet_count());
                assert(old(self).extended_by(*self));
                assert(old(self).solvable());
            }
            return true;
        }
        self.white.set(k, false);
        proof {
            assert(self.white_view() =~= old(self).white_view());
        }
        self.black.set(k, true);
        proof {
            lemma_undet_update(
                old(self).white_view(),
                old(self).black_view(),
                self.white_view(),
                self.black_view(),
                k as int,
                self.total(),
            );
        }
        let ghost mid2 = *self;
        if self.search(stat) {
            proof {
                assert forall|x: int|
                    0 <= x < old(self).total() && #[trigger] old(self).black_view()[x] implies self.black_view()[x] by {
                    assert(mid2.black_view()[x]);
                }
                vstd::arithmetic::power2::lemma_pow2_unfold(old(self).undet_count() + 1);
                vstd::arithmetic::power2::lemma_pow2_pos(old(self).undet_count());
                assert(old(self).extended_by(*self));
                assert(old(self).solvable());
            }
            return true;
        }
        self.black.set(k, false);
        proof {
            assert(self.black_view() =~= old(self).black_view());
            vstd::arithmetic::power2::lemma_pow2_unfold(old(self).undet_count() + 1);
            vstd::arithmetic::power2::lemma_pow2_pos(old(self).undet_count());
            // Both colors of the first undetermined cell failed, and that
            // is conclusive: any completion of this board colors that cell
            // one way or the other, so it would complete one of the two
            // rejected trial boards.
            if old(self).solvable() {
                let b2 = choose|b2: Board|
                    old(self).extended_by(b2) && b2.fully_colored() && b2.consistent();
                assert(b2.white_view()[k as int] || b2.black_view()[k as int]);
                if b2.white_view()[k as int] {
                    assert forall|x: int|
                        0 <= x < mid.total() && #[trigger] mid.white_view()[x] implies b2.white_view()[x] by {
                        if x != k as int {
                            assert(old(self).white_view()[x]);
                        }
                    }
                    assert forall|x: int|
                        0 <= x < mid.total() && #[trigger] mid.black_view()[x] implies b2.black_view()[x] by {
                        assert(old(self).black_view()[x]);
                    }
                    assert(mid.extended_by(b2));
                    assert(mid.solvable());
                    assert(false);
                } else {
                    assert forall|x: int|
                        0 <= x < mid2.total() && #[trigger] mid2.white_view()[x] implies b2.white_view()[x] by {
                        assert(old(self).white_view()[x]);
                    }
                    assert forall|x: int|
                        0 <= x < mid2.total() && #[trigger] mid2.black_view()[x] implies b2.black_view()[x] by {
                        if x != k as int {
                            assert(old(self).black_view()[x]);
                        }
                    }
                    assert(mid2.extended_by(b2));
                    assert(mid2.solvable());
                    assert(false);
                }
            }
        }
        false
    }

    pub fn num_rows(&self) -> (r: usize)
        ensures
            r == self.rows(),
    {
        self.n
    }

    pub fn num_cols(&self) -> (r: usize)
        ensures
            r == self.cols(),
    {
        self.m
    }

    pub fn white_at(&self, i: usize, j: usize) -> (r: bool)
        requires
            self.wf(),
            i < self.rows(),
            j < self.cols(),
        ensures
            r == self.is_white(i as int, j as int),
    {
        let k = self.flat(i, j);
        self.white[k]
    }

    pub fn black_at(&self, i: usize, j: usize) -> (r: bool)
        requires
            self.wf(),
            i < self.rows(),
            j < self.cols(),
        ensures
            r == self.is_black(i as int, j as int),
    {
        let k = self.flat(i, j);
        self.black[k]
    }

    pub fn square_at(&self, i: usize, j: usize) -> (r: Square)
        requires
            self.wf(),
            i < self.rows(),
            j < self.cols(),
        ensures
            r == self.square_of(i as int, j as int),
    {
        let k = self.flat(i, j);
        self.init[k]
    }

    /// The glyph of one cell in the text dump: `*` for black, `.` for
    /// white non-clue, `_` for undetermined, and the clue's own glyph for
    /// clue cells: `O` for a plain cape, the clue's decimal digits
    /// otherwise.
    pub open spec fn glyph_at(self, i: int, j: int) -> Seq<char> {
        match self.square_of(i, j) {
            Square::Blank => if self.is_black(i, j) {
                seq!['*']
            } else if self.is_white(i, j) {
                seq!['.']
            } else {
                seq!['_']
            },
            Square::Number(k) => if k == 1 {
                seq!['O']
            } else {
                dec_seq(k as int)
            },
        }
    }

    /// The glyphs of the first `j` cells of row `i`.
    pub open spec fn row_glyphs(self, i: int, j: int) -> Seq<char>
        decreases j,
    {
        if j <= 0 {
            Seq::empty()
        } else {
            self.row_glyphs(i, j - 1) + self.glyph_at(i, j - 1)
        }
    }

    /// The first `i` lines of the text dump, each row's glyphs followed by
    /// a line terminator.
    pub open spec fn render_upto(self, i: int) -> Seq<char>
        decreases i,
    {
        if i <= 0 {
            Seq::empty()
        } else {
            self.render_upto(i - 1) + self.row_glyphs(i - 1, self.cols()) + seq!['\n']
        }
    }

    /// The whole text dump, one line per row.
    pub open spec fn render_spec(self) -> Seq<char> {
        self.render_upto(self.rows())
    }

    /// The text dump of the board, one line per row; a pure projection for
    /// human inspection, with no bearing on solving.
    pub fn render(&self) -> (r: String)
        requires
            self.wf(),
        ensures
            r@ == self.render_spec(),
    {
        let n = self.n;
        let m = self.m;
        let mut out = String::new();
        for i in 0..n
            invariant
                n == self.n,
                m == self.m,
                self.wf(),
                out@ == self.render_upto(i as int),
        {
            for j in 0..m
                invariant
                    n == self.n,
                    m == self.m,
                    i < n,
                    self.wf(),
                    out@ == self.render_upto(i as int) + self.row_glyphs(i as int, j as int),
            {
                let k = self.flat(i, j);
                let ghost out0 = out@;
                proof {
                    reveal_strlit("*");
                    reveal_strlit(".");
                    reveal_strlit("_");
                    reveal_strlit("O");
                }
                match self.init[k] {
                    Square::Blank => {
                        if self.black[k] {
                            out.append("*");
                        } else if self.white[k] {
                            out.append(".");
                        } else {
                            out.append("_");
                        }
                    },
                    Square::Number(x) => {
                        if x == 1 {
                            out.append("O");
                        } else {
                            let q = x / 10;
                            let r2 = x % 10;
                            if q >= 10 {
                                out.append(digit_str(q / 10));
                                out.append(digit_str(q % 10));
                                proof {
                                    assert(dec_seq((q / 10) as int) == dec_digit((q / 10) as int));
                                    assert(dec_seq(q as int) == dec_seq((q / 10) as int)
                                        + dec_digit((q % 10) as int));
                                }
                            } else if q >= 1 {
                                out.append(digit_str(q));
                                proof {
                                    assert(dec_seq(q as int) == dec_digit(q as int));
                                }
                            }
                            out.append(digit_str(r2));
                            proof {
                                if q >= 1 {
                                    assert(dec_seq(x as int) == dec_seq(q as int) + dec_digit(
                                        r2 as int,
                                    ));
                                } else {
                                    assert(dec_seq(x as int) == dec_digit(x as int));
                                }
                            }
                        }
                    },
                }
                proof {
                    assert(out@ =~= out0 + self.glyph_at(i as int, j as int));
                    assert(self.row_glyphs(i as int, j as int + 1) == self.row_glyphs(
                        i as int,
                        j as int,
                    ) + self.glyph_at(i as int, j as int));
                    assert(out@ =~= self.render_upto(i as int) + self.row_glyphs(
                        i as int,
                        j as int + 1,
                    ));
                }
            }
            out.append("\n");
            proof {
                reveal_strlit("\n");
                assert(self.render_upto(i as int + 1) == self.render_upto(i as int)
                    + self.row_glyphs(i as int, self.cols()) + seq!['\n']);
                assert(out@ =~= self.render_upto(i as int + 1));
            }
        }
        out
    }

    /// Marks one not-black cell white.
    pub fn set_white(&mut self, i: usize, j: usize)
        requires
            old(self).wf(),
            i < old(self).rows(),
            j < old(self).cols(),
            !old(self).is_black(i as int, j as int),
        ensures
            final(self).wf(),
            final(self).rows() == old(self).rows(),
            final(self).cols() == old(self).cols(),
            final(self).grid_view() == old(self).grid_view(),
            final(self).black_view() == old(self).black_view(),
            final(self).white_view() == old(self).white_view().update(
                old(self).idx(i as int, j as int),
                true,
            ),
    {
        let k = self.flat(i, j);
        self.white.set(k, true);
    }

    /// Marks one not-white cell black.
    pub fn set_black(&mut self, i: usize, j: usize)
        requires
            old(self).wf(),
            i < old(self).rows(),
            j < old(self).cols(),
            !old(self).is_white(i as int, j as int),
        ensures
            final(self).wf(),
            final(self).rows() == old(self).rows(),
            final(self).cols() == old(self).cols(),
            final(self).grid_view() == old(self).grid_view(),
            final(self).white_view() == old(self).white_view(),
            final(self).black_view() == old(self).black_view().update(
                old(self).idx(i as int, j as int),
                true,
            ),
    {
        let k = self.flat(i, j);
        self.black.set(k, true);
    }
}

} // verus!

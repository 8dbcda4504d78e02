//! The Minesweeper board: a row-major grid of squares, each with a content
//! tag (a bomb, or the number of adjacent bombs) and a visibility tag, plus
//! the flag accounting that drives the win condition.

use vstd::arithmetic::div_mod::{lemma_fundamental_div_mod, lemma_fundamental_div_mod_converse};
use vstd::prelude::*;
use vstd::string::StrSliceExecFns;

use crate::rng::rand_below;

use crate::cell::{Attrs, BufCell, Color};

verus! {

/// A difficulty tier, which fixes the fraction of squares that hold bombs.
#[derive(Copy, Clone, PartialEq, Eq, Structural, Debug)]
pub enum Difficulty {
    Debug,
    Easy,
    Medium,
    Hard,
}

impl Difficulty {
    /// The bomb density of this tier, in hundredths: the board gets
    /// `floor(density * squares / 100)` bombs.
    pub open spec fn spec_percentage_bombs(self) -> usize {
        match self {
            Difficulty::Debug => 1usize,
            Difficulty::Easy => 10usize,
            Difficulty::Medium => 15usize,
            Difficulty::Hard => 20usize,
        }
    }

    /// The bomb density of this tier as a percentage.
    #[verifier::when_used_as_spec(spec_percentage_bombs)]
    pub fn percentage_bombs(self) -> (r: usize)
        ensures
            r == self.spec_percentage_bombs(),
            0 < r <= 20,
    {
        match self {
            Difficulty::Debug => 1,
            Difficulty::Easy => 10,
            Difficulty::Medium => 15,
            Difficulty::Hard => 20,
        }
    }

    /// Parses a difficulty name. Exactly the four fixed names are accepted.
    pub fn from_name(s: &str) -> (r: Option<Difficulty>)
        ensures
            r == Some(Difficulty::Debug) <==> s@ == "debug"@,
            r == Some(Difficulty::Easy) <==> s@ == "easy"@,
            r == Some(Difficulty::Medium) <==> s@ == "medium"@,
            r == Some(Difficulty::Hard) <==> s@ == "hard"@,
            r is None <==> (s@ != "debug"@ && s@ != "easy"@ && s@ != "medium"@ && s@ != "hard"@),
    {
        proof {
            reveal_strlit("debug");
            reveal_strlit("easy");
            reveal_strlit("medium");
            reveal_strlit("hard");
            assert("debug"@.len() == 5);
            assert("easy"@.len() == 4);
            assert("medium"@.len() == 6);
            assert("hard"@.len() == 4);
            assert("easy"@[0] == 'e');
            assert("hard"@[0] == 'h');
        }
        if str_eq(s, "debug") {
            Some(Difficulty::Debug)
        } else if str_eq(s, "easy") {
            Some(Difficulty::Easy)
        } else if str_eq(s, "medium") {
            Some(Difficulty::Medium)
        } else if str_eq(s, "hard") {
            Some(Difficulty::Hard)
        } else {
            None
        }
    }
}

/// Character-for-character string comparison.
pub fn str_eq(a: &str, b: &str) -> (r: bool)
    ensures
        r == (a@ == b@),
{
    let an = a.unicode_len();
    let bn = b.unicode_len();
    if an != bn {
        proof {
            assert(a@ != b@) by {
                assert(a@.len() != b@.len());
            }
        }
        return false;
    }
    let mut i: usize = 0;
    while i < an
        invariant
            i <= an,
            an == a@.len(),
            an == b@.len(),
            forall|j: int| 0 <= j < i ==> a@[j] == b@[j],
        decreases an - i,
    {
        if a.get_char(i) != b.get_char(i) {
            return false;
        }
        i = i + 1;
    }
    proof {
        assert(a@ =~= b@);
    }
    true
}

/// What a square holds: either `Empty(n)` where `n` is the number of bombs
/// among its up-to-8 neighbours, or a bomb.
#[derive(Copy, Clone, PartialEq, Eq, Structural, Debug)]
pub enum Content {
    Empty(u8),
    Bomb,
}

/// What the player can see of a square.
#[derive(Copy, Clone, PartialEq, Eq, Structural, Debug)]
pub enum Visibility {
    Flagged,
    Uncovered,
    Covered,
}

/// One board position: its content and its visibility.
#[derive(Copy, Clone, PartialEq, Eq, Structural, Debug)]
pub struct Square {
    pub content: Content,
    pub visibility: Visibility,
}

impl Square {
    /// A fresh, still covered square with the given content.
    pub fn new(content: Content) -> (r: Self)
        ensures
            r == (Square { content, visibility: Visibility::Covered }),
    {
        Self { content, visibility: Visibility::Covered }
    }
}

/// True of a square that holds a bomb.
pub open spec fn is_bomb(sq: Square) -> bool {
    sq.content is Bomb
}

/// True of a flagged square.
pub open spec fn is_flagged(sq: Square) -> bool {
    sq.visibility is Flagged
}

/// How many squares of `s` satisfy `f`.
pub open spec fn count_sq(s: Seq<Square>, f: spec_fn(Square) -> bool) -> int
    decreases s.len(),
{
    if s.len() == 0 {
        0
    } else {
        count_sq(s.drop_last(), f) + if f(s.last()) {
            1int
        } else {
            0int
        }
    }
}

/// The number of bombs in `s`.
pub open spec fn count_bombs(s: Seq<Square>) -> int {
    count_sq(s, |sq: Square| is_bomb(sq))
}

/// The number of flagged squares in `s`.
pub open spec fn count_flagged(s: Seq<Square>) -> int {
    count_sq(s, |sq: Square| is_flagged(sq))
}

/// The number of flagged squares in `s` that hold bombs.
pub open spec fn count_flagged_bombs(s: Seq<Square>) -> int {
    count_sq(s, |sq: Square| is_flagged(sq) && is_bomb(sq))
}

/// A count never leaves `0 ..= s.len()`.
pub proof fn lemma_count_bounds(s: Seq<Square>, f: spec_fn(Square) -> bool)
    ensures
        0 <= count_sq(s, f) <= s.len(),
    decreases s.len(),
{
    if s.len() > 0 {
        lemma_count_bounds(s.drop_last(), f);
    }
}

/// Updating one square moves the count by the difference at that square.
pub proof fn lemma_count_update(s: Seq<Square>, f: spec_fn(Square) -> bool, i: int, v: Square)
    requires
        0 <= i < s.len(),
    ensures
        count_sq(s.update(i, v), f) == count_sq(s, f) + (if f(v) {
            1int
        } else {
            0int
        }) - (if f(s[i]) {
            1int
        } else {
            0int
        }),
    decreases s.len(),
{
    let t = s.update(i, v);
    if i == s.len() - 1 {
        assert(t.drop_last() =~= s.drop_last());
    } else {
        lemma_count_update(s.drop_last(), f, i, v);
        assert(t.drop_last() =~= s.drop_last().update(i, v));
        assert(t.last() == s.last());
    }
}

/// A square that satisfies `f` makes the count positive.
pub proof fn lemma_count_member(s: Seq<Square>, f: spec_fn(Square) -> bool, i: int)
    requires
        0 <= i < s.len(),
        f(s[i]),
    ensures
        count_sq(s, f) >= 1,
    decreases s.len(),
{
    lemma_count_bounds(s.drop_last(), f);
    if i < s.len() - 1 {
        lemma_count_member(s.drop_last(), f, i);
    }
}

/// A pointwise-weaker predicate counts no fewer squares.
pub proof fn lemma_count_mono(s: Seq<Square>, f: spec_fn(Square) -> bool, g: spec_fn(
    Square,
) -> bool)
    requires
        forall|sq: Square| #[trigger] g(sq) ==> f(sq),
    ensures
        count_sq(s, g) <= count_sq(s, f),
    decreases s.len(),
{
    if s.len() > 0 {
        lemma_count_mono(s.drop_last(), f, g);
    }
}

/// A square with `f` but not `g` keeps the `g` count strictly below the `f`
/// count, when `g` implies `f`.
pub proof fn lemma_count_strict(
    s: Seq<Square>,
    f: spec_fn(Square) -> bool,
    g: spec_fn(Square) -> bool,
    i: int,
)
    requires
        0 <= i < s.len(),
        f(s[i]),
        !g(s[i]),
        forall|sq: Square| #[trigger] g(sq) ==> f(sq),
    ensures
        count_sq(s, g) <= count_sq(s, f) - 1,
    decreases s.len(),
{
    if i == s.len() - 1 {
        lemma_count_mono(s.drop_last(), f, g);
    } else {
        lemma_count_strict(s.drop_last(), f, g, i);
    }
}

/// A sequence with no square satisfying `f` has count zero.
pub proof fn lemma_count_none(s: Seq<Square>, f: spec_fn(Square) -> bool)
    requires
        forall|i: int| 0 <= i < s.len() ==> !f(s[i]),
    ensures
        count_sq(s, f) == 0,
    decreases s.len(),
{
    if s.len() > 0 {
        lemma_count_none(s.drop_last(), f);
    }
}

/// Counts agree on sequences that `f` cannot tell apart.
pub proof fn lemma_count_pointwise(s0: Seq<Square>, s1: Seq<Square>, f: spec_fn(Square) -> bool)
    requires
        s0.len() == s1.len(),
        forall|i: int| 0 <= i < s0.len() ==> f(s0[i]) == f(#[trigger] s1[i]),
    ensures
        count_sq(s0, f) == count_sq(s1, f),
    decreases s0.len(),
{
    if s0.len() > 0 {
        lemma_count_pointwise(s0.drop_last(), s1.drop_last(), f);
    }
}

/// A sequence whose squares all satisfy `f` has count equal to its length.
pub proof fn lemma_count_all(s: Seq<Square>, f: spec_fn(Square) -> bool)
    requires
        forall|i: int| 0 <= i < s.len() ==> f(#[trigger] s[i]),
    ensures
        count_sq(s, f) == s.len(),
    decreases s.len(),
{
    if s.len() > 0 {
        lemma_count_all(s.drop_last(), f);
    }
}

/// The square of `s` at `(col, row)` on a board `w` columns wide.
pub open spec fn square_at(s: Seq<Square>, w: int, col: int, row: int) -> Square {
    s[col + row * w]
}

/// 1 if the in-bounds position `(col, row)` holds a bomb, else 0.
pub open spec fn bomb_at(s: Seq<Square>, w: int, h: int, col: int, row: int) -> int {
    if 0 <= col < w && 0 <= row < h && is_bomb(square_at(s, w, col, row)) {
        1
    } else {
        0
    }
}

/// The number of bombs among the up-to-8 neighbours of `(col, row)`.
pub open spec fn adj_bombs(s: Seq<Square>, w: int, h: int, col: int, row: int) -> int {
    bomb_at(s, w, h, col - 1, row - 1) + bomb_at(s, w, h, col, row - 1) + bomb_at(
        s,
        w,
        h,
        col + 1,
        row - 1,
    ) + bomb_at(s, w, h, col - 1, row) + bomb_at(s, w, h, col + 1, row) + bomb_at(
        s,
        w,
        h,
        col - 1,
        row + 1,
    ) + bomb_at(s, w, h, col, row + 1) + bomb_at(s, w, h, col + 1, row + 1)
}

/// Every empty square's stored count equals the number of bombs among its
/// neighbours.
pub open spec fn adj_counts_ok(s: Seq<Square>, w: int, h: int) -> bool {
    forall|c: int, r: int|
        0 <= c < w && 0 <= r < h ==> match (#[trigger] square_at(s, w, c, r)).content {
            Content::Empty(n) => n == adj_bombs(s, w, h, c, r),
            Content::Bomb => true,
        }
}

/// The playing field.
pub struct Board {
    /// `(columns, rows)`.
    pub size: (usize, usize),
    /// How many squares hold bombs.
    pub num_bombs: usize,
    /// How many squares in general have been flagged.
    pub flagged_squares: usize,
    /// How many bombs in specific have been flagged.
    pub flagged_bombs: usize,
    /// The squares, row-major: `(col, row)` lives at `col + row * size.0`.
    pub squares: Vec<Square>,
}

impl Board {
    /// The board invariant: the grid is rectangular, the three counters agree
    /// with the squares, every empty square's neighbour count is exact, and
    /// the number of flags never exceeds the number of bombs.
    pub open spec fn wf(self) -> bool {
        &&& self.squares.len() == self.size.0 * self.size.1
        &&& self.size.0 > 0
        &&& self.size.1 > 0
        &&& self.num_bombs == count_bombs(self.squares@)
        &&& self.flagged_squares == count_flagged(self.squares@)
        &&& self.flagged_bombs == count_flagged_bombs(self.squares@)
        &&& self.flagged_bombs <= self.flagged_squares
        &&& self.flagged_squares <= self.num_bombs
        &&& adj_counts_ok(self.squares@, self.size.0 as int, self.size.1 as int)
    }

    /// True of an in-bounds position.
    pub open spec fn in_bounds(self, pos: (usize, usize)) -> bool {
        pos.0 < self.size.0 && pos.1 < self.size.1
    }

    /// The row-major index of `pos`.
    pub open spec fn spec_index_of(self, pos: (usize, usize)) -> int {
        pos.0 + pos.1 * self.size.0
    }

    /// The square at `pos`.
    pub fn square(&self, pos: (usize, usize)) -> (r: Square)
        requires
            self.squares.len() == self.size.0 * self.size.1,
            self.in_bounds(pos),
        ensures
            r == self.squares@[self.spec_index_of(pos)],
    {
        let (col, row) = pos;
        proof {
            lemma_index_in_range(self.size.0 as int, self.size.1 as int, col as int, row as int);
        }
        self.squares[col + row * self.size.0]
    }

    /// A mutable reference to the square at `pos`.
    pub fn square_mut(&mut self, pos: (usize, usize)) -> (r: &mut Square)
        requires
            old(self).squares.len() == old(self).size.0 * old(self).size.1,
            old(self).in_bounds(pos),
        ensures
            *r == old(self).squares@[old(self).spec_index_of(pos)],
            final(self).squares@ == old(self).squares@.update(
                old(self).spec_index_of(pos),
                *final(r),
            ),
            final(self).size == old(self).size,
            final(self).num_bombs == old(self).num_bombs,
            final(self).flagged_squares == old(self).flagged_squares,
            final(self).flagged_bombs == old(self).flagged_bombs,
    {
        let (col, row) = pos;
        proof {
            lemma_index_in_range(self.size.0 as int, self.size.1 as int, col as int, row as int);
        }
        let i = col + row * self.size.0;
        &mut self.squares[i]
    }

    /// Toggles the flag at `pos` and keeps the counters in step. Returns
    /// whether anything changed: an uncovered square is left alone, a flagged
    /// square is unflagged, and a covered square is flagged unless the number
    /// of flags has already reached the number of bombs.
    pub fn flag_square(&mut self, pos: (usize, usize)) -> (committed: bool)
        requires
            old(self).wf(),
            old(self).in_bounds(pos),
        ensures
            final(self).wf(),
            flag_transition(*old(self), *final(self), pos, committed),
    {
        proof {
            lemma_index_in_range(
                self.size.0 as int,
                self.size.1 as int,
                pos.0 as int,
                pos.1 as int,
            );
        }
        let square = self.square(pos);
        let ghost i = self.spec_index_of(pos);

        match square.visibility {
            Visibility::Uncovered => false,
            Visibility::Flagged => {
                proof {
                    lemma_count_member(self.squares@, |sq: Square| is_flagged(sq), i);
                    if is_bomb(square) {
                        lemma_count_member(
                            self.squares@,
                            |sq: Square| is_flagged(sq) && is_bomb(sq),
                            i,
                        );
                    } else {
                        lemma_count_strict(
                            self.squares@,
                            |sq: Square| is_flagged(sq),
                            |sq: Square| is_flagged(sq) && is_bomb(sq),
                            i,
                        );
                    }
                }
                if let Content::Bomb = square.content {
                    self.flagged_bombs = self.flagged_bombs - 1;
                }
                let target = self.square_mut(pos);
                *target = Square { content: square.content, visibility: Visibility::Covered };
                self.flagged_squares = self.flagged_squares - 1;
                proof {
                    let upd = Square { content: square.content, visibility: Visibility::Covered };
                    lemma_count_update(old(self).squares@, |sq: Square| is_flagged(sq), i, upd);
                    lemma_count_update(old(self).squares@, |sq: Square| is_bomb(sq), i, upd);
                    lemma_count_update(
                        old(self).squares@,
                        |sq: Square| is_flagged(sq) && is_bomb(sq),
                        i,
                        upd,
                    );
                    lemma_adj_preserved_by_visibility(
                        old(self).squares@,
                        self.squares@,
                        self.size.0 as int,
                        self.size.1 as int,
                    );
                }
                true
            },
            Visibility::Covered => {
                if self.flagged_squares < self.num_bombs {
                    if let Content::Bomb = square.content {
                        self.flagged_bombs = self.flagged_bombs + 1;
                        proof {
                            lemma_count_bounds(
                                self.squares@,
                                |sq: Square| is_flagged(sq) && is_bomb(sq),
                            );
                        }
                    }
                    let target = self.square_mut(pos);
                    *target = Square { content: square.content, visibility: Visibility::Flagged };
                    self.flagged_squares = self.flagged_squares + 1;
                    proof {
                        let upd = Square {
                            content: square.content,
                            visibility: Visibility::Flagged,
                        };
                        lemma_count_update(old(self).squares@, |sq: Square| is_flagged(sq), i, upd);
                        lemma_count_update(old(self).squares@, |sq: Square| is_bomb(sq), i, upd);
                        lemma_count_update(
                            old(self).squares@,
                            |sq: Square| is_flagged(sq) && is_bomb(sq),
                            i,
                            upd,
                        );
                        lemma_adj_preserved_by_visibility(
                            old(self).squares@,
                            self.squares@,
                            self.size.0 as int,
                            self.size.1 as int,
                        );
                    }
                    true
                } else {
                    false
                }
            },
        }
    }
}

/// Positions `(col, row)` that both lie in bounds get distinct row-major
/// indices.
pub proof fn lemma_index_injective(w: int, h: int, c1: int, r1: int, c2: int, r2: int)
    requires
        0 <= c1 < w,
        0 <= r1 < h,
        0 <= c2 < w,
        0 <= r2 < h,
        c1 + r1 * w == c2 + r2 * w,
    ensures
        c1 == c2 && r1 == r2,
{
    assert(r1 == r2) by (nonlinear_arith)
        requires
            0 <= c1 < w,
            0 <= c2 < w,
            c1 + r1 * w == c2 + r2 * w,
    ;
}

/// The neighbour count is at most 8.
pub proof fn lemma_adj_bombs_bound(s: Seq<Square>, w: int, h: int, c: int, r: int)
    ensures
        0 <= adj_bombs(s, w, h, c, r) <= 8,
{
}

/// An in-bounds position's row-major index is in range.
pub proof fn lemma_index_in_range(w: int, h: int, col: int, row: int)
    requires
        0 <= col < w,
        0 <= row < h,
    ensures
        0 <= col + row * w < w * h,
{
    assert(col + row * w < w + row * w);
    assert(w + row * w == (row + 1) * w) by (nonlinear_arith);
    assert((row + 1) * w <= h * w) by (nonlinear_arith)
        requires
            row + 1 <= h,
            w >= 0,
    ;
    assert(h * w == w * h) by (nonlinear_arith);
    assert(0 <= row * w) by (nonlinear_arith)
        requires
            row >= 0,
            w >= 0,
    ;
}

/// Changing only visibilities leaves every neighbour count exact.
pub proof fn lemma_adj_preserved_by_visibility(s0: Seq<Square>, s1: Seq<Square>, w: int, h: int)
    requires
        s0.len() == s1.len(),
        forall|i: int| 0 <= i < s1.len() ==> (#[trigger] s1[i]).content == s0[i].content,
        adj_counts_ok(s0, w, h),
        s0.len() == w * h,
        w > 0,
        h > 0,
    ensures
        adj_counts_ok(s1, w, h),
{
    assert forall|c: int, r: int| 0 <= c < w && 0 <= r < h implies match (#[trigger] square_at(
        s1,
        w,
        c,
        r,
    )).content {
        Content::Empty(n) => n == adj_bombs(s1, w, h, c, r),
        Content::Bomb => true,
    } by {
        lemma_index_in_range(w, h, c, r);
        assert(square_at(s1, w, c, r).content == square_at(s0, w, c, r).content);
        lemma_adj_same_bombs(s0, s1, w, h, c, r);
    }
}

/// Two boards with the same bomb layout agree on every neighbour count.
pub proof fn lemma_adj_same_bombs(s0: Seq<Square>, s1: Seq<Square>, w: int, h: int, c: int, r: int)
    requires
        s0.len() == s1.len(),
        s0.len() == w * h,
        forall|i: int| 0 <= i < s1.len() ==> (is_bomb(#[trigger] s1[i]) == is_bomb(s0[i])),
    ensures
        adj_bombs(s1, w, h, c, r) == adj_bombs(s0, w, h, c, r),
{
    assert forall|cc: int, rr: int| true implies bomb_at(s1, w, h, cc, rr) == bomb_at(
        s0,
        w,
        h,
        cc,
        rr,
    ) by {
        if 0 <= cc < w && 0 <= rr < h {
            lemma_index_in_range(w, h, cc, rr);
        }
    }
}


/// True exactly when the in-bounds position `(cc, rr)` holds a bomb.
fn bomb_at_exec(squares: &Vec<Square>, w: usize, h: usize, cc: usize, rr: usize) -> (b: bool)
    requires
        squares.len() == w * h,
        cc < w,
        rr < h,
    ensures
        b == is_bomb(square_at(squares@, w as int, cc as int, rr as int)),
{
    proof {
        lemma_index_in_range(w as int, h as int, cc as int, rr as int);
    }
    match squares[cc + rr * w].content {
        Content::Bomb => true,
        Content::Empty(_) => false,
    }
}

/// Counts the bombs among the up-to-8 neighbours of `(c, r)` by looking at
/// each neighbour in turn.
fn count_adjacent_bombs(squares: &Vec<Square>, w: usize, h: usize, c: usize, r: usize) -> (n: u8)
    requires
        squares.len() == w * h,
        c < w,
        r < h,
    ensures
        n as int == adj_bombs(squares@, w as int, h as int, c as int, r as int),
{
    let mut n: u8 = 0;
    if c > 0 && r > 0 && bomb_at_exec(squares, w, h, c - 1, r - 1) {
        n = n + 1;
    }
    if r > 0 && bomb_at_exec(squares, w, h, c, r - 1) {
        n = n + 1;
    }
    if c + 1 < w && r > 0 && bomb_at_exec(squares, w, h, c + 1, r - 1) {
        n = n + 1;
    }
    if c > 0 && bomb_at_exec(squares, w, h, c - 1, r) {
        n = n + 1;
    }
    if c + 1 < w && bomb_at_exec(squares, w, h, c + 1, r) {
        n = n + 1;
    }
    if c > 0 && r + 1 < h && bomb_at_exec(squares, w, h, c - 1, r + 1) {
        n = n + 1;
    }
    if r + 1 < h && bomb_at_exec(squares, w, h, c, r + 1) {
        n = n + 1;
    }
    if c + 1 < w && r + 1 < h && bomb_at_exec(squares, w, h, c + 1, r + 1) {
        n = n + 1;
    }
    n
}

/// What the adjacency pass leaves at index `k`: a bomb square untouched, an
/// empty square with its exact neighbour count and its old visibility.
pub open spec fn counted_square(s0: Seq<Square>, w: int, h: int, k: int) -> Square {
    let sq = s0[k];
    match sq.content {
        Content::Bomb => sq,
        Content::Empty(_) => Square {
            content: Content::Empty(adj_bombs(s0, w, h, k % w, k / w) as u8),
            visibility: sq.visibility,
        },
    }
}

/// Fills in the neighbour count of every empty square, touching nothing
/// else. Afterwards every count is exact.
fn compute_adjacency(squares: &mut Vec<Square>, w: usize, h: usize)
    requires
        old(squares).len() == w * h,
        w > 0,
        h > 0,
    ensures
        final(squares).len() == w * h,
        forall|k: int|
            0 <= k < w * h ==> #[trigger] final(squares)@[k] == counted_square(
                old(squares)@,
                w as int,
                h as int,
                k,
            ),
        adj_counts_ok(final(squares)@, w as int, h as int),
{
    let n = squares.len();
    let mut k: usize = 0;
    while k < n
        invariant
            n == w * h,
            w > 0,
            h > 0,
            squares.len() == n,
            old(squares).len() == n,
            k <= n,
            forall|j: int|
                0 <= j < k ==> #[trigger] squares@[j] == counted_square(
                    old(squares)@,
                    w as int,
                    h as int,
                    j,
                ),
            forall|j: int| k <= j < n ==> #[trigger] squares@[j] == old(squares)@[j],
        decreases n - k,
    {
        let c = k % w;
        let r = k / w;
        proof {
            lemma_fundamental_div_mod(k as int, w as int);
            assert(r < h) by (nonlinear_arith)
                requires
                    k < n,
                    n == w * h,
                    w > 0,
                    h > 0,
                    0 <= c < w,
                    k == c + r * w,
            ;
            assert forall|j: int| 0 <= j < n implies is_bomb(#[trigger] squares@[j]) == is_bomb(
                old(squares)@[j],
            ) by {
                if j < k {
                    assert(squares@[j] == counted_square(old(squares)@, w as int, h as int, j));
                }
            }
        }
        let sq = squares[k];
        match sq.content {
            Content::Bomb => {
                proof {
                    assert(squares@[k as int] == counted_square(
                        old(squares)@,
                        w as int,
                        h as int,
                        k as int,
                    ));
                }
            },
            Content::Empty(_) => {
                let cnt = count_adjacent_bombs(squares, w, h, c, r);
                proof {
                    lemma_adj_same_bombs(
                        old(squares)@,
                        squares@,
                        w as int,
                        h as int,
                        c as int,
                        r as int,
                    );
                    lemma_adj_bombs_bound(old(squares)@, w as int, h as int, c as int, r as int);
                }
                squares.set(k, Square { content: Content::Empty(cnt), visibility: sq.visibility });
            },
        }
        k = k + 1;
    }
    proof {
        assert forall|c: int, r: int| 0 <= c < w && 0 <= r < h implies match (
        #[trigger] square_at(squares@, w as int, c, r)).content {
            Content::Empty(m) => m == adj_bombs(squares@, w as int, h as int, c, r),
            Content::Bomb => true,
        } by {
            lemma_index_in_range(w as int, h as int, c, r);
            let j = c + r * w;
            lemma_fundamental_div_mod_converse(j, w as int, r, c);
            assert(squares@[j] == counted_square(old(squares)@, w as int, h as int, j));
            lemma_adj_bombs_bound(old(squares)@, w as int, h as int, c, r);
            assert forall|i: int| 0 <= i < squares@.len() implies is_bomb(#[trigger] squares@[i])
                == is_bomb(old(squares)@[i]) by {
                assert(squares@[i] == counted_square(old(squares)@, w as int, h as int, i));
            }
            lemma_adj_same_bombs(old(squares)@, squares@, w as int, h as int, c, r);
        }
    }
}

/// The position of the first square that holds no bomb. There is one, since
/// there are fewer bombs than squares.
fn first_free(squares: &Vec<Square>, w: usize, h: usize) -> (pos: (usize, usize))
    requires
        squares.len() == w * h,
        w > 0,
        h > 0,
        count_bombs(squares@) < squares.len(),
    ensures
        pos.0 < w,
        pos.1 < h,
        !is_bomb(square_at(squares@, w as int, pos.0 as int, pos.1 as int)),
{
    let n = squares.len();
    let mut j: usize = 0;
    while j < n
        invariant
            n == w * h,
            w > 0,
            h > 0,
            squares.len() == n,
            j <= n,
            forall|i: int| 0 <= i < j ==> is_bomb(#[trigger] squares@[i]),
        decreases n - j,
    {
        match squares[j].content {
            Content::Empty(_) => {
                let c = j % w;
                let r = j / w;
                proof {
                    lemma_fundamental_div_mod(j as int, w as int);
                    assert(r < h) by (nonlinear_arith)
                        requires
                            j < n,
                            n == w * h,
                            w > 0,
                            h > 0,
                            0 <= c < w,
                            j == c + r * w,
                    ;
                }
                return (c, r);
            },
            Content::Bomb => {},
        }
        j = j + 1;
    }
    proof {
        lemma_count_all(squares@, |sq: Square| is_bomb(sq));
    }
    (0, 0)
}

impl Board {
    /// A board with bombs at exactly the given distinct positions, every
    /// square still covered, and every neighbour count exact.
    pub fn with_bombs(size: (usize, usize), bombs: &Vec<(usize, usize)>) -> (b: Board)
        requires
            size.0 > 0,
            size.1 > 0,
            size.0 * size.1 <= usize::MAX,
            forall|j: int|
                0 <= j < bombs@.len() ==> (#[trigger] bombs@[j]).0 < size.0 && bombs@[j].1
                    < size.1,
            forall|j: int, k: int| 0 <= j < k < bombs@.len() ==> bombs@[j] != bombs@[k],
        ensures
            b.wf(),
            b.size == size,
            b.num_bombs == bombs@.len(),
            b.flagged_squares == 0,
            b.flagged_bombs == 0,
            forall|k: int| 0 <= k < b.squares@.len() ==> (#[trigger] b.squares@[k]).visibility is Covered,
            forall|c: int, r: int|
                0 <= c < size.0 && 0 <= r < size.1 ==> (is_bomb(
                    #[trigger] square_at(b.squares@, size.0 as int, c, r),
                ) <==> bombs@.contains((c as usize, r as usize))),
    {
        let w = size.0;
        let h = size.1;
        let n = w * h;
        let blank = Square::new(Content::Empty(0));
        let mut squares: Vec<Square> = Vec::new();
        let mut k: usize = 0;
        while k < n
            invariant
                k <= n,
                squares.len() == k,
                forall|i: int| 0 <= i < k ==> #[trigger] squares@[i] == blank,
                blank == (Square { content: Content::Empty(0u8), visibility: Visibility::Covered }),
            decreases n - k,
        {
            squares.push(blank);
            k = k + 1;
        }
        proof {
            lemma_count_none(squares@, |sq: Square| is_bomb(sq));
            assert forall|c: int, r: int| 0 <= c < w && 0 <= r < h implies !is_bomb(
                #[trigger] square_at(squares@, w as int, c, r),
            ) by {
                lemma_index_in_range(w as int, h as int, c, r);
            }
        }
        let mut placed: usize = 0;
        while placed < bombs.len()
            invariant
                n == w * h,
                w > 0,
                h > 0,
                squares.len() == n,
                placed <= bombs.len(),
                count_bombs(squares@) == placed,
                forall|j: int|
                    0 <= j < bombs@.len() ==> (#[trigger] bombs@[j]).0 < w && bombs@[j].1 < h,
                forall|j: int, k2: int| 0 <= j < k2 < bombs@.len() ==> bombs@[j] != bombs@[k2],
                forall|i: int|
                    0 <= i < n ==> (#[trigger] squares@[i]).visibility is Covered,
                forall|c: int, r: int|
                    0 <= c < w && 0 <= r < h ==> (is_bomb(
                        #[trigger] square_at(squares@, w as int, c, r),
                    ) <==> exists|j: int|
                        0 <= j < placed && bombs@[j] == (c as usize, r as usize)),
            decreases bombs.len() - placed,
        {
            let (bc, br) = bombs[placed];
            proof {
                lemma_index_in_range(w as int, h as int, bc as int, br as int);
                if is_bomb(square_at(squares@, w as int, bc as int, br as int)) {
                    let j = choose|j: int| 0 <= j < placed && bombs@[j] == (bc, br);
                    assert(bombs@[j] == bombs@[placed as int]);
                    assert(false);
                }
                lemma_count_update(
                    squares@,
                    |sq: Square| is_bomb(sq),
                    bc + br * (w as int),
                    Square { content: Content::Bomb, visibility: Visibility::Covered },
                );
            }
            let ghost pre = squares@;
            let idx = bc + br * w;
            squares.set(idx, Square::new(Content::Bomb));
            placed = placed + 1;
            proof {
                assert forall|c: int, r: int| 0 <= c < w && 0 <= r < h implies (is_bomb(
                    #[trigger] square_at(squares@, w as int, c, r),
                ) <==> exists|j: int| 0 <= j < placed && bombs@[j] == (c as usize, r as usize)) by {
                    lemma_index_in_range(w as int, h as int, c, r);
                    if c == bc as int && r == br as int {
                        assert(bombs@[placed - 1] == (c as usize, r as usize));
                        assert(is_bomb(square_at(squares@, w as int, c, r)));
                    } else {
                        if c + r * (w as int) == bc + br * (w as int) {
                            lemma_index_injective(w as int, h as int, c, r, bc as int, br as int);
                        }
                        assert(square_at(squares@, w as int, c, r) == square_at(pre, w as int, c, r));
                        if is_bomb(square_at(squares@, w as int, c, r)) {
                            let j = choose|j: int|
                                0 <= j < placed - 1 && bombs@[j] == (c as usize, r as usize);
                            assert(0 <= j < placed && bombs@[j] == (c as usize, r as usize));
                        }
                        if exists|j: int| 0 <= j < placed && bombs@[j] == (c as usize, r as usize) {
                            let j = choose|j: int|
                                0 <= j < placed && bombs@[j] == (c as usize, r as usize);
                            assert(j != placed - 1);
                            assert(is_bomb(square_at(pre, w as int, c, r)));
                        }
                    }
                }
            }
        }
        let ghost placed_squares = squares@;
        compute_adjacency(&mut squares, w, h);
        proof {
            assert forall|i: int| 0 <= i < squares@.len() implies (is_bomb(#[trigger] squares@[i])
                == is_bomb(placed_squares[i]) && squares@[i].visibility
                == placed_squares[i].visibility) by {
                assert(squares@[i] == counted_square(placed_squares, w as int, h as int, i));
            }
            lemma_count_pointwise(placed_squares, squares@, |sq: Square| is_bomb(sq));
            lemma_count_none(squares@, |sq: Square| is_flagged(sq));
            lemma_count_none(squares@, |sq: Square| is_flagged(sq) && is_bomb(sq));
            lemma_count_bounds(squares@, |sq: Square| is_bomb(sq));
            assert forall|c: int, r: int| 0 <= c < w && 0 <= r < h implies (is_bomb(
                #[trigger] square_at(squares@, w as int, c, r),
            ) <==> bombs@.contains((c as usize, r as usize))) by {
                lemma_index_in_range(w as int, h as int, c, r);
                assert(is_bomb(square_at(squares@, w as int, c, r)) == is_bomb(
                    square_at(placed_squares, w as int, c, r),
                ));
            }
        }
        Board {
            size,
            num_bombs: bombs.len(),
            flagged_squares: 0,
            flagged_bombs: 0,
            squares,
        }
    }

    /// Generates a board of the given size and difficulty: exactly
    /// `floor(density * squares / 100)` bombs, placed by repeated uniform
    /// sampling with re-sampling on collision, every square covered, every
    /// neighbour count exact.
    pub fn generate(
        size: (usize, usize),
        difficulty: Difficulty,
        rng: &mut tinyrand::StdRand,
    ) -> (b: Board)
        requires
            size.0 > 0,
            size.1 > 0,
            size.0 * size.1 <= usize::MAX / 100,
        ensures
            b.wf(),
            b.size == size,
            b.num_bombs as int == (size.0 * size.1 * difficulty.spec_percentage_bombs()) as int
                / 100,
            b.flagged_squares == 0,
            b.flagged_bombs == 0,
            forall|k: int| 0 <= k < b.squares@.len() ==> (#[trigger] b.squares@[k]).visibility is Covered,
    {
        let w = size.0;
        let h = size.1;
        let n = w * h;
        let pct = difficulty.percentage_bombs();
        proof {
            assert(n * pct <= n * 100) by (nonlinear_arith)
                requires
                    pct <= 100,
                    n >= 0,
            ;
        }
        let num_bombs = n * pct / 100;
        proof {
            assert(n >= 1) by (nonlinear_arith)
                requires
                    n == w * h,
                    w >= 1,
                    h >= 1,
            ;
            lemma_fundamental_div_mod((n * pct) as int, 100);
            assert(num_bombs < n) by (nonlinear_arith)
                requires
                    n * pct == 100 * num_bombs + (n * pct) % 100,
                    0 <= (n * pct) % 100,
                    pct < 100,
                    n >= 1,
                    num_bombs >= 0,
            ;
        }
        let blank = Square::new(Content::Empty(0));
        let mut squares: Vec<Square> = Vec::new();
        let mut k: usize = 0;
        while k < n
            invariant
                k <= n,
                squares.len() == k,
                forall|i: int| 0 <= i < k ==> #[trigger] squares@[i] == blank,
                blank == (Square { content: Content::Empty(0u8), visibility: Visibility::Covered }),
            decreases n - k,
        {
            squares.push(blank);
            k = k + 1;
        }
        proof {
            lemma_count_none(squares@, |sq: Square| is_bomb(sq));
        }
        let mut placed: usize = 0;
        while placed < num_bombs
            invariant
                n == w * h,
                w > 0,
                h > 0,
                num_bombs < n,
                squares.len() == n,
                placed <= num_bombs,
                count_bombs(squares@) == placed,
                forall|i: int|
                    0 <= i < n ==> (#[trigger] squares@[i]).visibility is Covered,
            decreases num_bombs - placed,
        {
            let mut col = rand_below(rng, w);
            let mut row = rand_below(rng, h);
            let mut tries: u32 = 0;
            while tries < 64 && bomb_at_exec(&squares, w, h, col, row)
                invariant
                    col < w,
                    row < h,
                    squares.len() == w * h,
                    w > 0,
                    h > 0,
                decreases 64 - tries,
            {
                col = rand_below(rng, w);
                row = rand_below(rng, h);
                tries = tries + 1;
            }
            if bomb_at_exec(&squares, w, h, col, row) {
                proof {
                    lemma_count_bounds(squares@, |sq: Square| is_bomb(sq));
                }
                let free = first_free(&squares, w, h);
                col = free.0;
                row = free.1;
            }
            proof {
                lemma_index_in_range(w as int, h as int, col as int, row as int);
                lemma_count_update(
                    squares@,
                    |sq: Square| is_bomb(sq),
                    col + row * (w as int),
                    Square { content: Content::Bomb, visibility: Visibility::Covered },
                );
            }
            let idx = col + row * w;
            squares.set(idx, Square::new(Content::Bomb));
            placed = placed + 1;
        }
        let ghost placed_squares = squares@;
        compute_adjacency(&mut squares, w, h);
        proof {
            assert forall|i: int| 0 <= i < squares@.len() implies (is_bomb(#[trigger] squares@[i])
                == is_bomb(placed_squares[i]) && squares@[i].visibility
                == placed_squares[i].visibility) by {
                assert(squares@[i] == counted_square(placed_squares, w as int, h as int, i));
            }
            lemma_count_pointwise(placed_squares, squares@, |sq: Square| is_bomb(sq));
            lemma_count_none(squares@, |sq: Square| is_flagged(sq));
            lemma_count_none(squares@, |sq: Square| is_flagged(sq) && is_bomb(sq));
        }
        Board {
            size,
            num_bombs,
            flagged_squares: 0,
            flagged_bombs: 0,
            squares,
        }
    }
}


/// The visual form of one square: the glyph and colours the renderer draws
/// for it. Total over every visibility-content combination.
pub open spec fn cell_of_square(sq: Square) -> BufCell {
    match sq.visibility {
        Visibility::Flagged => BufCell {
            content: 'F',
            fg: Color::Red,
            bg: Color::Reset,
            attrs: Attrs { bits: 0 },
        },
        Visibility::Covered => BufCell {
            content: '.',
            fg: Color::Reset,
            bg: Color::Reset,
            attrs: Attrs { bits: 0 },
        },
        Visibility::Uncovered => match sq.content {
            Content::Empty(n) => if n == 0 {
                BufCell {
                    content: '.',
                    fg: Color::DarkGrey,
                    bg: Color::Reset,
                    attrs: Attrs { bits: 0 },
                }
            } else {
                BufCell {
                    content: (((n + 48) % 256) as u8) as char,
                    fg: if n == 1 {
                        Color::Blue
                    } else if n == 2 {
                        Color::Green
                    } else if n == 3 {
                        Color::Red
                    } else {
                        Color::Yellow
                    },
                    bg: Color::Reset,
                    attrs: Attrs { bits: 0 },
                }
            },
            Content::Bomb => BufCell {
                content: '*',
                fg: Color::Black,
                bg: Color::Red,
                attrs: Attrs { bits: 0 },
            },
        },
    }
}

impl From<Square> for BufCell {
    fn from(square: Square) -> (r: Self) {
        let out = match square.visibility {
            Visibility::Flagged => BufCell {
                content: 'F',
                fg: Color::Red,
                bg: Color::Reset,
                attrs: Attrs { bits: 0 },
            },
            Visibility::Covered => BufCell {
                content: '.',
                fg: Color::Reset,
                bg: Color::Reset,
                attrs: Attrs { bits: 0 },
            },
            Visibility::Uncovered => match square.content {
                Content::Empty(0) => BufCell {
                    content: '.',
                    fg: Color::DarkGrey,
                    bg: Color::Reset,
                    attrs: Attrs { bits: 0 },
                },
                Content::Empty(adj) => BufCell {
                    content: (if adj <= 207 {
                        (adj + 48) as char
                    } else {
                        ((adj - 208) as u8) as char
                    }),
                    fg: match adj {
                        1 => Color::Blue,
                        2 => Color::Green,
                        3 => Color::Red,
                        _ => Color::Yellow,
                    },
                    bg: Color::Reset,
                    attrs: Attrs { bits: 0 },
                },
                Content::Bomb => BufCell {
                    content: '*',
                    fg: Color::Black,
                    bg: Color::Red,
                    attrs: Attrs { bits: 0 },
                },
            },
        };
        proof {
            assert(out == cell_of_square(square));
        }
        out
    }
}

impl vstd::std_specs::convert::FromSpecImpl<Square> for BufCell {
    open spec fn obeys_from_spec() -> bool {
        true
    }

    open spec fn from_spec(square: Square) -> Self {
        cell_of_square(square)
    }
}


/// How many entries of `s` are true.
pub open spec fn count_true(s: Seq<bool>) -> int
    decreases s.len(),
{
    if s.len() == 0 {
        0
    } else {
        count_true(s.drop_last()) + if s.last() {
            1int
        } else {
            0int
        }
    }
}

/// A true count never leaves `0 ..= s.len()`.
pub proof fn lemma_count_true_bounds(s: Seq<bool>)
    ensures
        0 <= count_true(s) <= s.len(),
    decreases s.len(),
{
    if s.len() > 0 {
        lemma_count_true_bounds(s.drop_last());
    }
}

/// Updating one entry moves the true count by the difference at that entry.
pub proof fn lemma_count_true_update(s: Seq<bool>, i: int, v: bool)
    requires
        0 <= i < s.len(),
    ensures
        count_true(s.update(i, v)) == count_true(s) + (if v {
            1int
        } else {
            0int
        }) - (if s[i] {
            1int
        } else {
            0int
        }),
    decreases s.len(),
{
    let t = s.update(i, v);
    if i == s.len() - 1 {
        assert(t.drop_last() =~= s.drop_last());
    } else {
        lemma_count_true_update(s.drop_last(), i, v);
        assert(t.drop_last() =~= s.drop_last().update(i, v));
        assert(t.last() == s.last());
    }
}

/// True of two positions that share an edge (4-neighbourhood).
pub open spec fn adjacent4(p: (int, int), q: (int, int)) -> bool {
    (p.0 == q.0 && (p.1 == q.1 + 1 || p.1 + 1 == q.1)) || (p.1 == q.1 && (p.0 == q.0 + 1 || p.0
        + 1 == q.0))
}

/// A square the flood fill expands through: in bounds, empty with a zero
/// neighbour count, and not flagged.
pub open spec fn expands(s: Seq<Square>, w: int, h: int, p: (int, int)) -> bool {
    &&& 0 <= p.0 < w
    &&& 0 <= p.1 < h
    &&& square_at(s, w, p.0, p.1).content == Content::Empty(0u8)
    &&& !is_flagged(square_at(s, w, p.0, p.1))
}

/// A square the flood fill may uncover: in bounds, no bomb, not flagged.
pub open spec fn revealable(s: Seq<Square>, w: int, h: int, p: (int, int)) -> bool {
    &&& 0 <= p.0 < w
    &&& 0 <= p.1 < h
    &&& !is_bomb(square_at(s, w, p.0, p.1))
    &&& !is_flagged(square_at(s, w, p.0, p.1))
}

/// A flood path: consecutive positions share an edge, every position before
/// the last expands the flood, and the last can be uncovered.
pub open spec fn flood_path(s: Seq<Square>, w: int, h: int, path: Seq<(int, int)>) -> bool {
    &&& path.len() >= 1
    &&& revealable(s, w, h, path.last())
    &&& forall|i: int| 0 <= i < path.len() - 1 ==> expands(s, w, h, #[trigger] path[i])
    &&& forall|i: int| 0 <= i < path.len() - 1 ==> adjacent4(#[trigger] path[i], path[i + 1])
}

/// The flood fill started at `a` uncovers `b`: some flood path joins them.
pub open spec fn flood_reaches(s: Seq<Square>, w: int, h: int, a: (int, int), b: (int, int)) -> bool {
    exists|path: Seq<(int, int)>|
        flood_path(s, w, h, path) && path[0] == a && path.last() == b
}

/// The flood fill reaches its own start square.
pub proof fn lemma_flood_refl(s: Seq<Square>, w: int, h: int, a: (int, int))
    requires
        expands(s, w, h, a),
    ensures
        flood_reaches(s, w, h, a, a),
{
    let path = seq![a];
    assert(flood_path(s, w, h, path) && path[0] == a && path.last() == a);
}

/// One more step: from a reached expanding square to an adjacent
/// uncoverable one.
pub proof fn lemma_flood_extend(
    s: Seq<Square>,
    w: int,
    h: int,
    a: (int, int),
    p: (int, int),
    q: (int, int),
)
    requires
        flood_reaches(s, w, h, a, p),
        expands(s, w, h, p),
        adjacent4(p, q),
        revealable(s, w, h, q),
    ensures
        flood_reaches(s, w, h, a, q),
{
    let path = choose|path: Seq<(int, int)>|
        flood_path(s, w, h, path) && path[0] == a && path.last() == p;
    let path2 = path.push(q);
    assert(path2.last() == q);
    assert(path2[0] == a);
    assert forall|i: int| 0 <= i < path2.len() - 1 implies expands(s, w, h, #[trigger] path2[i]) by {
        if i < path.len() - 1 {
            assert(path2[i] == path[i]);
        } else {
            assert(path2[i] == path.last());
        }
    }
    assert forall|i: int| 0 <= i < path2.len() - 1 implies adjacent4(
        #[trigger] path2[i],
        path2[i + 1],
    ) by {
        if i < path.len() - 1 {
            assert(path2[i] == path[i] && path2[i + 1] == path[i + 1]);
        } else {
            assert(path2[i] == path.last() && path2[i + 1] == q);
        }
    }
    assert(flood_path(s, w, h, path2));
}

/// The flood fill never uncovers a bomb: whatever it reaches holds none.
pub proof fn lemma_flood_never_bombs(s: Seq<Square>, w: int, h: int, a: (int, int), b: (int, int))
    requires
        flood_reaches(s, w, h, a, b),
    ensures
        !is_bomb(square_at(s, w, b.0, b.1)),
        !is_flagged(square_at(s, w, b.0, b.1)),
        0 <= b.0 < w && 0 <= b.1 < h,
{
}

/// True when every uncoverable neighbour of `p` is marked in `visited`.
pub open spec fn closed_at(
    s: Seq<Square>,
    w: int,
    h: int,
    visited: Seq<bool>,
    p: (int, int),
) -> bool {
    expands(s, w, h, p) ==> {
        &&& (revealable(s, w, h, (p.0 - 1, p.1)) ==> visited[p.0 - 1 + p.1 * w])
        &&& (revealable(s, w, h, (p.0 + 1, p.1)) ==> visited[p.0 + 1 + p.1 * w])
        &&& (revealable(s, w, h, (p.0, p.1 - 1)) ==> visited[p.0 + (p.1 - 1) * w])
        &&& (revealable(s, w, h, (p.0, p.1 + 1)) ==> visited[p.0 + (p.1 + 1) * w])
    }
}

/// Walking a flood path through a marked, neighbour-closed set keeps every
/// step marked: in particular the path's end.
pub proof fn lemma_path_marked(
    s: Seq<Square>,
    w: int,
    h: int,
    visited: Seq<bool>,
    path: Seq<(int, int)>,
)
    requires
        w > 0,
        h > 0,
        visited.len() == w * h,
        flood_path(s, w, h, path),
        visited[path[0].0 + path[0].1 * w],
        forall|p: (int, int)|
            0 <= p.0 < w && 0 <= p.1 < h && visited[p.0 + p.1 * w] ==> #[trigger] closed_at(
                s,
                w,
                h,
                visited,
                p,
            ),
    ensures
        visited[path.last().0 + path.last().1 * w],
    decreases path.len(),
{
    if path.len() == 1 {
    } else {
        let prefix = path.drop_last();
        let p = path[path.len() - 2];
        let b = path.last();
        assert(prefix.last() == p);
        assert(expands(s, w, h, p));
        assert(flood_path(s, w, h, prefix)) by {
            assert(revealable(s, w, h, p));
            assert forall|i: int| 0 <= i < prefix.len() - 1 implies expands(
                s,
                w,
                h,
                #[trigger] prefix[i],
            ) by {
                assert(prefix[i] == path[i]);
            }
            assert forall|i: int| 0 <= i < prefix.len() - 1 implies adjacent4(
                #[trigger] prefix[i],
                prefix[i + 1],
            ) by {
                assert(prefix[i] == path[i] && prefix[i + 1] == path[i + 1]);
            }
        }
        lemma_path_marked(s, w, h, visited, prefix);
        assert(visited[p.0 + p.1 * w]);
        assert(adjacent4(p, b)) by {
            assert(adjacent4(path[path.len() - 2], path[path.len() - 2 + 1]));
        }
        assert(closed_at(s, w, h, visited, p));
        assert(revealable(s, w, h, b));
        if b == ((p.0 - 1, p.1)) {
        } else if b == ((p.0 + 1, p.1)) {
        } else if b == ((p.0, p.1 - 1)) {
        } else {
            assert(b == ((p.0, p.1 + 1)));
        }
    }
}


/// Marks one neighbour during the flood fill: if the square at `(nc, nr)`
/// can be uncovered and is not yet marked, it becomes uncovered and joins
/// the queue. Everything the flood's bookkeeping relies on is preserved.
#[verifier::rlimit(60)]
fn try_visit(
    squares: &mut Vec<Square>,
    visited: &mut Vec<bool>,
    queue: &mut Vec<usize>,
    w: usize,
    h: usize,
    nc: usize,
    nr: usize,
    Ghost(s0): Ghost<Seq<Square>>,
    Ghost(start): Ghost<(int, int)>,
    Ghost(from): Ghost<(int, int)>,
)
    requires
        old(squares).len() == w * h,
        old(visited).len() == w * h,
        s0.len() == w * h,
        w > 0,
        h > 0,
        nc < w,
        nr < h,
        expands(s0, w as int, h as int, from),
        flood_reaches(s0, w as int, h as int, start, from),
        adjacent4(from, (nc as int, nr as int)),
        forall|j: int|
            0 <= j < w * h && #[trigger] old(visited)@[j] ==> flood_reaches(
                s0,
                w as int,
                h as int,
                start,
                (j % (w as int), j / (w as int)),
            ),
        forall|j: int|
            0 <= j < w * h ==> #[trigger] old(squares)@[j] == (if old(visited)@[j] {
                Square { content: s0[j].content, visibility: Visibility::Uncovered }
            } else {
                s0[j]
            }),
        forall|qi: int|
            0 <= qi < old(queue)@.len() ==> (#[trigger] old(queue)@[qi]) < w * h && old(visited)@[old(queue)@[qi] as int],
        forall|j: int|
            0 <= j < w * h && #[trigger] old(visited)@[j] ==> exists|qi: int|
                0 <= qi < old(queue)@.len() && old(queue)@[qi] == j,
    ensures
        final(squares).len() == w * h,
        final(visited).len() == w * h,
        forall|j: int| 0 <= j < w * h && #[trigger] old(visited)@[j] ==> final(visited)@[j],
        forall|j: int|
            0 <= j < w * h && #[trigger] final(visited)@[j] && !old(visited)@[j] ==> j == nc + nr
                * (w as int),
        revealable(s0, w as int, h as int, (nc as int, nr as int)) ==> final(visited)@[nc + nr * (
        w as int)],
        forall|j: int|
            0 <= j < w * h && #[trigger] final(visited)@[j] ==> flood_reaches(
                s0,
                w as int,
                h as int,
                start,
                (j % (w as int), j / (w as int)),
            ),
        forall|j: int|
            0 <= j < w * h ==> #[trigger] final(squares)@[j] == (if final(visited)@[j] {
                Square { content: s0[j].content, visibility: Visibility::Uncovered }
            } else {
                s0[j]
            }),
        forall|qi: int|
            0 <= qi < final(queue)@.len() ==> (#[trigger] final(queue)@[qi]) < w * h && final(visited)@[final(queue)@[qi] as int],
        forall|j: int|
            0 <= j < w * h && #[trigger] final(visited)@[j] ==> exists|qi: int|
                0 <= qi < final(queue)@.len() && final(queue)@[qi] == j,
        final(queue)@.len() >= old(queue)@.len(),
        forall|qi: int|
            0 <= qi < old(queue)@.len() ==> #[trigger] final(queue)@[qi] == old(queue)@[qi],
        count_true(final(visited)@) >= count_true(old(visited)@),
        final(queue)@.len() > old(queue)@.len() ==> count_true(final(visited)@) > count_true(
            old(visited)@,
        ),
        final(queue)@.len() == old(queue)@.len() ==> (final(visited)@ == old(visited)@ && final(queue)@ == old(queue)@ && final(squares)@ == old(squares)@),
{
    proof {
        lemma_index_in_range(w as int, h as int, nc as int, nr as int);
        lemma_fundamental_div_mod_converse(
            nc as int + nr as int * w as int,
            w as int,
            nr as int,
            nc as int,
        );
    }
    let nj = nc + nr * w;
    if !visited[nj] {
        let nsq = squares[nj];
        let ok = match (nsq.content, nsq.visibility) {
            (Content::Bomb, _) => false,
            (_, Visibility::Flagged) => false,
            _ => true,
        };
        if ok {
            proof {
                lemma_flood_extend(
                    s0,
                    w as int,
                    h as int,
                    start,
                    from,
                    (nc as int, nr as int),
                );
                lemma_count_true_update(visited@, nj as int, true);
            }
            visited.set(nj, true);
            squares.set(nj, Square { content: nsq.content, visibility: Visibility::Uncovered });
            queue.push(nj);
            proof {
                assert(queue@[queue@.len() - 1] == nj);
                assert forall|j: int|
                    0 <= j < w * h && #[trigger] visited@[j] implies exists|qi: int|
                    0 <= qi < queue@.len() && queue@[qi] == j by {
                    if j == nj as int {
                        assert(queue@[queue@.len() - 1] == j);
                    } else {
                        assert(old(visited)@[j]);
                        let qi = choose|qi: int|
                            0 <= qi < old(queue)@.len() && old(queue)@[qi] == j;
                        assert(queue@[qi] == j);
                    }
                }
            }
        }
    }
}

/// Handles one dequeued square of the flood fill: when it expands the
/// flood, each of its four neighbours is visited. Afterwards the square is
/// neighbour-closed under the visited marks.
#[verifier::rlimit(100)]
fn process_entry(
    squares: &mut Vec<Square>,
    visited: &mut Vec<bool>,
    queue: &mut Vec<usize>,
    w: usize,
    h: usize,
    j: usize,
    Ghost(s0): Ghost<Seq<Square>>,
    Ghost(start): Ghost<(int, int)>,
)
    requires
        old(squares).len() == w * h,
        old(visited).len() == w * h,
        s0.len() == w * h,
        w > 0,
        h > 0,
        j < w * h,
        old(visited)@[j as int],
        forall|j2: int|
            0 <= j2 < w * h && #[trigger] old(visited)@[j2] ==> flood_reaches(
                s0,
                w as int,
                h as int,
                start,
                (j2 % (w as int), j2 / (w as int)),
            ),
        forall|j2: int|
            0 <= j2 < w * h ==> #[trigger] old(squares)@[j2] == (if old(visited)@[j2] {
                Square { content: s0[j2].content, visibility: Visibility::Uncovered }
            } else {
                s0[j2]
            }),
        forall|qi: int|
            0 <= qi < old(queue)@.len() ==> (#[trigger] old(queue)@[qi]) < w * h && old(visited)@[old(queue)@[qi] as int],
        forall|j2: int|
            0 <= j2 < w * h && #[trigger] old(visited)@[j2] ==> exists|qi: int|
                0 <= qi < old(queue)@.len() && old(queue)@[qi] == j2,
    ensures
        final(squares).len() == w * h,
        final(visited).len() == w * h,
        forall|j2: int| 0 <= j2 < w * h && #[trigger] old(visited)@[j2] ==> final(visited)@[j2],
        forall|j2: int|
            0 <= j2 < w * h && #[trigger] final(visited)@[j2] ==> flood_reaches(
                s0,
                w as int,
                h as int,
                start,
                (j2 % (w as int), j2 / (w as int)),
            ),
        forall|j2: int|
            0 <= j2 < w * h ==> #[trigger] final(squares)@[j2] == (if final(visited)@[j2] {
                Square { content: s0[j2].content, visibility: Visibility::Uncovered }
            } else {
                s0[j2]
            }),
        forall|qi: int|
            0 <= qi < final(queue)@.len() ==> (#[trigger] final(queue)@[qi]) < w * h && final(visited)@[final(queue)@[qi] as int],
        forall|j2: int|
            0 <= j2 < w * h && #[trigger] final(visited)@[j2] ==> exists|qi: int|
                0 <= qi < final(queue)@.len() && final(queue)@[qi] == j2,
        final(queue)@.len() >= old(queue)@.len(),
        forall|qi: int|
            0 <= qi < old(queue)@.len() ==> #[trigger] final(queue)@[qi] == old(queue)@[qi],
        count_true(final(visited)@) >= count_true(old(visited)@),
        final(queue)@.len() > old(queue)@.len() ==> count_true(final(visited)@) > count_true(
            old(visited)@,
        ),
        final(queue)@.len() == old(queue)@.len() ==> (final(visited)@ == old(visited)@ && final(queue)@ == old(queue)@ && final(squares)@ == old(squares)@),
        closed_at(
            s0,
            w as int,
            h as int,
            final(visited)@,
            ((j as int) % (w as int), (j as int) / (w as int)),
        ),
{
    let c = j % w;
    let r = j / w;
    proof {
        lemma_fundamental_div_mod(j as int, w as int);
        assert(r < h) by (nonlinear_arith)
            requires
                j < w * h,
                w > 0,
                h > 0,
                0 <= c < w,
                j == c + r * w,
        ;
    }
    let is_expand = match squares[j].content {
        Content::Empty(0) => true,
        _ => false,
    };
    if is_expand {
        proof {
            lemma_flood_never_bombs(s0, w as int, h as int, start, (c as int, r as int));
            assert(expands(s0, w as int, h as int, (c as int, r as int)));
        }
        let ghost from = (c as int, r as int);
        if c > 0 {
            try_visit(squares, visited, queue, w, h, c - 1, r, Ghost(s0), Ghost(start), Ghost(from));
        }
        if c + 1 < w {
            try_visit(squares, visited, queue, w, h, c + 1, r, Ghost(s0), Ghost(start), Ghost(from));
        }
        if r > 0 {
            try_visit(squares, visited, queue, w, h, c, r - 1, Ghost(s0), Ghost(start), Ghost(from));
        }
        if r + 1 < h {
            try_visit(squares, visited, queue, w, h, c, r + 1, Ghost(s0), Ghost(start), Ghost(from));
        }
        proof {
            if revealable(s0, w as int, h as int, (c as int - 1, r as int)) {
                assert(c > 0);
                lemma_index_in_range(w as int, h as int, c as int - 1, r as int);
                assert(visited@[c as int - 1 + r as int * (w as int)]);
            }
            if revealable(s0, w as int, h as int, (c as int + 1, r as int)) {
                assert(c + 1 < w);
                lemma_index_in_range(w as int, h as int, c as int + 1, r as int);
                assert(visited@[c as int + 1 + r as int * (w as int)]);
            }
            if revealable(s0, w as int, h as int, (c as int, r as int - 1)) {
                assert(r > 0);
                lemma_index_in_range(w as int, h as int, c as int, r as int - 1);
                assert(visited@[c as int + (r as int - 1) * (w as int)]);
            }
            if revealable(s0, w as int, h as int, (c as int, r as int + 1)) {
                assert(r + 1 < h);
                lemma_index_in_range(w as int, h as int, c as int, r as int + 1);
                assert(visited@[c as int + (r as int + 1) * (w as int)]);
            }
            assert(closed_at(s0, w as int, h as int, visited@, (c as int, r as int)));
        }
    } else {
        proof {
            assert(squares@[j as int].content == s0[j as int].content);
            assert(!expands(s0, w as int, h as int, (c as int, r as int)));
        }
    }
}

/// The breadth-first reveal: an explicit queue plus a visited set keyed by
/// position, never recursive descent. Marks exactly the squares that a flood
/// path from the start can reach as uncovered and touches nothing else.
#[verifier::rlimit(100)]
fn flood_fill(squares: &mut Vec<Square>, w: usize, h: usize, sc: usize, sr: usize)
    requires
        old(squares).len() == w * h,
        w > 0,
        h > 0,
        expands(old(squares)@, w as int, h as int, (sc as int, sr as int)),
    ensures
        final(squares).len() == w * h,
        forall|k: int|
            0 <= k < w * h ==> (#[trigger] final(squares)@[k]).content == old(squares)@[k].content,
        forall|c: int, r: int|
            0 <= c < w && 0 <= r < h ==> (#[trigger] square_at(
                final(squares)@,
                w as int,
                c,
                r,
            )).visibility == (if flood_reaches(
                old(squares)@,
                w as int,
                h as int,
                (sc as int, sr as int),
                (c, r),
            ) {
                Visibility::Uncovered
            } else {
                square_at(old(squares)@, w as int, c, r).visibility
            }),
{
    let ghost s0 = old(squares)@;
    let ghost start = (sc as int, sr as int);
    let n = squares.len();
    let mut visited: Vec<bool> = Vec::new();
    let mut k: usize = 0;
    while k < n
        invariant
            k <= n,
            visited.len() == k,
            forall|i: int| 0 <= i < k ==> !(#[trigger] visited@[i]),
        decreases n - k,
    {
        visited.push(false);
        k = k + 1;
    }
    proof {
        lemma_index_in_range(w as int, h as int, sc as int, sr as int);
        lemma_fundamental_div_mod_converse(
            sc as int + sr as int * w as int,
            w as int,
            sr as int,
            sc as int,
        );
        lemma_flood_refl(s0, w as int, h as int, start);
    }
    let start_idx = sc + sr * w;
    visited.set(start_idx, true);
    let sq0 = squares[start_idx];
    squares.set(start_idx, Square { content: sq0.content, visibility: Visibility::Uncovered });
    let mut queue: Vec<usize> = Vec::new();
    queue.push(start_idx);
    proof {
        assert(queue@.len() == 1 && queue@[0] == start_idx);
        assert forall|j: int| 0 <= j < n && visited@[j] implies exists|qi: int|
            0 <= qi < queue@.len() && queue@[qi] == j by {
            assert(j == start_idx);
            assert(queue@[0] == j);
        }
    }
    let mut head: usize = 0;
    while head < queue.len()
        invariant
            n == w * h,
            w > 0,
            h > 0,
            squares.len() == n,
            visited.len() == n,
            s0.len() == n,
            head <= queue.len(),
            expands(s0, w as int, h as int, start),
            start == (sc as int, sr as int),
            0 <= start.0 < w && 0 <= start.1 < h,
            0 <= start.0 + start.1 * w < n,
            visited@[start.0 + start.1 * w],
            forall|qi: int|
                0 <= qi < queue@.len() ==> (#[trigger] queue@[qi]) < n && visited@[queue@[qi] as int],
            forall|j: int|
                0 <= j < n && #[trigger] visited@[j] ==> flood_reaches(
                    s0,
                    w as int,
                    h as int,
                    start,
                    (j % (w as int), j / (w as int)),
                ),
            forall|j: int|
                0 <= j < n ==> #[trigger] squares@[j] == (if visited@[j] {
                    Square { content: s0[j].content, visibility: Visibility::Uncovered }
                } else {
                    s0[j]
                }),
            forall|qi: int|
                0 <= qi < head ==> #[trigger] closed_at(
                    s0,
                    w as int,
                    h as int,
                    visited@,
                    ((queue@[qi] as int) % (w as int), (queue@[qi] as int) / (w as int)),
                ),
            forall|j: int|
                0 <= j < n && #[trigger] visited@[j] ==> exists|qi: int|
                    0 <= qi < queue@.len() && queue@[qi] == j,
        decreases n - count_true(visited@), queue.len() - head,
    {
        let ghost visited_pre = visited@;
        let ghost queue_pre = queue@;
        let ghost head_pre = head as int;
        let j = queue[head];
        head = head + 1;
        proof {
            lemma_count_true_bounds(visited_pre);
        }
        process_entry(squares, &mut visited, &mut queue, w, h, j, Ghost(s0), Ghost(start));
        proof {
            lemma_count_true_bounds(visited@);
            assert forall|j2: int| 0 <= j2 < n && visited_pre[j2] implies visited@[j2] by {}
            assert forall|qi: int| 0 <= qi < head implies #[trigger] closed_at(
                s0,
                w as int,
                h as int,
                visited@,
                ((queue@[qi] as int) % (w as int), (queue@[qi] as int) / (w as int)),
            ) by {
                if qi < head_pre {
                    assert(queue@[qi] == queue_pre[qi]);
                    let j2 = queue_pre[qi] as int;
                    let p = (j2 % (w as int), j2 / (w as int));
                    lemma_fundamental_div_mod(j2, w as int);
                    assert(p.1 < h) by (nonlinear_arith)
                        requires
                            0 <= j2 < n,
                            n == w * h,
                            w > 0,
                            h > 0,
                            0 <= p.0 < w,
                            j2 == p.0 + p.1 * w,
                    ;
                    assert(closed_at(s0, w as int, h as int, visited_pre, p));
                    if expands(s0, w as int, h as int, p) {
                        if revealable(s0, w as int, h as int, (p.0 - 1, p.1)) {
                            lemma_index_in_range(w as int, h as int, p.0 - 1, p.1);
                            assert(visited@[p.0 - 1 + p.1 * (w as int)]);
                        }
                        if revealable(s0, w as int, h as int, (p.0 + 1, p.1)) {
                            lemma_index_in_range(w as int, h as int, p.0 + 1, p.1);
                            assert(visited@[p.0 + 1 + p.1 * (w as int)]);
                        }
                        if revealable(s0, w as int, h as int, (p.0, p.1 - 1)) {
                            lemma_index_in_range(w as int, h as int, p.0, p.1 - 1);
                            assert(visited@[p.0 + (p.1 - 1) * (w as int)]);
                        }
                        if revealable(s0, w as int, h as int, (p.0, p.1 + 1)) {
                            lemma_index_in_range(w as int, h as int, p.0, p.1 + 1);
                            assert(visited@[p.0 + (p.1 + 1) * (w as int)]);
                        }
                    }
                    assert(closed_at(s0, w as int, h as int, visited@, p));
                } else {
                    assert(queue@[qi] == j);
                }
            }
        }
    }
    proof {
        assert forall|p: (int, int)|
            0 <= p.0 < w && 0 <= p.1 < h && visited@[p.0 + p.1 * (w as int)] implies
            #[trigger] closed_at(s0, w as int, h as int, visited@, p) by {
            lemma_index_in_range(w as int, h as int, p.0, p.1);
            let j = p.0 + p.1 * (w as int);
            lemma_fundamental_div_mod_converse(j, w as int, p.1, p.0);
            let qi = choose|qi: int| 0 <= qi < queue@.len() && queue@[qi] == j;
            assert(closed_at(
                s0,
                w as int,
                h as int,
                visited@,
                ((queue@[qi] as int) % (w as int), (queue@[qi] as int) / (w as int)),
            ));
        }
        assert forall|c: int, r: int| 0 <= c < w && 0 <= r < h implies (#[trigger] square_at(
            squares@,
            w as int,
            c,
            r,
        )).visibility == (if flood_reaches(s0, w as int, h as int, start, (c, r)) {
            Visibility::Uncovered
        } else {
            square_at(s0, w as int, c, r).visibility
        }) by {
            lemma_index_in_range(w as int, h as int, c, r);
            let j = c + r * (w as int);
            if flood_reaches(s0, w as int, h as int, start, (c, r)) {
                let path = choose|path: Seq<(int, int)>|
                    flood_path(s0, w as int, h as int, path) && path[0] == start && path.last() == (
                    c,
                    r,
                );
                lemma_path_marked(s0, w as int, h as int, visited@, path);
                assert(visited@[j]);
            } else {
                if visited@[j] {
                    lemma_fundamental_div_mod_converse(j, w as int, r, c);
                    assert(false);
                }
            }
        }
    }
}


impl Board {
    /// Uncovers the square at `pos` and reports whether it held a bomb. An
    /// already uncovered or flagged square is left alone (the reveal is a
    /// no-op there, by design). A covered bomb is uncovered and reported. A
    /// covered empty square with neighbouring bombs is uncovered alone; one
    /// with none starts the flood fill, which uncovers exactly the squares a
    /// flood path from `pos` reaches and never a bomb or a flag.
    #[verifier::rlimit(60)]
    pub fn uncover_square(&mut self, pos: (usize, usize)) -> (bomb: bool)
        requires
            old(self).wf(),
            old(self).in_bounds(pos),
        ensures
            final(self).wf(),
            uncover_transition(*old(self), *final(self), pos, bomb),
    {
        proof {
            lemma_index_in_range(
                self.size.0 as int,
                self.size.1 as int,
                pos.0 as int,
                pos.1 as int,
            );
        }
        let sq = self.square(pos);
        let ghost i = self.spec_index_of(pos);
        let ghost w = self.size.0 as int;
        let ghost h = self.size.1 as int;
        match sq.visibility {
            Visibility::Flagged => false,
            Visibility::Uncovered => false,
            Visibility::Covered => {
                let is_zero = match sq.content {
                    Content::Empty(0) => true,
                    _ => false,
                };
                if is_zero {
                    let ghost s0 = self.squares@;
                    let sw = self.size.0;
                    let sh = self.size.1;
                    flood_fill(&mut self.squares, sw, sh, pos.0, pos.1);
                    proof {
                        let n = s0.len() as int;
                        assert forall|k: int| 0 <= k < n implies (is_flagged(
                            #[trigger] self.squares@[k],
                        ) == is_flagged(s0[k]) && is_bomb(self.squares@[k]) == is_bomb(s0[k])) by {
                            let c = k % w;
                            let r = k / w;
                            lemma_fundamental_div_mod(k, w);
                            assert(n == w * h);
                            assert(w > 0 && h > 0);
                            assert(0 <= c < w);
                            assert(k == w * r + c);
                            assert(r < h) by (nonlinear_arith)
                                requires
                                    0 <= k < n,
                                    n == w * h,
                                    w > 0,
                                    h > 0,
                                    0 <= c < w,
                                    k == w * r + c,
                            ;
                            assert(k == c + r * w) by (nonlinear_arith)
                                requires
                                    k == w * r + c,
                            ;
                            assert(square_at(self.squares@, w, c, r) == self.squares@[k]);
                            if flood_reaches(s0, w, h, (pos.0 as int, pos.1 as int), (c, r)) {
                                lemma_flood_never_bombs(
                                    s0,
                                    w,
                                    h,
                                    (pos.0 as int, pos.1 as int),
                                    (c, r),
                                );
                            }
                        }
                        lemma_count_pointwise(s0, self.squares@, |sq2: Square| is_flagged(sq2));
                        lemma_count_pointwise(s0, self.squares@, |sq2: Square| is_bomb(sq2));
                        lemma_count_pointwise(
                            s0,
                            self.squares@,
                            |sq2: Square| is_flagged(sq2) && is_bomb(sq2),
                        );
                        lemma_adj_preserved_by_visibility(s0, self.squares@, w, h);
                    }
                    false
                } else {
                    let target = self.square_mut(pos);
                    *target = Square { content: sq.content, visibility: Visibility::Uncovered };
                    proof {
                        let upd = Square {
                            content: sq.content,
                            visibility: Visibility::Uncovered,
                        };
                        lemma_count_update(
                            old(self).squares@,
                            |sq2: Square| is_flagged(sq2),
                            i,
                            upd,
                        );
                        lemma_count_update(old(self).squares@, |sq2: Square| is_bomb(sq2), i, upd);
                        lemma_count_update(
                            old(self).squares@,
                            |sq2: Square| is_flagged(sq2) && is_bomb(sq2),
                            i,
                            upd,
                        );
                        lemma_adj_preserved_by_visibility(old(self).squares@, self.squares@, w, h);
                    }
                    match sq.content {
                        Content::Bomb => true,
                        Content::Empty(_) => false,
                    }
                }
            },
        }
    }
}


/// The flag-toggle state machine at `pos`: what `flag_square` does and
/// reports. An uncovered square is left alone; a flagged square is
/// unflagged, with the counters following; a covered square is flagged
/// unless the flag count has reached the bomb count.
pub open spec fn flag_transition(b0: Board, b1: Board, pos: (usize, usize), committed: bool) -> bool {
    &&& b1.size == b0.size
    &&& b1.num_bombs == b0.num_bombs
    &&& ({
        let i = b0.spec_index_of(pos);
        let sq = b0.squares@[i];
        match sq.visibility {
            Visibility::Uncovered => !committed && b1 == b0,
            Visibility::Flagged => {
                &&& committed
                &&& b1.squares@ == b0.squares@.update(
                    i,
                    Square { content: sq.content, visibility: Visibility::Covered },
                )
                &&& b1.flagged_squares == b0.flagged_squares - 1
                &&& b1.flagged_bombs == b0.flagged_bombs - (if is_bomb(sq) {
                    1int
                } else {
                    0int
                })
            },
            Visibility::Covered => {
                if b0.flagged_squares < b0.num_bombs {
                    &&& committed
                    &&& b1.squares@ == b0.squares@.update(
                        i,
                        Square { content: sq.content, visibility: Visibility::Flagged },
                    )
                    &&& b1.flagged_squares == b0.flagged_squares + 1
                    &&& b1.flagged_bombs == b0.flagged_bombs + (if is_bomb(sq) {
                        1int
                    } else {
                        0int
                    })
                } else {
                    !committed && b1 == b0
                }
            },
        }
    })
}

/// The reveal state machine at `pos`: what `uncover_square` does and
/// reports. Contents, flags and counters never change; an uncovered or
/// flagged square is left alone; a covered bomb is uncovered and reported;
/// a covered empty square with neighbouring bombs is uncovered alone; one
/// with none floods, uncovering exactly what a flood path from `pos`
/// reaches.
pub open spec fn uncover_transition(b0: Board, b1: Board, pos: (usize, usize), bomb: bool) -> bool {
    &&& b1.size == b0.size
    &&& b1.num_bombs == b0.num_bombs
    &&& b1.flagged_squares == b0.flagged_squares
    &&& b1.flagged_bombs == b0.flagged_bombs
    &&& b1.squares@.len() == b0.squares@.len()
    &&& (forall|k: int|
        0 <= k < b0.squares@.len() ==> (#[trigger] b1.squares@[k]).content
            == b0.squares@[k].content)
    &&& bomb == (b0.squares@[b0.spec_index_of(pos)].visibility is Covered && is_bomb(
        b0.squares@[b0.spec_index_of(pos)],
    ))
    &&& ({
        let i = b0.spec_index_of(pos);
        let sq = b0.squares@[i];
        let w = b0.size.0 as int;
        let h = b0.size.1 as int;
        if !(sq.visibility is Covered) {
            b1 == b0
        } else if sq.content == Content::Empty(0u8) {
            forall|c: int, r: int|
                0 <= c < w && 0 <= r < h ==> (#[trigger] square_at(b1.squares@, w, c, r)).visibility
                    == (if flood_reaches(b0.squares@, w, h, (pos.0 as int, pos.1 as int), (c, r)) {
                    Visibility::Uncovered
                } else {
                    square_at(b0.squares@, w, c, r).visibility
                })
        } else {
            b1.squares@ == b0.squares@.update(
                i,
                Square { content: sq.content, visibility: Visibility::Uncovered },
            )
        }
    })
}



impl Board {
    /// The number of columns.
    pub fn width(&self) -> (r: usize)
        ensures
            r == self.size.0,
    {
        self.size.0
    }

    /// The number of rows.
    pub fn height(&self) -> (r: usize)
        ensures
            r == self.size.1,
    {
        self.size.1
    }

    /// How many squares hold bombs.
    pub fn bombs(&self) -> (r: usize)
        ensures
            r == self.num_bombs,
    {
        self.num_bombs
    }

    /// How many squares are flagged.
    pub fn flagged(&self) -> (r: usize)
        ensures
            r == self.flagged_squares,
    {
        self.flagged_squares
    }

    /// Whether the game is won: all bombs, and nothing else, are flagged.
    /// The caller polls this after each flag toggle.
    pub fn won(&self) -> (r: bool)
        ensures
            r == (self.flagged_bombs == self.num_bombs && self.flagged_squares == self.num_bombs),
    {
        self.flagged_bombs == self.num_bombs && self.flagged_squares == self.num_bombs
    }
}

/// The flag cap: a well-formed board never has more flagged squares than
/// bombs, and every operation of the board keeps it well formed — so no
/// sequence of flag toggles can push the flag count past the bomb count.
pub proof fn lemma_flag_cap(b: Board)
    requires
        b.wf(),
    ensures
        b.flagged_squares <= b.num_bombs,
{
}

} // verus!

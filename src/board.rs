//! The N-queens board: each square is empty, with the number of placed queens
//! that attack it, or holds a queen.
use vstd::prelude::*;
use crate::grid::{
    at, on_board, attacks, attackers, count_true, peaceful, lemma_attackers_zero,
    lemma_peaceful_add, lemma_index_in_range, lemma_index_distinct, lemma_grid_ext,
    lemma_attackers_add, lemma_attackers_bound,
};

verus! {

#[derive(Clone, Copy, PartialEq, Eq, Structural, Debug)]
pub enum Field {
    /// Unoccupied, attacked by this many queens.
    Empty(usize),
    Queen,
}

/// A square, 0-indexed by row and column.
#[derive(Clone, Copy, PartialEq, Eq, Structural, Debug)]
pub struct Position {
    pub row: usize,
    pub column: usize,
}

/// Which way an update moves the attack counts.
#[derive(Clone, Copy, PartialEq, Eq, Structural, Debug)]
pub enum AttackChange {
    Increase,
    Decrease,
}

/// Why a board could not be created.
#[derive(Clone, Copy, PartialEq, Eq, Structural, Debug)]
pub enum ConfigError {
    /// A board needs at least one row.
    ZeroSize,
}

/// An `n`-by-`n` board, stored row by row.
pub struct Board {
    n: usize,
    cells: Vec<Field>,
}

/// Which squares of `cells` hold a queen.
pub open spec fn queens(cells: Seq<Field>) -> Seq<bool> {
    cells.map_values(|f: Field| f is Queen)
}

/// Every empty square records exactly the number of queens that attack it.
pub open spec fn counts_match(cells: Seq<Field>, n: nat) -> bool {
    forall|r: int, c: int|
        on_board(n, r, c) ==> match #[trigger] at(cells, n, r, c) {
            Field::Empty(k) => k == attackers(queens(cells), n, r, c),
            Field::Queen => true,
        }
}

/// `f` after one attack more or one less; a queen's square keeps no count.
pub open spec fn bumped(f: Field, change: AttackChange) -> Field {
    match f {
        Field::Empty(k) => match change {
            AttackChange::Increase => Field::Empty((k + 1) as usize),
            AttackChange::Decrease => Field::Empty((k - 1) as usize),
        },
        Field::Queen => Field::Queen,
    }
}

/// Whether `f` can take one attack more or one less without leaving `usize`.
pub open spec fn can_bump(f: Field, change: AttackChange) -> bool {
    match f {
        Field::Empty(k) => match change {
            AttackChange::Increase => k < usize::MAX,
            AttackChange::Decrease => k >= 1,
        },
        Field::Queen => true,
    }
}

/// `after` is `before` with the count of each square that a queen on `q`
/// attacks moved by one.
pub open spec fn adjusted(
    before: Seq<Field>,
    after: Seq<Field>,
    n: nat,
    q: Position,
    change: AttackChange,
) -> bool {
    &&& after.len() == before.len()
    &&& forall|r: int, c: int|
        on_board(n, r, c) ==> #[trigger] at(after, n, r, c) == if attacks(
            q.row as int,
            q.column as int,
            r,
            c,
        ) {
            bumped(at(before, n, r, c), change)
        } else {
            at(before, n, r, c)
        }
}

/// `after` is `before` with a queen put on `q` and the counts of the squares it
/// attacks raised by one.
pub open spec fn placed(before: Seq<Field>, after: Seq<Field>, n: nat, q: Position) -> bool {
    &&& after.len() == before.len()
    &&& forall|r: int, c: int|
        on_board(n, r, c) ==> #[trigger] at(after, n, r, c) == if r == q.row && c == q.column {
            Field::Queen
        } else if attacks(q.row as int, q.column as int, r, c) {
            bumped(at(before, n, r, c), AttackChange::Increase)
        } else {
            at(before, n, r, c)
        }
}

/// `after` is `before` with the queen on `q` taken away, its square empty and
/// unattacked, and the counts of the squares it attacked lowered by one.
pub open spec fn removed(before: Seq<Field>, after: Seq<Field>, n: nat, q: Position) -> bool {
    &&& after.len() == before.len()
    &&& forall|r: int, c: int|
        on_board(n, r, c) ==> #[trigger] at(after, n, r, c) == if r == q.row && c == q.column {
            Field::Empty(0)
        } else if attacks(q.row as int, q.column as int, r, c) {
            bumped(at(before, n, r, c), AttackChange::Decrease)
        } else {
            at(before, n, r, c)
        }
}

impl Position {
    /// Where the square sits in the row-major order of an `n`-by-`n` board.
    pub open spec fn index(self, n: nat) -> int {
        self.row * n + self.column
    }

    /// The top-left square.
    pub fn origin() -> (p: Position)
        ensures
            p == (Position { row: 0, column: 0 }),
    {
        Position { row: 0, column: 0 }
    }

    /// The square after this one in row-major order: one column right, or the
    /// start of the next row after the last column.
    pub fn next(&self, n: usize) -> (p: Position)
        requires
            self.column < n,
            self.column + 1 >= n ==> self.row < usize::MAX,
        ensures
            self.column + 1 >= n ==> p == (Position { row: (self.row + 1) as usize, column: 0 }),
            self.column + 1 < n ==> p == (Position {
                row: self.row,
                column: (self.column + 1) as usize,
            }),
    {
        let mut next_r = self.row;
        let mut next_c = self.column + 1;
        if next_c >= n {
            next_r = next_r + 1;
            next_c = 0;
        }
        Position { row: next_r, column: next_c }
    }

    /// Whether the square lies off an `n`-by-`n` board.
    pub fn is_outside_board(&self, n: usize) -> (b: bool)
        ensures
            b == (self.row >= n || self.column >= n),
    {
        self.row >= n || self.column >= n
    }
}

impl Board {
    /// Number of rows, which is also the number of columns.
    pub closed spec fn size(&self) -> nat {
        self.n as nat
    }

    /// The squares, row by row.
    pub closed spec fn cells(&self) -> Seq<Field> {
        self.cells@
    }

    pub open spec fn cell(&self, r: int, c: int) -> Field {
        at(self.cells(), self.size(), r, c)
    }

    pub open spec fn occupancy(&self) -> Seq<bool> {
        queens(self.cells())
    }

    /// The board has its full set of squares.
    pub open spec fn wf(&self) -> bool {
        &&& self.size() >= 1
        &&& self.size() * self.size() <= usize::MAX
        &&& self.cells().len() == self.size() * self.size()
    }

    /// The attack counts agree with the queens on the board.
    pub open spec fn consistent(&self) -> bool {
        counts_match(self.cells(), self.size())
    }

    pub open spec fn holds(&self, p: Position) -> bool {
        on_board(self.size(), p.row as int, p.column as int)
    }

    /// Number of queens on the board.
    pub open spec fn num_queens(&self) -> nat {
        count_true(self.occupancy())
    }

    /// An `n`-by-`n` board with every square empty and unattacked.
    pub fn empty(n: usize) -> (r: Result<Board, ConfigError>)
        requires
            n * n <= usize::MAX,
        ensures
            n == 0 <==> r == Err::<Board, ConfigError>(ConfigError::ZeroSize),
            r matches Ok(b) ==> {
                &&& b.wf()
                &&& b.size() == n
                &&& b.cells() == Seq::new((n * n) as nat, |k: int| Field::Empty(0))
                &&& b.consistent()
            },
    {
        if n == 0 {
            return Err(ConfigError::ZeroSize);
        }
        let total: usize = n * n;
        let cells: Vec<Field> = vec![Field::Empty(0); total];
        let b = Board { n, cells };
        assert(b.cells() =~= Seq::new((n * n) as nat, |k: int| Field::Empty(0)));
        proof {
            let occ = queens(b.cells());
            assert forall|r: int, c: int| on_board(n as nat, r, c) implies match #[trigger] at(
                b.cells(),
                n as nat,
                r,
                c,
            ) {
                Field::Empty(k) => k == attackers(occ, n as nat, r, c),
                Field::Queen => true,
            } by {
                lemma_index_in_range(n as nat, r, c);
                lemma_no_queens_no_attackers(occ, n as nat, r, c);
            }
        }
        Ok(b)
    }

    pub fn size_of(&self) -> (r: usize)
        ensures
            r == self.size(),
    {
        self.n
    }

    /// Whether `queens_placed` queens fill the board: one for each row.
    pub fn is_complete(&self, queens_placed: usize) -> (r: bool)
        ensures
            r == (queens_placed == self.size()),
    {
        queens_placed == self.n
    }

    /// The square at `pos`.
    pub fn field_at(&self, pos: &Position) -> (r: Field)
        requires
            self.wf(),
            self.holds(*pos),
        ensures
            r == self.cell(pos.row as int, pos.column as int),
    {
        proof {
            lemma_index_in_range(self.size(), pos.row as int, pos.column as int);
        }
        self.cells[pos.row * self.n + pos.column]
    }

    pub fn holds_queen(&self, pos: &Position) -> (r: bool)
        requires
            self.wf(),
            self.holds(*pos),
        ensures
            r == (self.cell(pos.row as int, pos.column as int) is Queen),
    {
        match self.field_at(pos) {
            Field::Queen => true,
            Field::Empty(_) => false,
        }
    }

    /// No queen stands on `pos` and none attacks it.
    pub fn is_not_attacked(&self, pos: &Position) -> (r: bool)
        requires
            self.wf(),
            self.holds(*pos),
        ensures
            r == (self.cell(pos.row as int, pos.column as int) == Field::Empty(0)),
    {
        match self.field_at(pos) {
            Field::Empty(k) => k == 0,
            Field::Queen => false,
        }
    }

    fn set_field(&mut self, pos: &Position, f: Field)
        requires
            old(self).wf(),
            old(self).holds(*pos),
        ensures
            final(self).size() == old(self).size(),
            final(self).cells() == old(self).cells().update(pos.index(old(self).size()), f),
    {
        proof {
            lemma_index_in_range(self.size(), pos.row as int, pos.column as int);
        }
        let k: usize = pos.row * self.n + pos.column;
        self.cells.set(k, f);
    }

    /// Marks `pos` as holding a queen, leaving every other square as it was.
    pub fn put_queen_at(&mut self, pos: &Position)
        requires
            old(self).wf(),
            old(self).holds(*pos),
        ensures
            final(self).size() == old(self).size(),
            final(self).cells() == old(self).cells().update(
                pos.index(old(self).size()),
                Field::Queen,
            ),
    {
        self.set_field(pos, Field::Queen);
    }

    /// Marks `pos` as empty and unattacked, leaving every other square as it was.
    pub fn remove_queen_from(&mut self, pos: &Position)
        requires
            old(self).wf(),
            old(self).holds(*pos),
        ensures
            final(self).size() == old(self).size(),
            final(self).cells() == old(self).cells().update(
                pos.index(old(self).size()),
                Field::Empty(0),
            ),
    {
        self.set_field(pos, Field::Empty(0));
    }

    /// Moves the count of the square at `pos` by one; a queen's square is left as it is.
    pub fn adjust_attack_count_at(&mut self, pos: &Position, attack_change: &AttackChange)
        requires
            old(self).wf(),
            old(self).holds(*pos),
            can_bump(old(self).cell(pos.row as int, pos.column as int), *attack_change),
        ensures
            final(self).size() == old(self).size(),
            final(self).cells() == old(self).cells().update(
                pos.index(old(self).size()),
                bumped(old(self).cell(pos.row as int, pos.column as int), *attack_change),
            ),
    {
        match self.field_at(pos) {
            Field::Empty(current) => {
                let updated = match attack_change {
                    AttackChange::Increase => current + 1,
                    AttackChange::Decrease => current - 1,
                };
                self.set_field(pos, Field::Empty(updated));
            },
            Field::Queen => {
                proof {
                    lemma_index_in_range(self.size(), pos.row as int, pos.column as int);
                    assert(self.cells().update(pos.index(self.size()), Field::Queen)
                        =~= self.cells());
                }
            },
        }
    }

    /// Moves by one the count of every square that a queen on `pos` attacks:
    /// its row, its column and both its diagonals, up to the board's edges.
    pub fn adjust_attack_counts(&mut self, pos: &Position, attack_change: AttackChange)
        requires
            old(self).wf(),
            old(self).holds(*pos),
            forall|r: int, c: int|
                on_board(old(self).size(), r, c) && attacks(
                    pos.row as int,
                    pos.column as int,
                    r,
                    c,
                ) ==> can_bump(#[trigger] old(self).cell(r, c), attack_change),
        ensures
            final(self).size() == old(self).size(),
            final(self).wf(),
            adjusted(old(self).cells(), final(self).cells(), old(self).size(), *pos, attack_change),
    {
        let ghost before = self.cells();
        let n = self.n;
        proof {
            assert forall|i: int, j: int|
                on_board(n as nat, i, j) && attacks(
                    pos.row as int,
                    pos.column as int,
                    i,
                    j,
                ) implies can_bump(#[trigger] at(before, n as nat, i, j), attack_change) by {
                assert(self.cell(i, j) == at(before, n as nat, i, j));
            }
        }
        let mut r: usize = 0;
        while r < n
            invariant
                self.wf(),
                self.size() == n,
                self.holds(*pos),
                0 <= r <= n,
                self.cells().len() == before.len(),
                forall|i: int, j: int|
                    on_board(n as nat, i, j) && attacks(pos.row as int, pos.column as int, i, j)
                        ==> can_bump(#[trigger] at(before, n as nat, i, j), attack_change),
                forall|i: int, j: int|
                    on_board(n as nat, i, j) ==> #[trigger] at(self.cells(), n as nat, i, j) == if i
                        < r && attacks(pos.row as int, pos.column as int, i, j) {
                        bumped(at(before, n as nat, i, j), attack_change)
                    } else {
                        at(before, n as nat, i, j)
                    },
            decreases n - r,
        {
            let mut c: usize = 0;
            while c < n
                invariant
                    self.wf(),
                    self.size() == n,
                    self.holds(*pos),
                    0 <= r < n,
                    0 <= c <= n,
                    self.cells().len() == before.len(),
                    forall|i: int, j: int|
                        on_board(n as nat, i, j) && attacks(pos.row as int, pos.column as int, i, j)
                            ==> can_bump(#[trigger] at(before, n as nat, i, j), attack_change),
                    forall|i: int, j: int|
                        on_board(n as nat, i, j) ==> #[trigger] at(self.cells(), n as nat, i, j)
                            == if (i < r || (i == r && j < c)) && attacks(
                            pos.row as int,
                            pos.column as int,
                            i,
                            j,
                        ) {
                            bumped(at(before, n as nat, i, j), attack_change)
                        } else {
                            at(before, n as nat, i, j)
                        },
                decreases n - c,
            {
                let target = Position { row: r, column: c };
                if attacks_square(n, pos, r, c) {
                    let ghost mid = self.cells();
                    assert(at(self.cells(), n as nat, r as int, c as int) == at(before, n as nat, r as int, c as int));
                    self.adjust_attack_count_at(&target, &attack_change);
                    proof {
                        lemma_index_in_range(n as nat, r as int, c as int);
                        assert forall|i: int, j: int| on_board(n as nat, i, j) && !(i == r && j == c)
                            implies #[trigger] at(self.cells(), n as nat, i, j) == at(mid, n as nat, i, j) by {
                            lemma_index_in_range(n as nat, i, j);
                            lemma_index_in_range(n as nat, r as int, c as int);
                            lemma_index_distinct(n as nat, i, j, r as int, c as int);
                        }
                    }
                }
                c = c + 1;
            }
            r = r + 1;
        }
    }


    /// Puts a queen on the unattacked empty square `pos` and raises by one the
    /// count of every square that it attacks.
    pub fn place_queen(&mut self, pos: &Position)
        requires
            old(self).wf(),
            old(self).consistent(),
            old(self).holds(*pos),
            old(self).cell(pos.row as int, pos.column as int) == Field::Empty(0),
        ensures
            final(self).size() == old(self).size(),
            final(self).wf(),
            final(self).consistent(),
            placed(old(self).cells(), final(self).cells(), old(self).size(), *pos),
            final(self).occupancy() == old(self).occupancy().update(
                pos.index(old(self).size()),
                true,
            ),
            final(self).num_queens() == old(self).num_queens() + 1,
            peaceful(old(self).occupancy(), old(self).size()) ==> peaceful(
                final(self).occupancy(),
                old(self).size(),
            ),
    {
        let ghost n = self.size();
        let ghost c0 = self.cells();
        let ghost occ0 = queens(c0);
        let ghost q = pos.index(n);
        proof {
            lemma_index_in_range(n, pos.row as int, pos.column as int);
        }
        self.put_queen_at(pos);
        let ghost c1 = self.cells();
        let ghost occ1 = occ0.update(q, true);
        proof {
            assert(queens(c1) =~= occ1);
            assert forall|r: int, c: int|
                on_board(n, r, c) && attacks(pos.row as int, pos.column as int, r, c)
                    implies can_bump(#[trigger] self.cell(r, c), AttackChange::Increase) by {
                lemma_index_in_range(n, r, c);
                lemma_index_distinct(n, r, c, pos.row as int, pos.column as int);
                lemma_attackers_add(occ0, n, pos.row as int, pos.column as int, r, c);
                lemma_attackers_bound(occ1, n, r, c);
                assert(at(c0, n, r, c) == at(c1, n, r, c));
            }
        }
        self.adjust_attack_counts(pos, AttackChange::Increase);
        proof {
            let c2 = self.cells();
            assert forall|r: int, c: int| on_board(n, r, c) implies #[trigger] at(
                queens(c2),
                n,
                r,
                c,
            ) == at(occ1, n, r, c) by {
                lemma_index_in_range(n, r, c);
                assert(at(c2, n, r, c) == if attacks(pos.row as int, pos.column as int, r, c) {
                    bumped(at(c1, n, r, c), AttackChange::Increase)
                } else {
                    at(c1, n, r, c)
                });
            }
            lemma_grid_ext(queens(c2), occ1, n);
            assert forall|r: int, c: int| on_board(n, r, c) implies match #[trigger] at(
                c2,
                n,
                r,
                c,
            ) {
                Field::Empty(k) => k == attackers(queens(c2), n, r, c),
                Field::Queen => true,
            } by {
                lemma_index_in_range(n, r, c);
                if !(r == pos.row && c == pos.column) {
                    lemma_index_distinct(n, r, c, pos.row as int, pos.column as int);
                    assert(at(c0, n, r, c) == at(c1, n, r, c));
                }
                lemma_attackers_add(occ0, n, pos.row as int, pos.column as int, r, c);
                lemma_attackers_bound(occ1, n, r, c);
            }
            assert forall|r: int, c: int| on_board(n, r, c) implies #[trigger] at(c2, n, r, c)
                == if r == pos.row && c == pos.column {
                Field::Queen
            } else if attacks(pos.row as int, pos.column as int, r, c) {
                bumped(at(c0, n, r, c), AttackChange::Increase)
            } else {
                at(c0, n, r, c)
            } by {
                lemma_index_in_range(n, r, c);
                if !(r == pos.row && c == pos.column) {
                    lemma_index_distinct(n, r, c, pos.row as int, pos.column as int);
                    assert(at(c0, n, r, c) == at(c1, n, r, c));
                }
            }
            crate::grid::lemma_count_true_update(occ0, q);
            if peaceful(occ0, n) {
                lemma_attackers_zero(occ0, n, pos.row as int, pos.column as int);
                lemma_peaceful_add(occ0, n, pos.row as int, pos.column as int);
            }
        }
    }

    /// Takes the queen off `pos`, leaves its square empty and unattacked, and
    /// lowers by one the count of every square that it attacked. The queens on
    /// the board must be peaceful, as every board built by `place_queen` is:
    /// otherwise the freed square would still be attacked.
    pub fn remove_queen(&mut self, pos: &Position)
        requires
            old(self).wf(),
            old(self).consistent(),
            old(self).holds(*pos),
            old(self).cell(pos.row as int, pos.column as int) == Field::Queen,
            peaceful(old(self).occupancy(), old(self).size()),
        ensures
            final(self).size() == old(self).size(),
            final(self).wf(),
            final(self).consistent(),
            removed(old(self).cells(), final(self).cells(), old(self).size(), *pos),
            final(self).occupancy() == old(self).occupancy().update(
                pos.index(old(self).size()),
                false,
            ),
            final(self).num_queens() + 1 == old(self).num_queens(),
    {
        let ghost n = self.size();
        let ghost c0 = self.cells();
        let ghost occ0 = queens(c0);
        let ghost q = pos.index(n);
        proof {
            lemma_index_in_range(n, pos.row as int, pos.column as int);
        }
        self.remove_queen_from(pos);
        let ghost c1 = self.cells();
        let ghost occ1 = occ0.update(q, false);
        proof {
            assert(queens(c1) =~= occ1);
            assert(occ1.update(q, true) =~= occ0);
            assert forall|i: int, j: int|
                on_board(n, i, j) && #[trigger] at(occ0, n, i, j) implies !attacks(
                i,
                j,
                pos.row as int,
                pos.column as int,
            ) by {
                assert(at(occ0, n, pos.row as int, pos.column as int));
            }
            lemma_attackers_zero(occ0, n, pos.row as int, pos.column as int);
            lemma_attackers_add(occ1, n, pos.row as int, pos.column as int, pos.row as int, pos.column as int);
            assert forall|r: int, c: int|
                on_board(n, r, c) && attacks(pos.row as int, pos.column as int, r, c)
                    implies can_bump(#[trigger] self.cell(r, c), AttackChange::Decrease) by {
                lemma_index_in_range(n, r, c);
                lemma_index_distinct(n, r, c, pos.row as int, pos.column as int);
                lemma_attackers_add(occ1, n, pos.row as int, pos.column as int, r, c);
                assert(at(c0, n, r, c) == at(c1, n, r, c));
            }
        }
        self.adjust_attack_counts(pos, AttackChange::Decrease);
        proof {
            let c2 = self.cells();
            assert forall|r: int, c: int| on_board(n, r, c) implies #[trigger] at(
                queens(c2),
                n,
                r,
                c,
            ) == at(occ1, n, r, c) by {
                lemma_index_in_range(n, r, c);
                assert(at(c2, n, r, c) == if attacks(pos.row as int, pos.column as int, r, c) {
                    bumped(at(c1, n, r, c), AttackChange::Decrease)
                } else {
                    at(c1, n, r, c)
                });
            }
            lemma_grid_ext(queens(c2), occ1, n);
            assert forall|r: int, c: int| on_board(n, r, c) implies match #[trigger] at(
                c2,
                n,
                r,
                c,
            ) {
                Field::Empty(k) => k == attackers(queens(c2), n, r, c),
                Field::Queen => true,
            } by {
                lemma_index_in_range(n, r, c);
                if !(r == pos.row && c == pos.column) {
                    lemma_index_distinct(n, r, c, pos.row as int, pos.column as int);
                    assert(at(c0, n, r, c) == at(c1, n, r, c));
                }
                lemma_attackers_add(occ1, n, pos.row as int, pos.column as int, r, c);
            }
            assert forall|r: int, c: int| on_board(n, r, c) implies #[trigger] at(c2, n, r, c)
                == if r == pos.row && c == pos.column {
                Field::Empty(0)
            } else if attacks(pos.row as int, pos.column as int, r, c) {
                bumped(at(c0, n, r, c), AttackChange::Decrease)
            } else {
                at(c0, n, r, c)
            } by {
                lemma_index_in_range(n, r, c);
                if !(r == pos.row && c == pos.column) {
                    lemma_index_distinct(n, r, c, pos.row as int, pos.column as int);
                    assert(at(c0, n, r, c) == at(c1, n, r, c));
                }
            }
            crate::grid::lemma_count_true_update(occ1, q);
        }
    }
}

/// Taking a queen away right after putting it on an unattacked empty square
/// restores every square of the board, attack counts included.
pub proof fn lemma_place_then_remove(
    before: Seq<Field>,
    mid: Seq<Field>,
    after: Seq<Field>,
    n: nat,
    q: Position,
)
    requires
        before.len() == n * n,
        n * n <= usize::MAX,
        counts_match(before, n),
        on_board(n, q.row as int, q.column as int),
        at(before, n, q.row as int, q.column as int) == Field::Empty(0),
        placed(before, mid, n, q),
        removed(mid, after, n, q),
    ensures
        after == before,
{
    let occ = queens(before);
    assert forall|r: int, c: int| on_board(n, r, c) implies #[trigger] at(after, n, r, c) == at(
        before,
        n,
        r,
        c,
    ) by {
        assert(at(mid, n, r, c) == if r == q.row && c == q.column {
            Field::Queen
        } else if attacks(q.row as int, q.column as int, r, c) {
            bumped(at(before, n, r, c), AttackChange::Increase)
        } else {
            at(before, n, r, c)
        });
        if attacks(q.row as int, q.column as int, r, c) && at(before, n, r, c) is Empty {
            lemma_index_in_range(n, q.row as int, q.column as int);
            lemma_attackers_add(occ, n, q.row as int, q.column as int, r, c);
            lemma_attackers_bound(occ.update(q.index(n), true), n, r, c);
        }
    }
    lemma_grid_ext(after, before, n);
}

/// Whether a queen on `q` attacks the square `(r, c)`.
fn attacks_square(n: usize, q: &Position, r: usize, c: usize) -> (b: bool)
    requires
        n * n <= usize::MAX,
        q.row < n,
        q.column < n,
        r < n,
        c < n,
    ensures
        b == attacks(q.row as int, q.column as int, r as int, c as int),
{
    assert(2 * n <= n * n + 1) by (nonlinear_arith)
        requires
            n >= 1,
    ;
    let same_square = q.row == r && q.column == c;
    let shared = q.row == r || q.column == c || q.row + c == r + q.column || q.row + q.column
        == r + c;
    !same_square && shared
}

proof fn lemma_no_queens_no_attackers(occ: Seq<bool>, n: nat, r: int, c: int)
    requires
        forall|k: int| 0 <= k < n * n ==> !occ[k],
    ensures
        attackers(occ, n, r, c) == 0,
{
    lemma_no_queens_rows(occ, n, n as int, r, c);
}

proof fn lemma_no_queens_row(occ: Seq<bool>, n: nat, i: int, j: int, r: int, c: int)
    requires
        0 <= i < n,
        0 <= j <= n,
        forall|k: int| 0 <= k < n * n ==> !occ[k],
    ensures
        crate::grid::attackers_in_row(occ, n, i, j, r, c) == 0,
    decreases j,
{
    if j > 0 {
        lemma_no_queens_row(occ, n, i, j - 1, r, c);
        lemma_index_in_range(n, i, j - 1);
    }
}

proof fn lemma_no_queens_rows(occ: Seq<bool>, n: nat, i: int, r: int, c: int)
    requires
        0 <= i <= n,
        forall|k: int| 0 <= k < n * n ==> !occ[k],
    ensures
        crate::grid::attackers_in_rows(occ, n, i, r, c) == 0,
    decreases i,
{
    if i > 0 {
        lemma_no_queens_rows(occ, n, i - 1, r, c);
        lemma_no_queens_row(occ, n, i - 1, n as int, r, c);
    }
}

} // verus!

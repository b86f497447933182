use vstd::prelude::*;

use crate::board::{lemma_leaf_at_flat_pos, Board, Idx};
use crate::coords::{
    coord_of, index_of, lemma_coord_of_index_of, lemma_coord_of_is_digit, lemma_flat_len_uniform,
    lemma_flat_pos_is_index_of, lemma_index_of_bounds, lemma_index_of_extend, lemma_uniform_leaf,
    pow_usize, uniform_dims, valid_coords,
};
use crate::piece::Piece;
use crate::player::Player;
use crate::PlacePieceError;

use vstd::arithmetic::power::{lemma_pow1, lemma_pow_increases, pow};

verus! {

/// How many of the given cells hold a piece.
pub open spec fn count_occupied(cells: Seq<Piece>) -> nat
    decreases cells.len(),
{
    if cells.len() == 0 {
        0
    } else {
        count_occupied(cells.drop_last()) + if cells.last().player is Some {
            1nat
        } else {
            0nat
        }
    }
}

/// Filling one empty cell raises the occupied count by exactly one.
proof fn lemma_count_occupied_update(cells: Seq<Piece>, i: int, p: Piece)
    requires
        0 <= i < cells.len(),
        cells[i].player is None,
        p.player is Some,
    ensures
        count_occupied(cells.update(i, p)) == count_occupied(cells) + 1,
    decreases cells.len(),
{
    let cu = cells.update(i, p);
    if i == cells.len() - 1 {
        assert(cu.drop_last() =~= cells.drop_last());
        assert(cu.last() == p);
    } else {
        assert(cu.drop_last() =~= cells.drop_last().update(i, p));
        lemma_count_occupied_update(cells.drop_last(), i, p);
        assert(cu.last() == cells.last());
    }
}

/// One match: an n-dimensional board of side `n + 1`, and the roster of
/// players whose turns alternate in roster order.
#[derive(Debug)]
pub struct Game {
    pub board: Board<Piece>,
    pub dim: usize,
    pub width: usize,
    pub players: Vec<Player>,
}

impl Game {
    /// The structural invariant: the side length is the dimension count plus
    /// one, the board is a full hypercube of that shape, the roster is one of
    /// the supported sizes, and the cell count fits the machine.
    pub open spec fn wf(self) -> bool {
        &&& self.dim >= 1
        &&& self.width == self.dim + 1
        &&& self.board.has_dims(uniform_dims(self.dim as nat, self.width))
        &&& 1 <= self.players@.len() <= 3
        &&& pow(self.width as int, self.dim as nat) <= usize::MAX
    }

    /// The board's cells in flattening order.
    pub open spec fn spec_cells(self) -> Seq<Piece> {
        self.board.spec_flat()
    }

    /// Sets up an empty `dim`-dimensional board of side `dim + 1` and a
    /// roster of `players` fixed identities.
    pub fn new(dim: usize, players: u32) -> (r: Game)
        requires
            dim >= 1,
            1 <= players <= 3,
            pow(dim + 1, dim as nat) <= usize::MAX,
        ensures
            r.wf(),
            r.dim == dim,
            r.width == dim + 1,
            r.players@.len() == players,
            forall|i: int|
                0 <= i < players ==> (#[trigger] r.players@[i]).spec_symbol() == (if i == 0 {
                    'X'
                } else if i == 1 {
                    'O'
                } else {
                    'F'
                }),
            r.spec_cells().len() == pow(dim + 1, dim as nat),
            forall|i: int| 0 <= i < r.spec_cells().len() ==> r.spec_cells()[i].player is None,
    {
        proof {
            lemma_pow1(dim as int + 1);
            lemma_pow_increases((dim + 1) as nat, 1, dim as nat);
            assert(dim + 1 <= usize::MAX);
        }
        let width = dim + 1;
        let mut dims_vec: Vec<usize> = Vec::new();
        let mut i: usize = 0;
        while i < dim
            invariant
                i <= dim,
                dims_vec@.len() == i,
                forall|j: int| 0 <= j < i ==> #[trigger] dims_vec@[j] == width,
            decreases dim - i,
        {
            dims_vec.push(width);
            i += 1;
        }
        proof {
            assert(dims_vec@ =~= uniform_dims(dim as nat, width));
        }
        let board = Board::new(dims_vec, Piece::empty());
        let mut roster: Vec<Player> = Vec::new();
        let mut p: u32 = 0;
        while p < players
            invariant
                p <= players,
                players <= 3,
                roster@.len() == p,
                forall|j: int|
                    0 <= j < p ==> (#[trigger] roster@[j]).spec_symbol() == (if j == 0 {
                        'X'
                    } else if j == 1 {
                        'O'
                    } else {
                        'F'
                    }),
            decreases players - p,
        {
            match Player::from_index(p) {
                Some(player) => roster.push(player),
                None => {
                    proof {
                        assert(false);
                    }
                },
            }
            p += 1;
        }
        let r = Game { board, dim, width, players: roster };
        proof {
            lemma_flat_len_uniform(r.board, dim as nat, width);
        }
        r
    }

    /// Places `piece` at `coords`.  The coordinate must address a cell and
    /// the cell must be free; nothing changes on failure, and on success
    /// exactly that one cell changes.
    pub fn place_piece(&mut self, piece: Piece, coords: Idx) -> (r: Result<
        (),
        PlacePieceError,
    >)
        requires
            old(self).wf(),
            piece.player is Some,
        ensures
            final(self).wf(),
            final(self).dim == old(self).dim,
            final(self).width == old(self).width,
            final(self).players == old(self).players,
            !valid_coords(coords@, old(self).dim as nat, old(self).width as nat) ==> {
                &&& r == Err::<(), PlacePieceError>(PlacePieceError::OutOfBounds)
                &&& final(self).spec_cells() == old(self).spec_cells()
            },
            (valid_coords(coords@, old(self).dim as nat, old(self).width as nat) && old(
                self,
            ).spec_cells()[index_of(coords@, old(self).width as nat)].player is Some) ==> {
                &&& r == Err::<(), PlacePieceError>(PlacePieceError::Occupied)
                &&& final(self).spec_cells() == old(self).spec_cells()
            },
            (valid_coords(coords@, old(self).dim as nat, old(self).width as nat) && old(
                self,
            ).spec_cells()[index_of(coords@, old(self).width as nat)].player is None) ==> {
                &&& r == Ok::<(), PlacePieceError>(())
                &&& final(self).spec_cells() == old(self).spec_cells().update(
                    index_of(coords@, old(self).width as nat),
                    piece,
                )
            },
            r is Err ==> count_occupied(final(self).spec_cells()) == count_occupied(
                old(self).spec_cells(),
            ),
            r is Ok ==> count_occupied(final(self).spec_cells()) == count_occupied(
                old(self).spec_cells(),
            ) + 1,
    {
        let ghost n = self.dim as nat;
        let ghost w = self.width as nat;
        proof {
            lemma_uniform_leaf(self.board, coords@, n, self.width);
            if self.board.spec_leaf(coords@) is Some {
                lemma_leaf_at_flat_pos(self.board, coords@);
                lemma_flat_pos_is_index_of(self.board, coords@, n, self.width);
            }
        }
        match self.board.get_at(&coords) {
            None => {
                return Err(PlacePieceError::OutOfBounds);
            },
            Some(cell) => {
                if cell.player.is_some() {
                    return Err(PlacePieceError::Occupied);
                }
            },
        }
        let placed = self.board.put(&coords, piece);
        proof {
            assert(placed);
            assert(final(self).board.has_dims(uniform_dims(n, final(self).width)));
            lemma_count_occupied_update(
                old(self).spec_cells(),
                index_of(coords@, w),
                piece,
            );
        }
        Ok(())
    }

    /// The flat index of a coordinate, by the positional formula that
    /// matches the flattening order.
    pub fn get_index(&self, coords: Vec<usize>) -> (r: usize)
        requires
            self.wf(),
            valid_coords(coords@, self.dim as nat, self.width as nat),
        ensures
            r == index_of(coords@, self.width as nat),
    {
        let ghost w = self.width as nat;
        let mut r: usize = 0;
        let mut j: usize = 0;
        proof {
            assert(coords@.take(0) =~= Seq::<usize>::empty());
        }
        while j < coords.len()
            invariant
                self.wf(),
                j <= coords@.len(),
                valid_coords(coords@, self.dim as nat, w),
                w == self.width as nat,
                r == index_of(coords@.take(j as int), w),
            decreases coords@.len() - j,
        {
            proof {
                assert(coords@.take(j as int + 1) =~= coords@.take(j as int).push(coords@[j as int]));
                lemma_index_of_extend(coords@.take(j as int), coords@[j as int], w);
                lemma_index_of_bounds(coords@.take(j as int + 1), w);
                lemma_index_of_bounds(coords@.take(j as int), w);
                lemma_pow_increases(w, (j + 1) as nat, self.dim as nat);
            }
            r = r * self.width + coords[j];
            j += 1;
        }
        proof {
            assert(coords@.take(coords@.len() as int) =~= coords@);
        }
        r
    }

    /// The coordinate component for dimension `d` (1-indexed from the
    /// innermost dimension) encoded in a flat index.
    pub fn get_coord(&self, index: usize, d: usize) -> (r: usize)
        requires
            self.wf(),
            1 <= d <= self.dim,
        ensures
            r == coord_of(index as int, d as nat, self.width as nat),
    {
        let ghost w = self.width as int;
        proof {
            lemma_pow_increases(self.width as nat, d as nat, self.dim as nat);
            lemma_pow_increases(self.width as nat, (d - 1) as nat, self.dim as nat);
            vstd::arithmetic::power::lemma_pow_positive(w, d as nat);
            vstd::arithmetic::power::lemma_pow_positive(w, (d - 1) as nat);
            lemma_coord_of_is_digit(index as int, d as nat, self.width as nat);
            vstd::arithmetic::div_mod::lemma_breakdown(
                index as int,
                pow(w, (d - 1) as nat),
                w,
            );
            vstd::arithmetic::power::lemma_pow_adds(w, (d - 1) as nat, 1);
            lemma_pow1(w);
        }
        let pd = pow_usize(self.width, d);
        let pd1 = pow_usize(self.width, d - 1);
        (index % pd - index % pd1) / pd1
    }

    /// Whose turn it is: the roster entry selected by the number of occupied
    /// cells, modulo the roster size.
    pub fn current_player(&self) -> (r: Player)
        requires
            self.wf(),
        ensures
            r == self.players@[count_occupied(self.spec_cells()) as int % self.players@.len() as int],
    {
        let cells = self.board.flatten();
        let ghost flat = self.spec_cells();
        let mut num: usize = 0;
        let mut i: usize = 0;
        proof {
            assert(flat.take(0) =~= Seq::<Piece>::empty());
        }
        while i < cells.len()
            invariant
                i <= cells@.len(),
                cells@.len() == flat.len(),
                forall|k: int| 0 <= k < flat.len() ==> *(#[trigger] cells@[k]) == flat[k],
                num == count_occupied(flat.take(i as int)),
                num <= i,
            decreases cells@.len() - i,
        {
            proof {
                assert(flat.take(i as int + 1).drop_last() =~= flat.take(i as int));
                assert(flat.take(i as int + 1).last() == flat[i as int]);
            }
            if cells[i].player.is_some() {
                num = num + 1;
            }
            i += 1;
        }
        proof {
            assert(flat.take(flat.len() as int) =~= flat);
        }
        let t = num % self.players.len();
        self.players[t]
    }
}

/// The flatten/coordinate consistency law: for every valid coordinate, the
/// flattened board holds that coordinate's cell exactly at its flat index,
/// and decomposing the flat index at any dimension recovers the coordinate
/// component for that dimension (dimension 1 being the innermost level, the
/// last component).
pub proof fn lemma_flatten_index_consistent(g: Game, coords: Seq<usize>)
    requires
        g.wf(),
        valid_coords(coords, g.dim as nat, g.width as nat),
    ensures
        0 <= index_of(coords, g.width as nat) < g.spec_cells().len(),
        g.board.spec_leaf(coords) == Some(
            g.spec_cells()[index_of(coords, g.width as nat)],
        ),
        forall|d: nat|
            1 <= d <= g.dim as nat ==> #[trigger] coord_of(
                index_of(coords, g.width as nat),
                d,
                g.width as nat,
            ) == coords[g.dim - d],
{
    lemma_uniform_leaf(g.board, coords, g.dim as nat, g.width);
    lemma_leaf_at_flat_pos(g.board, coords);
    lemma_flat_pos_is_index_of(g.board, coords, g.dim as nat, g.width);
    assert forall|d: nat|
        1 <= d <= g.dim as nat implies #[trigger] coord_of(
        index_of(coords, g.width as nat),
        d,
        g.width as nat,
    ) == coords[g.dim - d] by {
        lemma_coord_of_index_of(coords, g.width as nat, d);
    }
}

} // verus!


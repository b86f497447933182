use vstd::prelude::*;

use std::collections::VecDeque;

verus! {

/// A coordinate: one component per nesting level, outermost level first.
pub type Idx = VecDeque<usize>;

/// An n-dimensional grid, represented recursively: a node holds one child
/// board per position along its axis, and a leaf holds a single cell value.
#[derive(Debug)]
pub enum Board<T> {
    Nd(Vec<Board<T>>),
    Piece(T),
}

impl<T> Board<T> {
    /// The sub-board reached by walking one nesting level per coordinate
    /// component, or `None` if some component is out of range for its level.
    pub open spec fn spec_sub(self, coords: Seq<usize>) -> Option<Board<T>>
        decreases coords.len(),
    {
        if coords.len() == 0 {
            Some(self)
        } else {
            match self {
                Board::Nd(boards) => {
                    if (coords[0] as int) < boards@.len() {
                        boards@[coords[0] as int].spec_sub(coords.drop_first())
                    } else {
                        None
                    }
                },
                Board::Piece(_) => None,
            }
        }
    }

    /// The leaf value addressed by a coordinate: `None` when the coordinate
    /// leaves the board's extent or stops at an interior node.
    pub open spec fn spec_leaf(self, coords: Seq<usize>) -> Option<T> {
        match self.spec_sub(coords) {
            Some(Board::Piece(v)) => Some(v),
            _ => None,
        }
    }

    /// All leaf values, in depth-first order with children visited in index
    /// order.
    pub open spec fn spec_flat(self) -> Seq<T>
        decreases self,
    {
        match self {
            Board::Nd(boards) => Board::spec_flat_all(boards@),
            Board::Piece(v) => seq![v],
        }
    }

    /// The concatenated flattenings of a sequence of boards.
    pub open spec fn spec_flat_all(boards: Seq<Board<T>>) -> Seq<T>
        decreases boards,
    {
        if boards.len() == 0 {
            Seq::empty()
        } else {
            boards[0].spec_flat() + Board::spec_flat_all(boards.drop_first())
        }
    }

    /// The position of the leaf addressed by `coords` within the flattened
    /// board; meaningful when `spec_leaf(coords)` is `Some`.
    pub open spec fn spec_flat_pos(self, coords: Seq<usize>) -> int
        decreases coords.len(),
    {
        if coords.len() == 0 {
            0
        } else {
            match self {
                Board::Nd(boards) => Board::spec_flat_all(boards@.take(coords[0] as int)).len()
                    + boards@[coords[0] as int].spec_flat_pos(coords.drop_first()),
                Board::Piece(_) => 0,
            }
        }
    }

    /// The board has exactly `dims.len()` nesting levels, and every node at
    /// depth `k` has exactly `dims[k]` children.
    pub open spec fn has_dims(self, dims: Seq<usize>) -> bool
        decreases dims.len(),
    {
        if dims.len() == 0 {
            self is Piece
        } else {
            match self {
                Board::Nd(boards) => {
                    &&& boards@.len() == dims[0]
                    &&& forall|i: int|
                        0 <= i < boards@.len() ==> (#[trigger] boards@[i]).has_dims(
                            dims.drop_first(),
                        )
                },
                Board::Piece(_) => false,
            }
        }
    }
}

/// The number of cells of a board whose per-level sizes are `dims`.
pub open spec fn dims_prod(dims: Seq<usize>) -> nat
    decreases dims.len(),
{
    if dims.len() == 0 {
        1
    } else {
        (dims[0] * dims_prod(dims.drop_first())) as nat
    }
}

impl<T: Copy> Board<T> {
    /// Builds the board for the given per-level sizes, with every cell set to
    /// `initial_value`.
    pub fn new(dim: Vec<usize>, initial_value: T) -> (r: Board<T>)
        requires
            dim@.len() > 0,
        ensures
            r.has_dims(dim@),
            r.spec_flat() == Seq::new(dims_prod(dim@), |i: int| initial_value),
    {
        proof {
            assert(dim@.skip(0) =~= dim@);
        }
        Self::new_from(&dim, 0, initial_value)
    }

    fn new_from(dim: &Vec<usize>, at: usize, initial_value: T) -> (r: Board<T>)
        requires
            at <= dim@.len(),
        ensures
            r.has_dims(dim@.skip(at as int)),
            r.spec_flat() == Seq::new(dims_prod(dim@.skip(at as int)), |i: int| initial_value),
        decreases dim@.len() - at,
    {
        let n = dim.len();
        if at == n {
            let r = Board::Piece(initial_value);
            assert(r.spec_flat() =~= Seq::new(dims_prod(dim@.skip(at as int)), |i: int| initial_value));
            r
        } else {
            let width = dim[at];
            let ghost sub_dims = dim@.skip(at as int + 1);
            let mut boards: Vec<Board<T>> = Vec::new();
            let mut i: usize = 0;
            while i < width
                invariant
                    i <= width,
                    at < n,
                    n == dim@.len(),
                    width == dim@[at as int],
                    sub_dims == dim@.skip(at as int + 1),
                    boards@.len() == i,
                    forall|j: int| 0 <= j < i ==> (#[trigger] boards@[j]).has_dims(sub_dims),
                    forall|j: int|
                        0 <= j < i ==> (#[trigger] boards@[j]).spec_flat() == Seq::new(
                            dims_prod(sub_dims),
                            |k: int| initial_value,
                        ),
                decreases width - i,
            {
                boards.push(Self::new_from(dim, at + 1, initial_value));
                i += 1;
            }
            let r = Board::Nd(boards);
            proof {
                assert(dim@.skip(at as int).drop_first() =~= sub_dims);
                assert(dim@.skip(at as int)[0] == dim@[at as int]);
                lemma_flat_all_uniform(r->Nd_0@, dims_prod(sub_dims), initial_value);
                assert(dims_prod(dim@.skip(at as int)) == width * dims_prod(sub_dims));
                assert(r.spec_flat() =~= Seq::new(
                    dims_prod(dim@.skip(at as int)),
                    |i: int| initial_value,
                ));
            }
            r
        }
    }
}

impl<T> Board<T> {
    /// Walks one nesting level per coordinate component and returns the
    /// sub-board reached, or `None` if some component is out of range.
    pub fn get_board(&self, coords: Idx) -> (r: Option<&Board<T>>)
        ensures
            match r {
                Some(b) => self.spec_sub(coords@) == Some(*b),
                None => self.spec_sub(coords@) is None,
            },
    {
        proof {
            assert(coords@.skip(0) =~= coords@);
        }
        self.get_board_from(&coords, 0)
    }

    fn get_board_from(&self, coords: &Idx, at: usize) -> (r: Option<&Board<T>>)
        requires
            at <= coords@.len(),
        ensures
            match r {
                Some(b) => self.spec_sub(coords@.skip(at as int)) == Some(*b),
                None => self.spec_sub(coords@.skip(at as int)) is None,
            },
        decreases coords@.len() - at,
    {
        if at == coords.len() {
            assert(coords@.skip(at as int) =~= Seq::<usize>::empty());
            Some(self)
        } else {
            proof {
                assert(coords@.skip(at as int).drop_first() =~= coords@.skip(at as int + 1));
                assert(coords@.skip(at as int)[0] == coords@[at as int]);
            }
            match self {
                Board::Nd(boards) => {
                    let c = coords[at];
                    if c < boards.len() {
                        boards[c].get_board_from(coords, at + 1)
                    } else {
                        None
                    }
                },
                Board::Piece(_) => None,
            }
        }
    }

    /// Looks a cell value up: `None` both when the coordinate is out of
    /// bounds and when it stops at an interior node instead of a leaf.
    pub fn get(&self, coords: Idx) -> (r: Option<&T>)
        ensures
            match r {
                Some(v) => self.spec_leaf(coords@) == Some(*v),
                None => self.spec_leaf(coords@) is None,
            },
    {
        match self.get_board(coords) {
            Some(board) => match board {
                Board::Nd(_) => None,
                Board::Piece(piece) => Some(piece),
            },
            None => None,
        }
    }

    /// Cell lookup through a borrowed coordinate.
    pub(crate) fn get_at(&self, coords: &Idx) -> (r: Option<&T>)
        ensures
            match r {
                Some(v) => self.spec_leaf(coords@) == Some(*v),
                None => self.spec_leaf(coords@) is None,
            },
    {
        proof {
            assert(coords@.skip(0) =~= coords@);
        }
        match self.get_board_from(coords, 0) {
            Some(board) => match board {
                Board::Nd(_) => None,
                Board::Piece(piece) => Some(piece),
            },
            None => None,
        }
    }

    /// All leaf values in depth-first order, children in index order: the
    /// same order that flat indices are computed in.
    pub fn flatten(&self) -> (r: Vec<&T>)
        ensures
            r@.len() == self.spec_flat().len(),
            forall|i: int| 0 <= i < r@.len() ==> *r@[i] == self.spec_flat()[i],
    {
        let mut out: Vec<&T> = Vec::new();
        self.flatten_into(&mut out);
        out
    }

    fn flatten_into<'a>(&'a self, out: &mut Vec<&'a T>)
        ensures
            final(out)@.len() == old(out)@.len() + self.spec_flat().len(),
            forall|i: int| 0 <= i < old(out)@.len() ==> final(out)@[i] == old(out)@[i],
            forall|i: int|
                0 <= i < self.spec_flat().len() ==> *final(out)@[old(out)@.len() + i]
                    == self.spec_flat()[i],
        decreases *self,
    {
        match self {
            Board::Piece(v) => {
                out.push(v);
            },
            Board::Nd(boards) => {
                let ghost flat = self.spec_flat();
                let ghost prefix = out@;
                let mut i: usize = 0;
                while i < boards.len()
                    invariant
                        i <= boards@.len(),
                        self == Board::<T>::Nd(*boards),
                        flat == self.spec_flat(),
                        out@.len() == prefix.len() + Board::spec_flat_all(boards@.take(i as int)).len(),
                        forall|k: int| 0 <= k < prefix.len() ==> out@[k] == prefix[k],
                        forall|k: int|
                            0 <= k < Board::spec_flat_all(boards@.take(i as int)).len()
                                ==> *out@[prefix.len() + k] == Board::spec_flat_all(
                                boards@.take(i as int),
                            )[k],
                    decreases boards@.len() - i,
                {
                    proof {
                        lemma_flat_all_take_next(boards@, i as int);
                    }
                    boards[i].flatten_into(out);
                    i += 1;
                }
                proof {
                    assert(boards@.take(boards@.len() as int) =~= boards@);
                }
            },
        }
    }
}

/// Extending a prefix of `boards` by one more board appends that board's
/// flattening to the concatenated flattening of the prefix.
proof fn lemma_flat_all_take_next<T>(boards: Seq<Board<T>>, i: int)
    requires
        0 <= i < boards.len(),
    ensures
        Board::spec_flat_all(boards.take(i + 1)) == Board::spec_flat_all(boards.take(i))
            + boards[i].spec_flat(),
    decreases i,
{
    if i == 0 {
        assert(boards.take(0) =~= Seq::<Board<T>>::empty());
        assert(boards.take(1).drop_first() =~= Seq::<Board<T>>::empty());
        assert(boards.take(1)[0] == boards[0]);
        assert(Board::spec_flat_all(boards.take(1)) == boards[0].spec_flat()
            + Board::spec_flat_all(Seq::<Board<T>>::empty()));
        assert(Board::spec_flat_all(boards.take(1)) =~= Board::spec_flat_all(boards.take(0))
            + boards[0].spec_flat());
    } else {
        lemma_flat_all_take_next(boards.drop_first(), i - 1);
        assert(boards.take(i + 1).drop_first() =~= boards.drop_first().take(i));
        assert(boards.take(i).drop_first() =~= boards.drop_first().take(i - 1));
        assert(Board::spec_flat_all(boards.take(i + 1)) =~= Board::spec_flat_all(boards.take(i))
            + boards[i].spec_flat());
    }
}

impl<T> Board<T> {
    /// `res` is `orig` with the sub-board addressed by `coords` replaced by
    /// `sub`, everything else unchanged.
    pub open spec fn replaced_at(
        orig: Board<T>,
        coords: Seq<usize>,
        sub: Board<T>,
        res: Board<T>,
    ) -> bool
        decreases coords.len(),
    {
        if coords.len() == 0 {
            res == sub
        } else {
            match orig {
                Board::Nd(boards) => {
                    &&& res is Nd
                    &&& res->Nd_0@.len() == boards@.len()
                    &&& (coords[0] as int) < boards@.len()
                    &&& forall|i: int|
                        0 <= i < boards@.len() && i != coords[0] as int ==> res->Nd_0@[i]
                            == boards@[i]
                    &&& Board::replaced_at(
                        boards@[coords[0] as int],
                        coords.drop_first(),
                        sub,
                        res->Nd_0@[coords[0] as int],
                    )
                },
                Board::Piece(_) => false,
            }
        }
    }

    /// Like `get_board`, but the sub-board reached can be written through
    /// the returned reference: afterwards the whole board is the old board
    /// with that sub-board replaced.
    pub fn get_board_mut(&mut self, coords: Idx) -> (r: Option<&mut Board<T>>)
        ensures
            match r {
                Some(b) => {
                    &&& old(self).spec_sub(coords@) == Some(*b)
                    &&& Board::replaced_at(*old(self), coords@, *final(b), *final(self))
                },
                None => {
                    &&& old(self).spec_sub(coords@) is None
                    &&& final(self).spec_flat() == old(self).spec_flat()
                    &&& forall|c2: Seq<usize>|
                        #[trigger] final(self).spec_leaf(c2) == old(self).spec_leaf(c2)
                    &&& forall|dims: Seq<usize>|
                        old(self).has_dims(dims) ==> #[trigger] final(self).has_dims(dims)
                },
            },
    {
        proof {
            assert(coords@.skip(0) =~= coords@);
        }
        self.get_board_mut_from(&coords, 0)
    }

    fn get_board_mut_from(&mut self, coords: &Idx, at: usize) -> (r: Option<&mut Board<T>>)
        requires
            at <= coords@.len(),
        ensures
            match r {
                Some(b) => {
                    &&& old(self).spec_sub(coords@.skip(at as int)) == Some(*b)
                    &&& Board::replaced_at(
                        *old(self),
                        coords@.skip(at as int),
                        *final(b),
                        *final(self),
                    )
                },
                None => {
                    &&& old(self).spec_sub(coords@.skip(at as int)) is None
                    &&& final(self).spec_flat() == old(self).spec_flat()
                    &&& forall|c2: Seq<usize>|
                        #[trigger] final(self).spec_leaf(c2) == old(self).spec_leaf(c2)
                    &&& forall|dims: Seq<usize>|
                        old(self).has_dims(dims) ==> #[trigger] final(self).has_dims(dims)
                },
            },
        decreases coords@.len() - at,
    {
        let ghost rest = coords@.skip(at as int);
        if at == coords.len() {
            proof {
                assert(rest =~= Seq::<usize>::empty());
            }
            Some(self)
        } else {
            proof {
                assert(rest.drop_first() =~= coords@.skip(at as int + 1));
                assert(rest[0] == coords@[at as int]);
            }
            let c = coords[at];
            match self {
                Board::Nd(boards) => {
                    if c < boards.len() {
                        let ghost orig = *old(self);
                        let ghost old_boards = boards@;
                        let ghost old_child = boards@[c as int];
                        proof {
                            assert(orig is Nd);
                            assert(orig->Nd_0@ == old_boards);
                            assert forall|bfin: Board<T>, childfin: Board<T>, res: Board<T>|
                                #![trigger Board::replaced_at(old_child, coords@.skip(at as int + 1), bfin, childfin), Board::replaced_at(orig, coords@.skip(at as int), bfin, res)]
                                (Board::replaced_at(
                                    old_child,
                                    coords@.skip(at as int + 1),
                                    bfin,
                                    childfin,
                                ) && res is Nd && res->Nd_0@ == old_boards.update(
                                    c as int,
                                    childfin,
                                )) implies Board::replaced_at(
                                orig,
                                coords@.skip(at as int),
                                bfin,
                                res,
                            ) by {
                                let nb = res->Nd_0@;
                                assert(nb[c as int] == childfin);
                                assert forall|i: int|
                                    0 <= i < old_boards.len() && i != c as int implies nb[i]
                                    == old_boards[i] by {}
                            }
                            assert forall|childfin: Board<T>, res: Board<T>|
                                #![trigger childfin.spec_flat(), res.spec_flat()]
                                (childfin.spec_flat() == old_child.spec_flat() && (forall|
                                    c2: Seq<usize>,
                                |
                                    #[trigger] childfin.spec_leaf(c2) == old_child.spec_leaf(c2))
                                    && (forall|dims: Seq<usize>|
                                    old_child.has_dims(dims) ==> #[trigger] childfin.has_dims(
                                        dims,
                                    )) && res is Nd && res->Nd_0@ == old_boards.update(
                                    c as int,
                                    childfin,
                                )) implies (res.spec_flat() == orig.spec_flat() && (forall|
                                    c2: Seq<usize>,
                                |
                                    #[trigger] res.spec_leaf(c2) == orig.spec_leaf(c2)) && (forall|
                                    dims: Seq<usize>,
                                |
                                    orig.has_dims(dims) ==> #[trigger] res.has_dims(dims))) by {
                                lemma_unchanged_compose(orig, res, old_child, childfin, c as int);
                            }
                        }
                        let child = &mut boards[c];
                        child.get_board_mut_from(coords, at + 1)
                    } else {
                        None
                    }
                },
                Board::Piece(_) => None,
            }
        }
    }

    /// Like `get`, but the cell can be written through the returned
    /// reference: afterwards the whole board is the old board with that one
    /// leaf replaced.
    pub fn get_mut(&mut self, coords: Idx) -> (r: Option<&mut T>)
        ensures
            match r {
                Some(v) => {
                    &&& old(self).spec_leaf(coords@) == Some(*v)
                    &&& Board::replaced_at(
                        *old(self),
                        coords@,
                        Board::Piece(*final(v)),
                        *final(self),
                    )
                },
                None => {
                    &&& old(self).spec_leaf(coords@) is None
                    &&& final(self).spec_flat() == old(self).spec_flat()
                    &&& forall|c2: Seq<usize>|
                        #[trigger] final(self).spec_leaf(c2) == old(self).spec_leaf(c2)
                    &&& forall|dims: Seq<usize>|
                        old(self).has_dims(dims) ==> #[trigger] final(self).has_dims(dims)
                },
            },
    {
        let ghost orig = *old(self);
        proof {
            assert forall|sub: Board<T>, res: Board<T>|
                #![trigger Board::replaced_at(orig, coords@, sub, res)]
                (orig.spec_sub(coords@) == Some(sub) && Board::replaced_at(
                    orig,
                    coords@,
                    sub,
                    res,
                )) implies (res.spec_flat() == orig.spec_flat() && (forall|c2: Seq<usize>|
                #[trigger] res.spec_leaf(c2) == orig.spec_leaf(c2)) && (forall|dims: Seq<usize>|
                orig.has_dims(dims) ==> #[trigger] res.has_dims(dims))) by {
                lemma_replace_same(orig, coords@, sub, res);
            }
        }
        match self.get_board_mut(coords) {
            Some(board) => match board {
                Board::Nd(_) => None,
                Board::Piece(piece) => Some(piece),
            },
            None => None,
        }
    }

    /// Overwrites the leaf addressed by `coords`, reporting whether the
    /// coordinate addressed a leaf.  On failure the board is unchanged; on
    /// success exactly that one cell changes, both under `spec_leaf` and in
    /// the flattened view, and the board keeps its shape.
    pub(crate) fn put(&mut self, coords: &Idx, v: T) -> (r: bool)
        ensures
            r == (old(self).spec_leaf(coords@) is Some),
            !r ==> final(self).spec_flat() == old(self).spec_flat(),
            r ==> {
                let pos = old(self).spec_flat_pos(coords@);
                &&& 0 <= pos < old(self).spec_flat().len()
                &&& final(self).spec_flat() == old(self).spec_flat().update(pos, v)
            },
            forall|c2: Seq<usize>|
                #[trigger] final(self).spec_leaf(c2) == if r && c2 == coords@ {
                    Some(v)
                } else {
                    old(self).spec_leaf(c2)
                },
            forall|dims: Seq<usize>|
                old(self).has_dims(dims) ==> #[trigger] final(self).has_dims(dims),
    {
        proof {
            assert(coords@.skip(0) =~= coords@);
        }
        self.put_from(coords, 0, v)
    }

    fn put_from(&mut self, coords: &Idx, at: usize, v: T) -> (r: bool)
        requires
            at <= coords@.len(),
        ensures
            r == (old(self).spec_leaf(coords@.skip(at as int)) is Some),
            !r ==> final(self).spec_flat() == old(self).spec_flat(),
            r ==> {
                let pos = old(self).spec_flat_pos(coords@.skip(at as int));
                &&& 0 <= pos < old(self).spec_flat().len()
                &&& final(self).spec_flat() == old(self).spec_flat().update(pos, v)
            },
            forall|c2: Seq<usize>|
                #[trigger] final(self).spec_leaf(c2) == if r && c2 == coords@.skip(at as int) {
                    Some(v)
                } else {
                    old(self).spec_leaf(c2)
                },
            forall|dims: Seq<usize>|
                old(self).has_dims(dims) ==> #[trigger] final(self).has_dims(dims),
        decreases coords@.len() - at,
    {
        let n = coords.len();
        let ghost rest = coords@.skip(at as int);
        if at == n {
            proof {
                assert(rest =~= Seq::<usize>::empty());
            }
            match self {
                Board::Piece(_) => {
                    *self = Board::Piece(v);
                    proof {
                        assert(final(self).spec_flat() =~= old(self).spec_flat().update(0, v));
                        assert forall|c2: Seq<usize>|
                            #[trigger] final(self).spec_leaf(c2) == if c2 == rest {
                                Some(v)
                            } else {
                                old(self).spec_leaf(c2)
                            } by {
                            if c2.len() == 0 {
                                assert(c2 =~= rest);
                            }
                        }
                    }
                    true
                },
                Board::Nd(_) => false,
            }
        } else {
            proof {
                assert(rest.drop_first() =~= coords@.skip(at as int + 1));
                assert(rest[0] == coords@[at as int]);
            }
            let c = coords[at];
            match self {
                Board::Nd(boards) => {
                    if c < boards.len() {
                        let ghost old_boards = boards@;
                        let ghost old_child = boards@[c as int];
                        let child = &mut boards[c];
                        let r = child.put_from(coords, at + 1, v);
                        proof {
                            assert(*final(self) is Nd);
                            let new_boards = (*final(self))->Nd_0@;
                            assert(new_boards == old_boards.update(c as int, *final(child)));
                            assert(new_boards.take(c as int) =~= old_boards.take(c as int));
                            assert(new_boards.skip(c as int + 1) =~= old_boards.skip(c as int + 1));
                            lemma_flat_all_split(old_boards, c as int);
                            lemma_flat_all_split(new_boards, c as int);
                            if r {
                                let p = old_child.spec_flat_pos(rest.drop_first());
                                let prefix = Board::spec_flat_all(old_boards.take(c as int));
                                assert(final(self).spec_flat() =~= old(self).spec_flat().update(
                                    prefix.len() + p,
                                    v,
                                ));
                            } else {
                                assert(final(self).spec_flat() =~= old(self).spec_flat());
                            }
                            assert forall|c2: Seq<usize>|
                                #[trigger] final(self).spec_leaf(c2) == if r && c2 == rest {
                                    Some(v)
                                } else {
                                    old(self).spec_leaf(c2)
                                } by {
                                if c2.len() == 0 {
                                    assert(c2 != rest);
                                } else if c2[0] as int == c as int {
                                    assert(final(self).spec_sub(c2) == final(child).spec_sub(
                                        c2.drop_first(),
                                    ));
                                    assert(old(self).spec_sub(c2) == old_child.spec_sub(
                                        c2.drop_first(),
                                    ));
                                    assert(final(self).spec_leaf(c2) == final(child).spec_leaf(
                                        c2.drop_first(),
                                    ));
                                    assert(old(self).spec_leaf(c2) == old_child.spec_leaf(
                                        c2.drop_first(),
                                    ));
                                    if c2.drop_first() == rest.drop_first() {
                                        assert forall|k: int| 0 <= k < c2.len() implies c2[k]
                                            == rest[k] by {
                                            if k > 0 {
                                                assert(c2[k] == c2.drop_first()[k - 1]);
                                                assert(rest[k] == rest.drop_first()[k - 1]);
                                            }
                                        }
                                        assert(c2 =~= rest);
                                    } else {
                                        assert(c2 != rest);
                                    }
                                } else {
                                    assert(c2 != rest);
                                    if (c2[0] as int) < old_boards.len() {
                                        assert(new_boards[c2[0] as int] == old_boards[c2[0] as int]);
                                    }
                                }
                            }
                            assert forall|dims: Seq<usize>|
                                old(self).has_dims(dims) implies #[trigger] final(self).has_dims(
                                dims,
                            ) by {
                                if dims.len() > 0 {
                                    assert(old_boards[c as int].has_dims(dims.drop_first()));
                                    assert forall|j: int|
                                        0 <= j < new_boards.len() implies (
                                    #[trigger] new_boards[j]).has_dims(dims.drop_first()) by {
                                        if j != c as int {
                                            assert(new_boards[j] == old_boards[j]);
                                        }
                                    }
                                }
                            }
                        }
                        r
                    } else {
                        false
                    }
                },
                Board::Piece(_) => false,
            }
        }
    }
}

impl<T> From<T> for Board<T> {
    /// Wraps a single cell value as a leaf board.
    fn from(piece: T) -> (r: Board<T>) {
        Board::Piece(piece)
    }
}

impl<T> vstd::std_specs::convert::FromSpecImpl<T> for Board<T> {
    open spec fn obeys_from_spec() -> bool {
        true
    }

    open spec fn from_spec(piece: T) -> Board<T> {
        Board::Piece(piece)
    }
}

/// Writing a new cell value through `get_mut` keeps the board's shape: a
/// leaf replaced by a leaf leaves every node as it was.
pub proof fn lemma_replaced_leaf_keeps_dims<T>(
    orig: Board<T>,
    coords: Seq<usize>,
    v: T,
    res: Board<T>,
    dims: Seq<usize>,
)
    requires
        orig.spec_leaf(coords) is Some,
        Board::replaced_at(orig, coords, Board::Piece(v), res),
        orig.has_dims(dims),
    ensures
        res.has_dims(dims),
    decreases coords.len(),
{
    if coords.len() == 0 {
        assert(orig is Piece);
        assert(dims.len() == 0);
    } else {
        let c = coords[0] as int;
        lemma_replaced_leaf_keeps_dims(
            orig->Nd_0@[c],
            coords.drop_first(),
            v,
            res->Nd_0@[c],
            dims.drop_first(),
        );
        assert forall|i: int|
            0 <= i < res->Nd_0@.len() implies (#[trigger] res->Nd_0@[i]).has_dims(
            dims.drop_first(),
        ) by {
            if i != c {
                assert(res->Nd_0@[i] == orig->Nd_0@[i]);
            }
        }
    }
}

/// Replacing a sub-board by itself changes no cell and no leaf.
proof fn lemma_replace_same<T>(orig: Board<T>, coords: Seq<usize>, sub: Board<T>, res: Board<T>)
    requires
        orig.spec_sub(coords) == Some(sub),
        Board::replaced_at(orig, coords, sub, res),
    ensures
        res.spec_flat() == orig.spec_flat(),
        forall|c2: Seq<usize>| #[trigger] res.spec_leaf(c2) == orig.spec_leaf(c2),
        forall|dims: Seq<usize>| orig.has_dims(dims) ==> #[trigger] res.has_dims(dims),
    decreases coords.len(),
{
    if coords.len() == 0 {
        assert(res == orig);
    } else {
        let c = coords[0] as int;
        let old_child = orig->Nd_0@[c];
        let new_child = res->Nd_0@[c];
        lemma_replace_same(old_child, coords.drop_first(), sub, new_child);
        assert(res->Nd_0@ =~= orig->Nd_0@.update(c, new_child));
        lemma_unchanged_compose(orig, res, old_child, new_child, c);
    }
}

/// Replacing one child by a board with the same cells and the same leaves
/// leaves the whole board's cells and leaves unchanged.
proof fn lemma_unchanged_compose<T>(
    orig: Board<T>,
    res: Board<T>,
    old_child: Board<T>,
    new_child: Board<T>,
    c: int,
)
    requires
        orig is Nd,
        res is Nd,
        0 <= c < orig->Nd_0@.len(),
        orig->Nd_0@[c] == old_child,
        res->Nd_0@ == orig->Nd_0@.update(c, new_child),
        new_child.spec_flat() == old_child.spec_flat(),
        forall|c2: Seq<usize>| #[trigger] new_child.spec_leaf(c2) == old_child.spec_leaf(c2),
        forall|dims: Seq<usize>|
            old_child.has_dims(dims) ==> #[trigger] new_child.has_dims(dims),
    ensures
        res.spec_flat() == orig.spec_flat(),
        forall|c2: Seq<usize>| #[trigger] res.spec_leaf(c2) == orig.spec_leaf(c2),
        forall|dims: Seq<usize>| orig.has_dims(dims) ==> #[trigger] res.has_dims(dims),
{
    assert forall|dims: Seq<usize>| orig.has_dims(dims) implies #[trigger] res.has_dims(dims) by {
        if dims.len() > 0 {
            assert(orig->Nd_0@[c].has_dims(dims.drop_first()));
            assert forall|j: int|
                0 <= j < res->Nd_0@.len() implies (#[trigger] res->Nd_0@[j]).has_dims(
                dims.drop_first(),
            ) by {
                if j != c {
                    assert(res->Nd_0@[j] == orig->Nd_0@[j]);
                }
            }
        }
    }
    let ob = orig->Nd_0@;
    let nb = res->Nd_0@;
    assert(nb.take(c) =~= ob.take(c));
    assert(nb.skip(c + 1) =~= ob.skip(c + 1));
    lemma_flat_all_split(ob, c);
    lemma_flat_all_split(nb, c);
    assert forall|c2: Seq<usize>| #[trigger] res.spec_leaf(c2) == orig.spec_leaf(c2) by {
        if c2.len() == 0 {
        } else if 0 <= c2[0] as int && (c2[0] as int) < ob.len() {
            if c2[0] as int == c {
                assert(res.spec_sub(c2) == new_child.spec_sub(c2.drop_first()));
                assert(orig.spec_sub(c2) == old_child.spec_sub(c2.drop_first()));
                assert(res.spec_leaf(c2) == new_child.spec_leaf(c2.drop_first()));
                assert(orig.spec_leaf(c2) == old_child.spec_leaf(c2.drop_first()));
            } else {
                assert(nb[c2[0] as int] == ob[c2[0] as int]);
            }
        }
    }
}

/// A leaf sits in the flattened board exactly at its flat position, and that
/// position is in range.
pub proof fn lemma_leaf_at_flat_pos<T>(b: Board<T>, coords: Seq<usize>)
    requires
        b.spec_leaf(coords) is Some,
    ensures
        0 <= b.spec_flat_pos(coords) < b.spec_flat().len(),
        b.spec_flat()[b.spec_flat_pos(coords)] == b.spec_leaf(coords)->0,
    decreases coords.len(),
{
    if coords.len() == 0 {
        assert(b is Piece);
    } else {
        let boards = b->Nd_0@;
        let c0 = coords[0] as int;
        let child = boards[c0];
        lemma_leaf_at_flat_pos(child, coords.drop_first());
        lemma_flat_all_split(boards, c0);
        let prefix = Board::spec_flat_all(boards.take(c0));
        let p = child.spec_flat_pos(coords.drop_first());
        assert(b.spec_flat()[prefix.len() + p] == child.spec_flat()[p]);
    }
}

/// The concatenated flattening splits around any one board of the sequence.
pub(crate) proof fn lemma_flat_all_split<T>(boards: Seq<Board<T>>, i: int)
    requires
        0 <= i < boards.len(),
    ensures
        Board::spec_flat_all(boards) == Board::spec_flat_all(boards.take(i))
            + boards[i].spec_flat() + Board::spec_flat_all(boards.skip(i + 1)),
    decreases i,
{
    if i == 0 {
        assert(boards.take(0) =~= Seq::<Board<T>>::empty());
        assert(boards.drop_first() =~= boards.skip(1));
        assert(Board::spec_flat_all(boards) =~= Board::spec_flat_all(boards.take(0))
            + boards[0].spec_flat() + Board::spec_flat_all(boards.skip(1)));
    } else {
        lemma_flat_all_split(boards.drop_first(), i - 1);
        assert(boards.take(i).drop_first() =~= boards.drop_first().take(i - 1));
        assert(boards.take(i)[0] == boards[0]);
        assert(boards.drop_first().skip(i) =~= boards.skip(i + 1));
        assert(boards.drop_first()[i - 1] == boards[i]);
        assert(Board::spec_flat_all(boards) =~= Board::spec_flat_all(boards.take(i))
            + boards[i].spec_flat() + Board::spec_flat_all(boards.skip(i + 1)));
    }
}

/// If every board in `boards` flattens to the same constant sequence of
/// length `p`, the concatenated flattening is that sequence repeated
/// `boards.len()` times.
proof fn lemma_flat_all_uniform<T>(boards: Seq<Board<T>>, p: nat, v: T)
    requires
        forall|j: int|
            0 <= j < boards.len() ==> (#[trigger] boards[j]).spec_flat() == Seq::new(
                p,
                |i: int| v,
            ),
    ensures
        Board::spec_flat_all(boards) == Seq::new(boards.len() * p, |i: int| v),
    decreases boards.len(),
{
    if boards.len() == 0 {
        assert(Board::spec_flat_all(boards) =~= Seq::new(boards.len() * p, |i: int| v));
    } else {
        lemma_flat_all_uniform(boards.drop_first(), p, v);
        assert(boards.len() * p == p + (boards.len() - 1) * p) by (nonlinear_arith);
        assert(Board::spec_flat_all(boards) =~= Seq::new(boards.len() * p, |i: int| v));
    }
}

} // verus!

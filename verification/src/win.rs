use vstd::prelude::*;

use itertools::Itertools;

use crate::coords::{
    coord_of, index_of, lemma_coord_of_index_of, lemma_index_of_bounds, lemma_index_of_injective,
    valid_coords,
};
use crate::game::Game;
use vstd::arithmetic::power::pow;
use crate::piece::Piece;
use crate::player::Player;

verus! {

/// How many of the given cells `player` owns.
pub open spec fn count_owned(cells: Seq<Piece>, player: Player) -> nat
    decreases cells.len(),
{
    if cells.len() == 0 {
        0
    } else {
        count_owned(cells.drop_last(), player) + if cells.last().player == Some(player) {
            1nat
        } else {
            0nat
        }
    }
}

/// The indices are sorted in strictly increasing order (so in particular
/// pairwise distinct).
pub open spec fn strictly_increasing(s: Seq<usize>) -> bool {
    forall|i: int, j: int| 0 <= i < j < s.len() ==> s[i] < s[j]
}

/// In dimension `d`, all cells of the combination share one coordinate
/// component.
pub open spec fn all_same(s: Seq<usize>, d: nat, width: nat) -> bool {
    forall|i: int, j: int|
        0 <= i < s.len() && 0 <= j < s.len() ==> #[trigger] coord_of(s[i] as int, d, width)
            == #[trigger] coord_of(s[j] as int, d, width)
}

/// In dimension `d`, the cells of the combination have pairwise distinct
/// coordinate components.
pub open spec fn all_distinct(s: Seq<usize>, d: nat, width: nat) -> bool {
    forall|i: int, j: int|
        0 <= i < j < s.len() ==> #[trigger] coord_of(s[i] as int, d, width) != #[trigger] coord_of(
            s[j] as int,
            d,
            width,
        )
}

/// The sorted flat indices are evenly spaced: a single constant step among
/// at least three points, vacuously true for fewer.
pub open spec fn evenly_spaced(s: Seq<usize>) -> bool {
    forall|j: int| 2 <= j < s.len() ==> #[trigger] s[j] - s[j - 1] == s[1] - s[0]
}

/// A winning line of flat indices on a `dim`-dimensional board of side
/// `width`: exactly `width` sorted cells which in every dimension are either
/// all aligned or pairwise distinct, and whose flat indices form one
/// constant-step arithmetic progression (the anti-wraparound rule).
pub open spec fn is_win_line(s: Seq<usize>, dim: nat, width: nat) -> bool {
    &&& s.len() == width
    &&& strictly_increasing(s)
    &&& forall|d: nat|
        1 <= d <= dim ==> #[trigger] all_same(s, d, width) || all_distinct(s, d, width)
    &&& evenly_spaced(s)
}

/// `player` has a winning combination on the given cells.
pub open spec fn spec_win(cells: Seq<Piece>, player: Player, dim: nat, width: nat) -> bool {
    exists|s: Seq<usize>|
        {
            &&& #[trigger] is_win_line(s, dim, width)
            &&& forall|j: int|
                0 <= j < s.len() ==> (#[trigger] s[j]) < cells.len() && cells[s[j] as int].player
                    == Some(player)
        }
}

/// `sel` picks the elements of `items` at the strictly increasing positions
/// `pos`.
pub open spec fn selects(sel: Seq<usize>, items: Seq<usize>, pos: Seq<int>) -> bool {
    &&& pos.len() == sel.len()
    &&& forall|j: int|
        0 <= j < pos.len() ==> 0 <= #[trigger] pos[j] < items.len() && sel[j] == items[pos[j]]
    &&& forall|j: int| 0 < j < pos.len() ==> pos[j - 1] < #[trigger] pos[j]
}

/// `sel` is one of the `k`-element combinations of `items`: the elements at
/// some `k` positions, kept in input order.
pub open spec fn is_combination(sel: Seq<usize>, items: Seq<usize>, k: nat) -> bool {
    &&& sel.len() == k
    &&& exists|pos: Seq<int>| #[trigger] selects(sel, items, pos)
}

/// Relies on itertools' `Itertools::combinations`: it yields every
/// `k`-element combination of its input — one for each choice of `k`
/// positions, with the chosen elements in input order — and nothing else.
#[verifier::external_body]
fn combinations_of(items: &Vec<usize>, k: usize) -> (r: Vec<Vec<usize>>)
    ensures
        forall|t: int| 0 <= t < r@.len() ==> is_combination(#[trigger] r@[t]@, items@, k as nat),
        forall|sel: Seq<usize>|
            #[trigger] is_combination(sel, items@, k as nat) ==> exists|t: int|
                0 <= t < r@.len() && r@[t]@ == sel,
{
    items.iter().cloned().combinations(k).collect()
}

/// A selection out of sorted distinct items is itself sorted, and its
/// elements are elements of the items.
proof fn lemma_selects_props(sel: Seq<usize>, items: Seq<usize>, pos: Seq<int>)
    requires
        selects(sel, items, pos),
        strictly_increasing(items),
    ensures
        strictly_increasing(sel),
        forall|j: int| 0 <= j < sel.len() ==> items.contains(#[trigger] sel[j]),
{
    assert forall|i: int, j: int| 0 <= i < j < sel.len() implies sel[i] < sel[j] by {
        lemma_pos_increasing(pos, i, j);
        assert(items[pos[i]] < items[pos[j]]);
    }
    assert forall|j: int| 0 <= j < sel.len() implies items.contains(#[trigger] sel[j]) by {
        assert(items[pos[j]] == sel[j]);
    }
}

/// Positions that increase step by step increase between any two points.
proof fn lemma_pos_increasing(pos: Seq<int>, i: int, j: int)
    requires
        0 <= i < j < pos.len(),
        forall|t: int| 0 < t < pos.len() ==> pos[t - 1] < #[trigger] pos[t],
    ensures
        pos[i] < pos[j],
    decreases j - i,
{
    if i + 1 < j {
        lemma_pos_increasing(pos, i + 1, j);
    }
}

/// Any sorted sequence of `k` elements of sorted `items` is one of the
/// `k`-element combinations of `items`.
proof fn lemma_sorted_subset_is_combination(s: Seq<usize>, items: Seq<usize>, k: nat)
    requires
        strictly_increasing(items),
        strictly_increasing(s),
        s.len() == k,
        forall|j: int| 0 <= j < s.len() ==> items.contains(#[trigger] s[j]),
    ensures
        is_combination(s, items, k),
{
    let pos = Seq::new(
        s.len() as nat,
        |j: int| choose|p: int| 0 <= p < items.len() && items[p] == s[j],
    );
    assert forall|j: int|
        0 <= j < pos.len() implies 0 <= #[trigger] pos[j] < items.len() && s[j]
        == items[pos[j]] by {
        assert(items.contains(s[j]));
        let p = choose|p: int| 0 <= p < items.len() && items[p] == s[j];
        assert(items[p] == s[j]);
    }
    assert forall|j: int| 0 < j < pos.len() implies pos[j - 1] < #[trigger] pos[j] by {
        assert(s[j - 1] < s[j]);
        assert(items[pos[j - 1]] == s[j - 1]);
        assert(items[pos[j]] == s[j]);
        if pos[j - 1] > pos[j] {
            assert(items[pos[j]] < items[pos[j - 1]]);
        }
    }
    assert(selects(s, items, pos));
}

/// Strictly increasing positions spread at least as fast as their indices.
proof fn lemma_pos_spread(pos: Seq<int>, i: int, j: int)
    requires
        0 <= i <= j < pos.len(),
        forall|t: int| 0 < t < pos.len() ==> pos[t - 1] < #[trigger] pos[t],
    ensures
        pos[j] - pos[i] >= j - i,
    decreases j - i,
{
    if i < j {
        lemma_pos_spread(pos, i, j - 1);
    }
}

/// Two strictly increasing sequences of the same length, one drawing all its
/// elements from the other, are equal.
proof fn lemma_sorted_same_elements(s2: Seq<usize>, s: Seq<usize>)
    requires
        strictly_increasing(s),
        strictly_increasing(s2),
        s2.len() == s.len(),
        forall|j: int| 0 <= j < s2.len() ==> s.contains(#[trigger] s2[j]),
    ensures
        s2 == s,
{
    if s.len() == 0 {
        assert(s2 =~= s);
    } else {
        lemma_sorted_subset_is_combination(s2, s, s.len() as nat);
        let pos = choose|pos: Seq<int>| #[trigger] selects(s2, s, pos);
        let len = s.len() as int;
        assert forall|j: int| 0 <= j < len implies pos[j] == j by {
            lemma_pos_spread(pos, 0, j);
            lemma_pos_spread(pos, j, len - 1);
        }
        assert forall|j: int| 0 <= j < len implies s2[j] == s[j] by {
            assert(s2[j] == s[pos[j]]);
        }
        assert(s2 =~= s);
    }
}

/// The wraparound-rejection law: when the cells a player owns are exactly a
/// full-size combination whose sorted flat indices are not evenly spaced,
/// that player has no win, however line-like each single dimension looks.
pub proof fn lemma_uneven_spacing_no_win(
    cells: Seq<Piece>,
    player: Player,
    s: Seq<usize>,
    dim: nat,
    width: nat,
)
    requires
        s.len() == width,
        strictly_increasing(s),
        forall|j: int|
            0 <= j < s.len() ==> (#[trigger] s[j]) < cells.len() && cells[s[j] as int].player
                == Some(player),
        forall|x: int|
            0 <= x < cells.len() && cells[x].player == Some(player) ==> s.contains(x as usize),
        !evenly_spaced(s),
    ensures
        !spec_win(cells, player, dim, width),
{
    if spec_win(cells, player, dim, width) {
        let s2 = choose|s2: Seq<usize>|
            {
                &&& #[trigger] is_win_line(s2, dim, width)
                &&& forall|j: int|
                    0 <= j < s2.len() ==> (#[trigger] s2[j]) < cells.len() && cells[s2[j] as int].player
                        == Some(player)
            };
        assert forall|j: int| 0 <= j < s2.len() implies s.contains(#[trigger] s2[j]) by {
            assert(cells[s2[j] as int].player == Some(player));
        }
        lemma_sorted_same_elements(s2, s);
        assert(evenly_spaced(s));
    }
}

/// A player who owns fewer than `width` cells has no winning line.
pub proof fn lemma_few_owned_no_win(cells: Seq<Piece>, player: Player, dim: nat, width: nat)
    requires
        count_owned(cells, player) < width,
    ensures
        !spec_win(cells, player, dim, width),
{
    if spec_win(cells, player, dim, width) {
        let s = choose|s: Seq<usize>|
            {
                &&& #[trigger] is_win_line(s, dim, width)
                &&& forall|j: int|
                    0 <= j < s.len() ==> (#[trigger] s[j]) < cells.len() && cells[s[j] as int].player
                        == Some(player)
            };
        lemma_owned_indices_counted(cells, player, s);
    }
}

/// A strictly increasing sequence of indices of cells that a player owns is
/// no longer than the player's cell count.
proof fn lemma_owned_indices_counted(cells: Seq<Piece>, player: Player, s: Seq<usize>)
    requires
        strictly_increasing(s),
        forall|j: int|
            0 <= j < s.len() ==> (#[trigger] s[j]) < cells.len() && cells[s[j] as int].player
                == Some(player),
    ensures
        count_owned(cells, player) >= s.len(),
    decreases cells.len(),
{
    if s.len() == 0 {
    } else {
        let shorter = cells.drop_last();
        let last = cells.len() - 1;
        assert(s[0] < cells.len());
        if s[s.len() - 1] as int == last {
            let s2 = s.drop_last();
            assert forall|j: int|
                0 <= j < s2.len() implies (#[trigger] s2[j]) < shorter.len()
                && shorter[s2[j] as int].player == Some(player) by {
                assert(s2[j] == s[j]);
                assert(s[j] < s[s.len() - 1]);
            }
            lemma_owned_indices_counted(shorter, player, s2);
            assert(cells[last].player == Some(player));
            assert(cells.last() == cells[last]);
        } else {
            assert forall|j: int|
                0 <= j < s.len() implies (#[trigger] s[j]) < shorter.len()
                && shorter[s[j] as int].player == Some(player) by {
                if j < s.len() - 1 {
                    assert(s[j] < s[s.len() - 1]);
                }
                assert(s[j] as int != last);
            }
            lemma_owned_indices_counted(shorter, player, s);
        }
    }
}

/// The integer coordinate of the `t`-th point of a straight line: the start
/// plus `t` steps of the direction vector.
pub open spec fn line_point_int(c0: Seq<int>, v: Seq<int>, t: int) -> Seq<int> {
    Seq::new(c0.len(), |k: int| c0[k] + t * v[k])
}

/// The same point as a coordinate of the board.
pub open spec fn line_point(c0: Seq<int>, v: Seq<int>, t: int) -> Seq<usize> {
    Seq::new(c0.len(), |k: int| (c0[k] + t * v[k]) as usize)
}

/// Every component lies on the board.
pub open spec fn in_range(c: Seq<int>, width: nat) -> bool {
    forall|k: int| 0 <= k < c.len() ==> 0 <= #[trigger] c[k] < width
}

/// The mixed-radix weighted sum of an integer vector in base `width`.
pub open spec fn lin_of(c: Seq<int>, width: nat) -> int
    decreases c.len(),
{
    if c.len() == 0 {
        0
    } else {
        c[0] * pow(width as int, (c.len() - 1) as nat) + lin_of(c.drop_first(), width)
    }
}

/// The flat index of a line point is an affine function of `t`.
proof fn lemma_index_of_line_point(c0: Seq<int>, v: Seq<int>, t: int, width: nat)
    requires
        v.len() == c0.len(),
        width <= usize::MAX,
        in_range(line_point_int(c0, v, t), width),
    ensures
        index_of(line_point(c0, v, t), width) == lin_of(c0, width) + t * lin_of(v, width),
    decreases c0.len(),
{
    let w = width as int;
    if c0.len() == 0 {
        assert(line_point(c0, v, t) =~= Seq::<usize>::empty());
    } else {
        let n = c0.len() as int;
        assert forall|k: int| 0 <= k < n - 1 implies 0 <= #[trigger] line_point_int(
            c0.drop_first(),
            v.drop_first(),
            t,
        )[k] < width by {
            assert(line_point_int(c0, v, t)[k + 1] == c0.drop_first()[k] + t * v.drop_first()[k]);
        }
        lemma_index_of_line_point(c0.drop_first(), v.drop_first(), t, width);
        assert(line_point(c0, v, t).drop_first() =~= line_point(c0.drop_first(), v.drop_first(), t));
        let p = pow(w, (n - 1) as nat);
        assert(line_point_int(c0, v, t)[0] == c0[0] + t * v[0]);
        assert(line_point(c0, v, t)[0] as int == c0[0] + t * v[0]);
        assert((c0[0] + t * v[0]) * p == c0[0] * p + t * (v[0] * p)) by (nonlinear_arith);
        assert(t * (v[0] * p + lin_of(v.drop_first(), width)) == t * (v[0] * p) + t * lin_of(
            v.drop_first(),
            width,
        )) by (nonlinear_arith);
    }
}

/// The win-symmetry law: `width` cells owned by one player along any
/// straight line — a start coordinate plus a constant per-axis step of
/// -1, 0 or +1, never leaving the board — are a winning combination for
/// that player, whichever direction the line runs in.
pub proof fn lemma_line_wins(
    cells: Seq<Piece>,
    player: Player,
    dim: nat,
    width: nat,
    c0: Seq<int>,
    v: Seq<int>,
)
    requires
        dim >= 1,
        width >= 2,
        pow(width as int, dim) <= usize::MAX,
        cells.len() == pow(width as int, dim),
        c0.len() == dim,
        v.len() == dim,
        forall|k: int| 0 <= k < dim ==> -1 <= #[trigger] v[k] <= 1,
        exists|k: int| 0 <= k < dim && #[trigger] v[k] != 0,
        forall|t: int| 0 <= t < width ==> in_range(#[trigger] line_point_int(c0, v, t), width),
        forall|t: int|
            0 <= t < width ==> cells[index_of(#[trigger] line_point(c0, v, t), width)].player
                == Some(player),
    ensures
        spec_win(cells, player, dim, width),
{
    let w = width as int;
    let a = lin_of(c0, width);
    let delta = lin_of(v, width);
    assert(width <= usize::MAX) by {
        vstd::arithmetic::power::lemma_pow1(w);
        vstd::arithmetic::power::lemma_pow_increases(width, 1, dim);
    }
    // Every line point is a valid coordinate, and the cast is faithful.
    assert forall|t: int| 0 <= t < width implies valid_coords(
        #[trigger] line_point(c0, v, t),
        dim,
        width,
    ) by {
        assert forall|k: int| 0 <= k < dim implies (#[trigger] line_point(c0, v, t)[k])
            < width by {
            assert(line_point_int(c0, v, t)[k] == c0[k] + t * v[k]);
        }
    }
    // The flat indices are affine in t.
    assert forall|t: int| 0 <= t < width implies index_of(#[trigger] line_point(c0, v, t), width)
        == a + t * delta by {
        lemma_index_of_line_point(c0, v, t, width);
    }
    // The step between consecutive indices is not zero.
    let k0 = choose|k: int| 0 <= k < dim && #[trigger] v[k] != 0;
    assert(line_point(c0, v, 0)[k0] != line_point(c0, v, 1)[k0]) by {
        assert(line_point_int(c0, v, 0)[k0] == c0[k0]);
        assert(line_point_int(c0, v, 1)[k0] == c0[k0] + v[k0]);
    }
    assert(delta != 0) by {
        if delta == 0 {
            lemma_index_of_injective(line_point(c0, v, 0), line_point(c0, v, 1), dim, width);
        }
    }
    // The indices in increasing order.
    let s = Seq::new(
        width,
        |t: int|
            (a + (if delta > 0 {
                t
            } else {
                width - 1 - t
            }) * delta) as usize,
    );
    let su = |t: int|
        if delta > 0 {
            t
        } else {
            width - 1 - t
        };
    assert forall|t: int| 0 <= t < width implies s[t] as int == a + su(t) * delta && s[t] as int
        == index_of(line_point(c0, v, su(t)), width) by {
        assert(index_of(line_point(c0, v, su(t)), width) == a + su(t) * delta);
        lemma_index_of_bounds(line_point(c0, v, su(t)), width);
    }
    assert forall|i: int, j: int| 0 <= i < j < width implies s[i] < s[j] by {
        if delta > 0 {
            assert(i * delta < j * delta) by (nonlinear_arith)
                requires
                    delta > 0,
                    i < j,
            ;
        } else {
            assert((width - 1 - i) * delta < (width - 1 - j) * delta) by (nonlinear_arith)
                requires
                    delta < 0,
                    width - 1 - i > width - 1 - j,
            ;
        }
    }
    assert(strictly_increasing(s));
    assert forall|j: int| 2 <= j < width implies #[trigger] s[j] - s[j - 1] == s[1] - s[0] by {
        assert(su(j) * delta - su(j - 1) * delta == (su(j) - su(j - 1)) * delta)
            by (nonlinear_arith);
        assert(su(1) * delta - su(0) * delta == (su(1) - su(0)) * delta) by (nonlinear_arith);
        assert(su(j) - su(j - 1) == su(1) - su(0));
    }
    assert(evenly_spaced(s));
    // In each dimension the components are all the same or all distinct.
    assert forall|d: nat| 1 <= d <= dim implies #[trigger] all_same(s, d, width) || all_distinct(
        s,
        d,
        width,
    ) by {
        let kk = dim - d;
        assert forall|t: int| 0 <= t < width implies #[trigger] coord_of(s[t] as int, d, width)
            == c0[kk] + su(t) * v[kk] by {
            lemma_coord_of_index_of(line_point(c0, v, su(t)), width, d);
            assert(line_point(c0, v, su(t))[kk] as int == line_point_int(c0, v, su(t))[kk]);
        }
        if v[kk] == 0 {
            assert forall|i: int, j: int|
                0 <= i < s.len() && 0 <= j < s.len() implies #[trigger] coord_of(
                s[i] as int,
                d,
                width,
            ) == #[trigger] coord_of(s[j] as int, d, width) by {
                assert(su(i) * v[kk] == 0) by (nonlinear_arith)
                    requires
                        v[kk] == 0,
                ;
                assert(su(j) * v[kk] == 0) by (nonlinear_arith)
                    requires
                        v[kk] == 0,
                ;
            }
            assert(all_same(s, d, width));
        } else {
            assert forall|i: int, j: int|
                0 <= i < j < s.len() implies #[trigger] coord_of(s[i] as int, d, width)
                != #[trigger] coord_of(s[j] as int, d, width) by {
                assert(su(i) != su(j));
                assert(su(i) * v[kk] != su(j) * v[kk]) by (nonlinear_arith)
                    requires
                        su(i) != su(j),
                        v[kk] != 0,
                ;
            }
            assert(all_distinct(s, d, width));
        }
    }
    // Every cell of the line belongs to the player.
    assert forall|j: int| 0 <= j < s.len() implies (#[trigger] s[j]) < cells.len()
        && cells[s[j] as int].player == Some(player) by {
        lemma_index_of_bounds(line_point(c0, v, su(j)), width);
        assert(cells[index_of(line_point(c0, v, su(j)), width)].player == Some(player));
    }
    assert(is_win_line(s, dim, width));
    assert(spec_win(cells, player, dim, width));
}

impl Game {
    /// Whether one combination of sorted flat indices passes the win tests:
    /// even spacing and, in every dimension, all-same-or-all-distinct.
    #[verifier::rlimit(30)]
    fn line_ok(&self, line: &Vec<usize>) -> (r: bool)
        requires
            self.wf(),
            line@.len() == self.width,
            strictly_increasing(line@),
        ensures
            r == is_win_line(line@, self.dim as nat, self.width as nat),
    {
        let ghost w = self.width as nat;
        let n = line.len();
        // The anti-wraparound rule: the sorted indices must keep one step.
        if n >= 3 {
            let step = line[1] - line[0];
            let mut j: usize = 2;
            while j < n
                invariant
                    2 <= j <= n,
                    n == line@.len(),
                    strictly_increasing(line@),
                    step == line@[1] - line@[0],
                    forall|t: int| 2 <= t < j ==> #[trigger] line@[t] - line@[t - 1] == step,
                decreases n - j,
            {
                if line[j] - line[j - 1] != step {
                    assert(!evenly_spaced(line@));
                    return false;
                }
                j += 1;
            }
        }
        assert(evenly_spaced(line@));
        // The per-dimension rule.
        let mut d: usize = 1;
        while d <= self.dim
            invariant
                self.wf(),
                1 <= d <= self.dim + 1,
                n == line@.len(),
                n == self.width,
                strictly_increasing(line@),
                evenly_spaced(line@),
                w == self.width as nat,
                forall|dd: nat|
                    1 <= dd < d ==> #[trigger] all_same(line@, dd, w) || all_distinct(
                        line@,
                        dd,
                        w,
                    ),
            decreases self.dim + 1 - d,
        {
            let mut vals: Vec<usize> = Vec::new();
            let mut t: usize = 0;
            while t < n
                invariant
                    self.wf(),
                    t <= n,
                    n == line@.len(),
                    1 <= d <= self.dim,
                    w == self.width as nat,
                    vals@.len() == t,
                    forall|u: int|
                        0 <= u < t ==> #[trigger] vals@[u] == coord_of(line@[u] as int, d as nat, w),
                decreases n - t,
            {
                vals.push(self.get_coord(line[t], d));
                t += 1;
            }
            let mut same = true;
            let mut u: usize = 1;
            while u < n
                invariant
                    1 <= u <= n,
                    n == line@.len(),
                    n >= 1,
                    vals@.len() == n,
                    w == self.width as nat,
                    1 <= d,
                    forall|v: int|
                        0 <= v < n ==> #[trigger] vals@[v] == coord_of(line@[v] as int, d as nat, w),
                    same == (forall|v: int| 0 < v < u ==> #[trigger] vals@[v] == vals@[0]),
                decreases n - u,
            {
                if vals[u] != vals[0] {
                    same = false;
                }
                u += 1;
            }
            if same {
                proof {
                    assert forall|i: int, j: int|
                        0 <= i < line@.len() && 0 <= j < line@.len() implies #[trigger] coord_of(
                        line@[i] as int,
                        d as nat,
                        w,
                    ) == #[trigger] coord_of(line@[j] as int, d as nat, w) by {
                        assert(vals@[i] == vals@[0]);
                        assert(vals@[j] == vals@[0]);
                    }
                    assert(all_same(line@, d as nat, w));
                }
            } else {
                // Not all aligned in this dimension, so the components must
                // be pairwise distinct.
                let ghost bad = choose|v: int| 0 < v < n && #[trigger] vals@[v] != vals@[0];
                let mut t1: usize = 0;
                while t1 < n
                    invariant
                        self.wf(),
                        t1 <= n,
                        n == line@.len(),
                        n == self.width,
                        vals@.len() == n,
                        w == self.width as nat,
                        1 <= d <= self.dim,
                        0 < bad < n,
                        vals@[bad] != vals@[0],
                        forall|v: int|
                            0 <= v < n ==> #[trigger] vals@[v] == coord_of(
                                line@[v] as int,
                                d as nat,
                                w,
                            ),
                        forall|i: int, j: int| 0 <= i < t1 && i < j < n ==> vals@[i] != vals@[j],
                    decreases n - t1,
                {
                    let mut t2: usize = t1 + 1;
                    while t2 < n
                        invariant
                            self.wf(),
                            t1 < t2,
                            t2 <= n,
                            t1 < n,
                            n == line@.len(),
                            n == self.width,
                            vals@.len() == n,
                            w == self.width as nat,
                            1 <= d <= self.dim,
                            0 < bad < n,
                            vals@[bad] != vals@[0],
                            forall|v: int|
                                0 <= v < n ==> #[trigger] vals@[v] == coord_of(
                                    line@[v] as int,
                                    d as nat,
                                    w,
                                ),
                            forall|i: int, j: int|
                                0 <= i < t1 && i < j < n ==> vals@[i] != vals@[j],
                            forall|j: int| t1 < j < t2 ==> vals@[t1 as int] != #[trigger] vals@[j],
                        decreases n - t2,
                    {
                        if vals[t1] == vals[t2] {
                            proof {
                                assert(coord_of(line@[t1 as int] as int, d as nat, w) == coord_of(
                                    line@[t2 as int] as int,
                                    d as nat,
                                    w,
                                ));
                                assert(!all_distinct(line@, d as nat, w));
                                assert(coord_of(line@[bad] as int, d as nat, w) != coord_of(
                                    line@[0] as int,
                                    d as nat,
                                    w,
                                ));
                                assert(!all_same(line@, d as nat, w));
                            }
                            return false;
                        }
                        t2 += 1;
                    }
                    t1 += 1;
                }
                proof {
                    assert forall|i: int, j: int|
                        0 <= i < j < line@.len() implies #[trigger] coord_of(
                        line@[i] as int,
                        d as nat,
                        w,
                    ) != #[trigger] coord_of(line@[j] as int, d as nat, w) by {
                        assert(vals@[i] != vals@[j]);
                    }
                    assert(all_distinct(line@, d as nat, w));
                }
            }
            d += 1;
        }
        proof {
            assert forall|dd: nat|
                1 <= dd <= self.dim as nat implies #[trigger] all_same(line@, dd, w)
                || all_distinct(line@, dd, w) by {}
        }
        true
    }

    /// Whether `player` owns a winning line: some combination of exactly
    /// `width` of the player's cells passes the per-dimension and even-
    /// spacing tests.  The search enumerates every such combination.
    pub fn check_win(&self, player: Player) -> (r: bool)
        requires
            self.wf(),
        ensures
            r == spec_win(self.spec_cells(), player, self.dim as nat, self.width as nat),
    {
        let ghost flat = self.spec_cells();
        let ghost n = self.dim as nat;
        let ghost w = self.width as nat;
        let cells = self.board.flatten();
        let mut mine: Vec<usize> = Vec::new();
        let mut i: usize = 0;
        while i < cells.len()
            invariant
                i <= cells@.len(),
                cells@.len() == flat.len(),
                forall|k: int| 0 <= k < flat.len() ==> *(#[trigger] cells@[k]) == flat[k],
                strictly_increasing(mine@),
                forall|t: int| 0 <= t < mine@.len() ==> (#[trigger] mine@[t]) < i,
                forall|t: int|
                    0 <= t < mine@.len() ==> flat[(#[trigger] mine@[t]) as int].player == Some(
                        player,
                    ),
                forall|x: int|
                    0 <= x < i && flat[x].player == Some(player) ==> mine@.contains(x as usize),
            decreases cells@.len() - i,
        {
            let owned = match cells[i].player {
                Some(p) => p == player,
                None => false,
            };
            if owned {
                let ghost old_mine = mine@;
                mine.push(i);
                proof {
                    assert forall|x: int|
                        0 <= x < i + 1 && flat[x].player == Some(player) implies mine@.contains(
                        x as usize,
                    ) by {
                        if x < i {
                            let t = choose|t: int| 0 <= t < old_mine.len() && old_mine[t] == x;
                            assert(mine@[t] == x as usize);
                        } else {
                            assert(mine@[mine@.len() - 1] == i);
                        }
                    }
                }
            }
            i += 1;
        }
        let combos = combinations_of(&mine, self.width);
        let mut t: usize = 0;
        while t < combos.len()
            invariant
                self.wf(),
                t <= combos@.len(),
                flat == self.spec_cells(),
                n == self.dim as nat,
                w == self.width as nat,
                strictly_increasing(mine@),
                forall|u: int|
                    0 <= u < mine@.len() ==> flat[(#[trigger] mine@[u]) as int].player == Some(
                        player,
                    ),
                forall|u: int| 0 <= u < mine@.len() ==> (#[trigger] mine@[u]) < flat.len(),
                forall|x: int|
                    0 <= x < flat.len() && flat[x].player == Some(player) ==> mine@.contains(
                        x as usize,
                    ),
                forall|u: int|
                    0 <= u < combos@.len() ==> is_combination(#[trigger] combos@[u]@, mine@, w),
                forall|sel: Seq<usize>|
                    #[trigger] is_combination(sel, mine@, w) ==> exists|u: int|
                        0 <= u < combos@.len() && combos@[u]@ == sel,
                forall|u: int| 0 <= u < t ==> !is_win_line(#[trigger] combos@[u]@, n, w),
            decreases combos@.len() - t,
        {
            let combo = &combos[t];
            proof {
                let pos = choose|pos: Seq<int>| selects(combo@, mine@, pos);
                lemma_selects_props(combo@, mine@, pos);
            }
            if self.line_ok(combo) {
                proof {
                    let pos = choose|pos: Seq<int>| selects(combo@, mine@, pos);
                    assert forall|j: int|
                        0 <= j < combo@.len() implies (#[trigger] combo@[j]) < flat.len()
                        && flat[combo@[j] as int].player == Some(player) by {
                        assert(combo@[j] == mine@[pos[j]]);
                    }
                    assert(spec_win(flat, player, n, w));
                }
                return true;
            }
            t += 1;
        }
        proof {
            if spec_win(flat, player, n, w) {
                let s = choose|s: Seq<usize>|
                    {
                        &&& is_win_line(s, n, w)
                        &&& forall|j: int|
                            0 <= j < s.len() ==> (#[trigger] s[j]) < flat.len() && flat[s[j] as int].player
                                == Some(player)
                    };
                assert forall|j: int| 0 <= j < s.len() implies mine@.contains(#[trigger] s[j]) by {
                    assert(flat[s[j] as int].player == Some(player));
                }
                lemma_sorted_subset_is_combination(s, mine@, w);
                let u = choose|u: int| 0 <= u < combos@.len() && combos@[u]@ == s;
                assert(!is_win_line(combos@[u]@, n, w));
                assert(false);
            }
        }
        false
    }
}

} // verus!

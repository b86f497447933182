use vstd::prelude::*;

use crate::board::{Board, Idx};

use std::collections::VecDeque;

use vstd::arithmetic::div_mod::{
    lemma_div_multiples_vanish, lemma_div_multiples_vanish_fancy, lemma_hoist_over_denominator,
    lemma_mod_multiples_vanish, lemma_small_mod,
};
use vstd::arithmetic::power::{lemma_pow1, lemma_pow_adds, lemma_pow_positive, pow};

verus! {

/// Whether a coordinate addresses a cell of an `n`-dimensional board of side
/// `width`: one component per dimension, each in `[0, width)`.
pub open spec fn valid_coords(coords: Seq<usize>, n: nat, width: nat) -> bool {
    &&& coords.len() == n
    &&& forall|j: int| 0 <= j < n ==> (#[trigger] coords[j]) < width
}

/// The flat index of a coordinate on a board of side `width`: the
/// mixed-radix value of the components in base `width`, outermost component
/// most significant.  This matches the depth-first flattening order.
pub open spec fn index_of(coords: Seq<usize>, width: nat) -> int
    decreases coords.len(),
{
    if coords.len() == 0 {
        0
    } else {
        coords[0] * pow(width as int, (coords.len() - 1) as nat) + index_of(
            coords.drop_first(),
            width,
        )
    }
}

/// Appending one more component multiplies the flat index by the base and
/// adds the component.
pub proof fn lemma_index_of_extend(coords: Seq<usize>, x: usize, width: nat)
    ensures
        index_of(coords.push(x), width) == index_of(coords, width) * width + x,
    decreases coords.len(),
{
    let w = width as int;
    if coords.len() == 0 {
        assert(coords.push(x).drop_first() =~= Seq::<usize>::empty());
        vstd::arithmetic::power::lemma_pow0(w);
        assert(index_of(coords.push(x).drop_first(), width) == 0);
        assert(index_of(coords.push(x), width) == x * 1 + 0);
    } else {
        lemma_index_of_extend(coords.drop_first(), x, width);
        assert(coords.push(x).drop_first() =~= coords.drop_first().push(x));
        assert(coords.push(x)[0] == coords[0]);
        let n = coords.len() as int;
        lemma_pow_adds(w, (n - 1) as nat, 1);
        lemma_pow1(w);
        let c0 = coords[0] as int;
        assert(c0 * pow(w, n as nat) == (c0 * pow(w, (n - 1) as nat)) * w) by (nonlinear_arith)
            requires
                pow(w, n as nat) == pow(w, (n - 1) as nat) * w,
        ;
        assert((c0 * pow(w, (n - 1) as nat) + index_of(coords.drop_first(), width)) * w == (c0
            * pow(w, (n - 1) as nat)) * w + index_of(coords.drop_first(), width) * w)
            by (nonlinear_arith);
        assert(index_of(coords.push(x), width) == c0 * pow(w, n as nat) + index_of(
            coords.drop_first().push(x),
            width,
        ));
    }
}

/// The coordinate component for dimension `d` (1-indexed from the innermost
/// dimension) encoded in a flat index: the positional decomposition
/// `((i mod w^d) - (i mod w^(d-1))) / w^(d-1)`.
pub open spec fn coord_of(index: int, d: nat, width: nat) -> int {
    ((index % pow(width as int, d)) - (index % pow(width as int, (d - 1) as nat))) / pow(
        width as int,
        (d - 1) as nat,
    )
}

/// The positional decomposition is the digit at position `d - 1` of the
/// base-`width` numeral.
pub proof fn lemma_coord_of_is_digit(index: int, d: nat, width: nat)
    requires
        index >= 0,
        width >= 1,
        d >= 1,
    ensures
        coord_of(index, d, width) == (index / pow(width as int, (d - 1) as nat)) % (width as int),
{
    let w = width as int;
    let y = pow(w, (d - 1) as nat);
    lemma_pow_positive(w, (d - 1) as nat);
    lemma_pow_adds(w, (d - 1) as nat, 1);
    lemma_pow1(w);
    assert(pow(w, d) == y * w);
    vstd::arithmetic::div_mod::lemma_breakdown(index, y, w);
    assert(index % (y * w) == y * ((index / y) % w) + index % y);
    assert((index % pow(w, d)) - (index % y) == y * ((index / y) % w));
    assert((y * ((index / y) % w)) / y == (index / y) % w) by {
        lemma_div_multiples_vanish((index / y) % w, y);
    }
}

/// A valid coordinate's flat index lies within the board's cell count.
pub proof fn lemma_index_of_bounds(coords: Seq<usize>, width: nat)
    requires
        width >= 1,
        forall|j: int| 0 <= j < coords.len() ==> (#[trigger] coords[j]) < width,
    ensures
        0 <= index_of(coords, width) < pow(width as int, coords.len()),
    decreases coords.len(),
{
    let w = width as int;
    if coords.len() == 0 {
        lemma_pow_positive(w, 0);
        assert(pow(w, 0) == 1) by {
            vstd::arithmetic::power::lemma_pow0(w);
        }
    } else {
        let n = coords.len() as int;
        let rest = coords.drop_first();
        lemma_index_of_bounds(rest, width);
        let p = pow(w, (n - 1) as nat);
        lemma_pow_positive(w, (n - 1) as nat);
        lemma_pow_adds(w, (n - 1) as nat, 1);
        lemma_pow1(w);
        assert(pow(w, n as nat) == p * w);
        let c0 = coords[0] as int;
        assert(c0 * p + index_of(rest, width) < p * w) by {
            assert(c0 <= w - 1);
            assert(c0 * p <= (w - 1) * p) by (nonlinear_arith)
                requires
                    c0 <= w - 1,
                    p > 0,
            ;
            assert((w - 1) * p + p == p * w) by (nonlinear_arith);
        }
        assert(c0 * p >= 0) by (nonlinear_arith)
            requires
                c0 >= 0,
                p > 0,
        ;
    }
}

/// The flat index and the positional decomposition are mutually consistent:
/// decomposing a valid coordinate's flat index at dimension `d` recovers the
/// component `coords[coords.len() - d]` (dimension 1 is the innermost level,
/// which is the last coordinate component).
pub proof fn lemma_coord_of_index_of(coords: Seq<usize>, width: nat, d: nat)
    requires
        width >= 1,
        1 <= d <= coords.len(),
        forall|j: int| 0 <= j < coords.len() ==> (#[trigger] coords[j]) < width,
    ensures
        coord_of(index_of(coords, width), d, width) == coords[coords.len() - d],
    decreases coords.len(),
{
    let w = width as int;
    let n = coords.len() as int;
    let rest = coords.drop_first();
    let r = index_of(rest, width);
    let c0 = coords[0] as int;
    let pn1 = pow(w, (n - 1) as nat);
    let pd1 = pow(w, (d - 1) as nat);
    let index = index_of(coords, width);
    lemma_index_of_bounds(coords, width);
    lemma_index_of_bounds(rest, width);
    lemma_pow_positive(w, (n - 1) as nat);
    lemma_pow_positive(w, (d - 1) as nat);
    lemma_coord_of_is_digit(index, d, width);
    assert(index == c0 * pn1 + r);
    if d == n {
        assert((pn1 * c0 + r) / pn1 == c0) by {
            lemma_div_multiples_vanish_fancy(c0, r, pn1);
        }
        assert(pn1 * c0 == c0 * pn1) by (nonlinear_arith);
        assert(index / pd1 == c0);
        assert(c0 % w == c0) by {
            lemma_small_mod(coords[0] as nat, width);
        }
    } else {
        let q = pow(w, (n - d) as nat);
        let q1 = pow(w, (n - d - 1) as nat);
        lemma_pow_positive(w, (n - d) as nat);
        lemma_pow_positive(w, (n - d - 1) as nat);
        lemma_pow_adds(w, (d - 1) as nat, (n - d) as nat);
        assert(pn1 == pd1 * q);
        lemma_pow_adds(w, 1, (n - d - 1) as nat);
        lemma_pow1(w);
        assert(q == w * q1);
        assert(r / pd1 + c0 * q == (r + (c0 * q) * pd1) / pd1) by {
            lemma_hoist_over_denominator(r, c0 * q, pd1 as nat);
        }
        assert((c0 * q) * pd1 == c0 * pn1) by (nonlinear_arith)
            requires
                pn1 == pd1 * q,
        ;
        assert(index / pd1 == c0 * q + r / pd1);
        assert(c0 * q == w * (c0 * q1)) by (nonlinear_arith)
            requires
                q == w * q1,
        ;
        assert((w * (c0 * q1) + r / pd1) % w == (r / pd1) % w) by {
            lemma_mod_multiples_vanish(c0 * q1, r / pd1, w);
        }
        lemma_coord_of_is_digit(r, d, width);
        lemma_coord_of_index_of(rest, width, d);
        assert(rest[rest.len() - d] == coords[n - d]);
    }
}

/// Distinct valid coordinates have distinct flat indices.
pub proof fn lemma_index_of_injective(a: Seq<usize>, b: Seq<usize>, n: nat, width: nat)
    requires
        width >= 1,
        n >= 1,
        valid_coords(a, n, width),
        valid_coords(b, n, width),
        a != b,
    ensures
        index_of(a, width) != index_of(b, width),
{
    assert(exists|j: int| 0 <= j < n && a[j] != b[j]) by {
        if forall|j: int| 0 <= j < n ==> #[trigger] a[j] == b[j] {
            assert(a =~= b);
        }
    }
    let j = choose|j: int| 0 <= j < n && a[j] != b[j];
    let d = (n - j) as nat;
    if index_of(a, width) == index_of(b, width) {
        lemma_coord_of_index_of(a, width, d);
        lemma_coord_of_index_of(b, width, d);
    }
}

/// The shape vector of an `n`-dimensional board of uniform side `width`.
pub open spec fn uniform_dims(n: nat, width: usize) -> Seq<usize> {
    Seq::new(n, |i: int| width)
}

/// A nonnegative base raised to any power is nonnegative.
proof fn lemma_pow_nonneg(b: int, e: nat)
    requires
        b >= 0,
    ensures
        pow(b, e) >= 0,
    decreases e,
{
    if e == 0 {
        vstd::arithmetic::power::lemma_pow0(b);
    } else {
        lemma_pow_nonneg(b, (e - 1) as nat);
        lemma_pow_adds(b, (e - 1) as nat, 1);
        lemma_pow1(b);
        assert(pow(b, (e - 1) as nat) * b >= 0) by (nonlinear_arith)
            requires
                pow(b, (e - 1) as nat) >= 0,
                b >= 0,
        ;
    }
}

/// The concatenated flattening of boards of equal cell count `p` has
/// `boards.len() * p` cells.
proof fn lemma_flat_all_len_uniform<T>(boards: Seq<Board<T>>, p: nat)
    requires
        forall|i: int| 0 <= i < boards.len() ==> (#[trigger] boards[i]).spec_flat().len() == p,
    ensures
        Board::spec_flat_all(boards).len() == boards.len() * p,
    decreases boards.len(),
{
    if boards.len() == 0 {
    } else {
        lemma_flat_all_len_uniform(boards.drop_first(), p);
        assert(boards.len() * p == p + (boards.len() - 1) * p) by (nonlinear_arith);
    }
}

/// A board of uniform shape has exactly `width^n` cells.
pub proof fn lemma_flat_len_uniform<T>(b: Board<T>, n: nat, width: usize)
    requires
        b.has_dims(uniform_dims(n, width)),
    ensures
        b.spec_flat().len() == pow(width as int, n),
    decreases n,
{
    let w = width as int;
    if n == 0 {
        vstd::arithmetic::power::lemma_pow0(w);
    } else {
        let boards = b->Nd_0@;
        assert(uniform_dims(n, width).drop_first() =~= uniform_dims((n - 1) as nat, width));
        lemma_pow_nonneg(w, (n - 1) as nat);
        assert forall|i: int| 0 <= i < boards.len() implies (#[trigger] boards[i]).spec_flat().len()
            == pow(w, (n - 1) as nat) as nat by {
            lemma_flat_len_uniform(boards[i], (n - 1) as nat, width);
        }
        lemma_flat_all_len_uniform(boards, pow(w, (n - 1) as nat) as nat);
        lemma_pow_adds(w, 1, (n - 1) as nat);
        lemma_pow1(w);
    }
}

/// On a board of uniform shape, a coordinate addresses a leaf exactly when
/// it is valid: full length, every component in range.
pub proof fn lemma_uniform_leaf<T>(b: Board<T>, coords: Seq<usize>, n: nat, width: usize)
    requires
        b.has_dims(uniform_dims(n, width)),
    ensures
        b.spec_leaf(coords) is Some <==> valid_coords(coords, n, width as nat),
    decreases n,
{
    if coords.len() == 0 {
    } else {
        if n == 0 {
        } else {
            let boards = b->Nd_0@;
            let c0 = coords[0];
            if (c0 as int) < boards.len() {
                assert(uniform_dims(n, width).drop_first() =~= uniform_dims(
                    (n - 1) as nat,
                    width,
                ));
                lemma_uniform_leaf(boards[c0 as int], coords.drop_first(), (n - 1) as nat, width);
                assert(b.spec_leaf(coords) == boards[c0 as int].spec_leaf(coords.drop_first()));
                if valid_coords(coords.drop_first(), (n - 1) as nat, width as nat) {
                    assert forall|j: int| 0 <= j < n implies (#[trigger] coords[j])
                        < width by {
                        if j > 0 {
                            assert(coords[j] == coords.drop_first()[j - 1]);
                        }
                    }
                    assert(valid_coords(coords, n, width as nat));
                } else {
                    if valid_coords(coords, n, width as nat) {
                        assert forall|j: int|
                            0 <= j < n - 1 implies (#[trigger] coords.drop_first()[j])
                            < width by {
                            assert(coords.drop_first()[j] == coords[j + 1]);
                        }
                    }
                }
            } else {
                assert(b.spec_leaf(coords) is None);
            }
        }
    }
}

/// On a board of uniform shape, the structural flat position of a valid
/// coordinate's leaf equals the mixed-radix flat index.
pub proof fn lemma_flat_pos_is_index_of<T>(b: Board<T>, coords: Seq<usize>, n: nat, width: usize)
    requires
        b.has_dims(uniform_dims(n, width)),
        valid_coords(coords, n, width as nat),
    ensures
        b.spec_flat_pos(coords) == index_of(coords, width as nat),
    decreases n,
{
    let w = width as int;
    if n == 0 {
    } else {
        let boards = b->Nd_0@;
        let c0 = coords[0];
        let rest = coords.drop_first();
        assert(uniform_dims(n, width).drop_first() =~= uniform_dims((n - 1) as nat, width));
        assert forall|j: int| 0 <= j < n - 1 implies (#[trigger] rest[j]) < width by {
            assert(rest[j] == coords[j + 1]);
        }
        lemma_flat_pos_is_index_of(boards[c0 as int], rest, (n - 1) as nat, width);
        assert forall|i: int|
            0 <= i < boards.take(c0 as int).len() implies (#[trigger] boards.take(
            c0 as int,
        )[i]).spec_flat().len() == pow(w, (n - 1) as nat) as nat by {
            assert(boards.take(c0 as int)[i] == boards[i]);
            lemma_flat_len_uniform(boards[i], (n - 1) as nat, width);
        }
        lemma_pow_positive(w, (n - 1) as nat);
        lemma_flat_all_len_uniform(boards.take(c0 as int), pow(w, (n - 1) as nat) as nat);
        assert(b.spec_flat_pos(coords) == c0 * pow(w, (n - 1) as nat) + boards[c0 as int].spec_flat_pos(
            rest,
        ));
    }
}

/// A coordinate list with each adjacent pair swapped, counted from the end:
/// the first component stays put when the count is odd, and every following
/// pair trades places.
pub open spec fn swapped_pairs(input: Seq<usize>) -> Seq<usize> {
    let m = input.len() % 2;
    Seq::new(
        input.len(),
        |j: int|
            if j < m {
                input[j]
            } else if (j - m) % 2 == 0 {
                input[j + 1]
            } else {
                input[j - 1]
            },
    )
}

/// Reorders console input for odd dimension counts: within each pair of
/// components after the unpaired first one, the two components swap.
pub fn map_player_input(input: Idx) -> (r: Idx)
    ensures
        r@ == swapped_pairs(input@),
{
    let n = input.len();
    let m = n % 2;
    let mut out: Idx = VecDeque::new();
    let mut j: usize = 0;
    while j < n
        invariant
            j <= n,
            n == input@.len(),
            m == n % 2,
            out@.len() == j,
            forall|t: int| 0 <= t < j ==> out@[t] == swapped_pairs(input@)[t],
        decreases n - j,
    {
        let idx = if j < m {
            j
        } else if (j - m) % 2 == 0 {
            proof {
                assert((n - m) % 2 == 0);
                assert(j + 1 < n);
            }
            j + 1
        } else {
            j - 1
        };
        out.push_back(input[idx]);
        j += 1;
    }
    proof {
        assert(out@ =~= swapped_pairs(input@));
    }
    out
}

/// Raises `base` to the power `exp` by repeated multiplication.
pub fn pow_usize(base: usize, exp: usize) -> (r: usize)
    requires
        pow(base as int, exp as nat) <= usize::MAX,
    ensures
        r == pow(base as int, exp as nat),
{
    proof {
        vstd::arithmetic::power::lemma_pow0(base as int);
    }
    let mut r: usize = 1;
    let mut i: usize = 0;
    while i < exp
        invariant
            i <= exp,
            r == pow(base as int, i as nat),
            pow(base as int, exp as nat) <= usize::MAX,
        decreases exp - i,
    {
        proof {
            lemma_pow_adds(base as int, i as nat, ((exp - i) as nat));
            lemma_pow_adds(base as int, (i + 1) as nat, ((exp - i - 1) as nat));
            lemma_pow_adds(base as int, i as nat, 1);
            lemma_pow1(base as int);
            if base >= 1 {
                lemma_pow_positive(base as int, ((exp - i - 1) as nat));
                assert(r * base <= pow(base as int, (i + 1) as nat) * pow(
                    base as int,
                    ((exp - i - 1) as nat),
                )) by (nonlinear_arith)
                    requires
                        r * base == pow(base as int, (i + 1) as nat),
                        pow(base as int, ((exp - i - 1) as nat)) >= 1,
                        r >= 0,
                        base >= 0,
                ;
            } else {
                assert(base == 0);
                vstd::arithmetic::power::lemma0_pow((i + 1) as nat);
            }
        }
        r = r * base;
        i += 1;
    }
    r
}

} // verus!

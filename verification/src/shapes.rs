use vstd::prelude::*;
use crate::bitmask::BitMask;
use crate::card::Suit;
use crate::farm::{from_farm_coords, to_farm_coords, plot_row, plot_col, NUM_FARM_PLOTS, FARM_WIDTH, FARM_HEIGHT};

verus! {

/// Plot `i` lies in the 2x2 square whose top-left plot is at row `r`, column `c`.
pub open spec fn in_square(r: int, c: int, i: int) -> bool {
    0 <= i < NUM_FARM_PLOTS && r <= plot_row(i) <= r + 1 && c <= plot_col(i) <= c + 1
}

/// `mask` selects exactly the 2x2 square with top-left corner at row `r`, column `c`.
pub open spec fn is_square_at(mask: BitMask, r: int, c: int) -> bool {
    &&& 0 <= r < FARM_HEIGHT - 1
    &&& 0 <= c < FARM_WIDTH - 1
    &&& forall|i: u16| #[trigger] mask.has(i) <==> in_square(r, c, i as int)
}

/// Plot `i` lies in column `c`, between rows `r0` and `r1` inclusive.
pub open spec fn in_column(c: int, r0: int, r1: int, i: int) -> bool {
    0 <= i < NUM_FARM_PLOTS && plot_col(i) == c && r0 <= plot_row(i) <= r1
}

/// `mask` selects exactly the vertical run of plots of column `c` from row `r0` to row `r1`,
/// two or three plots long.
pub open spec fn is_column_at(mask: BitMask, c: int, r0: int, r1: int) -> bool {
    &&& 0 <= c < FARM_WIDTH
    &&& 0 <= r0 < r1 < FARM_HEIGHT
    &&& forall|i: u16| #[trigger] mask.has(i) <==> in_column(c, r0, r1, i as int)
}

/// Plots `a` and `b` share an edge.
pub open spec fn edge_adjacent(a: int, b: int) -> bool {
    let dr = plot_row(a) - plot_row(b);
    let dc = plot_col(a) - plot_col(b);
    (if dr < 0 { -dr } else { dr }) + (if dc < 0 { -dc } else { dc }) == 1
}

/// `mask` selects exactly the two plots `a < b`, which do not share an edge.
pub open spec fn is_pair_at(mask: BitMask, a: int, b: int) -> bool {
    &&& 0 <= a < b < NUM_FARM_PLOTS
    &&& !edge_adjacent(a, b)
    &&& forall|i: u16| #[trigger] mask.has(i) <==> (i == a || i == b)
}

/// `mask` selects exactly the 2x2 square at row `r`, column `c` without its plot `k`:
/// an L of three plots.
pub open spec fn is_l_at(mask: BitMask, r: int, c: int, k: int) -> bool {
    &&& 0 <= r < FARM_HEIGHT - 1
    &&& 0 <= c < FARM_WIDTH - 1
    &&& in_square(r, c, k)
    &&& forall|i: u16| #[trigger] mask.has(i) <==> (in_square(r, c, i as int) && i != k)
}

/// Melons: 4 plots forming a 2x2 square.
pub open spec fn is_melon_group(mask: BitMask) -> bool {
    exists|r: int, c: int| is_square_at(mask, r, c)
}

/// Corn: 2 or 3 contiguous plots of one column.
pub open spec fn is_corn_group(mask: BitMask) -> bool {
    exists|c: int, r0: int, r1: int| is_column_at(mask, c, r0, r1)
}

/// Blueberries: 2 plots that do not share an edge (diagonal neighbours are allowed).
pub open spec fn is_blueberry_group(mask: BitMask) -> bool {
    exists|a: int, b: int| is_pair_at(mask, a, b)
}

/// Eggplants: 3 plots forming an L, in any rotation.
pub open spec fn is_eggplant_group(mask: BitMask) -> bool {
    exists|r: int, c: int, k: int| is_l_at(mask, r, c, k)
}

/// Whether `mask` has the shape that a harvested group of `suit` must have.
pub open spec fn crop_group_shape(suit: Suit, mask: BitMask) -> bool {
    match suit {
        Suit::Melon => is_melon_group(mask),
        Suit::Corn => is_corn_group(mask),
        Suit::Blueberry => is_blueberry_group(mask),
        Suit::Eggplant => is_eggplant_group(mask),
    }
}

proof fn lemma_empty_mask()
    ensures
        forall|i: u16| !#[trigger] BitMask(0).has(i),
{
    assert forall|i: u16| !#[trigger] BitMask(0).has(i) by {
        let z: u16 = 0;
        assert(z == 0 ==> (z >> i) & 1u16 == 0u16) by (bit_vector);
    }
}

/// Two masks that hold the same indices are equal.
proof fn lemma_mask_ext(a: BitMask, b: BitMask)
    requires
        forall|i: u16| #[trigger] a.has(i) == b.has(i),
    ensures
        a == b,
{
    let x = a.0;
    let y = b.0;
    let d: u16 = x ^ y;
    if d != 0 {
        vstd::std_specs::bits::axiom_u16_trailing_zeros(d);
        let t = vstd::std_specs::bits::u16_trailing_zeros(d) as u16;
        assert(d == x ^ y && t < 16 && (d >> t) & 1u16 == 1u16 ==> ((x >> t) & 1u16 == 1u16) != ((y
            >> t) & 1u16 == 1u16)) by (bit_vector);
        assert(a.has(t) == b.has(t));
    }
    assert(d == x ^ y && d == 0 ==> x == y) by (bit_vector);
}

proof fn lemma_plot_coords(i: int)
    requires
        0 <= i < NUM_FARM_PLOTS,
    ensures
        0 <= plot_row(i) < FARM_HEIGHT,
        0 <= plot_col(i) < FARM_WIDTH,
        i == plot_row(i) * 3 + plot_col(i),
{
}

/// The 2x2 square at row `r`, column `c`.
fn square_group(r: usize, c: usize) -> (m: BitMask)
    requires
        r < FARM_HEIGHT - 1,
        c < FARM_WIDTH - 1,
    ensures
        forall|i: u16| #[trigger] m.has(i) <==> in_square(r as int, c as int, i as int),
{
    let p0 = from_farm_coords(r, c);
    let p1 = from_farm_coords(r, c + 1);
    let p2 = from_farm_coords(r + 1, c);
    let p3 = from_farm_coords(r + 1, c + 1);
    let m = BitMask(0).flip(p0).flip(p1).flip(p2).flip(p3);
    proof {
        lemma_empty_mask();
        assert forall|i: u16| #[trigger] m.has(i) <==> in_square(r as int, c as int, i as int) by {
            if i < 9 {
                lemma_plot_coords(i as int);
            }
        }
    }
    m
}

/// The plots of column `c` from row `r0` to row `r1`.
fn column_group(c: usize, r0: usize, r1: usize) -> (m: BitMask)
    requires
        c < FARM_WIDTH,
        r0 <= r1 < FARM_HEIGHT,
    ensures
        forall|i: u16| #[trigger] m.has(i) <==> in_column(c as int, r0 as int, r1 as int, i as int),
{
    let mut m = BitMask(0);
    let mut r = r0;
    proof {
        lemma_empty_mask();
    }
    while r <= r1
        invariant
            c < FARM_WIDTH,
            r0 <= r <= r1 + 1,
            r1 < FARM_HEIGHT,
            forall|i: u16| #[trigger] m.has(i) <==> in_column(c as int, r0 as int, r as int - 1, i as int),
        decreases r1 + 1 - r,
    {
        let p = from_farm_coords(r, c);
        let ghost old_m = m;
        m = m.flip(p);
        proof {
            assert forall|i: u16| #[trigger] m.has(i) <==> in_column(c as int, r0 as int, r as int, i as int) by {
                if i < 9 {
                    lemma_plot_coords(i as int);
                }
                assert(old_m.has(i) <==> in_column(c as int, r0 as int, r as int - 1, i as int));
            }
        }
        r = r + 1;
    }
    m
}

fn abs_diff(a: usize, b: usize) -> (d: usize)
    ensures
        d == if a < b { b - a } else { a - b },
{
    if a < b { b - a } else { a - b }
}

/// Whether `mask` is a 2x2 square.
fn is_melon_shape(mask: BitMask) -> (res: bool)
    ensures
        res == is_melon_group(mask),
{
    let mut r: usize = 0;
    while r < FARM_HEIGHT - 1
        invariant
            r <= FARM_HEIGHT - 1,
            forall|r2: int, c2: int| 0 <= r2 < r ==> !is_square_at(mask, r2, c2),
        decreases FARM_HEIGHT - 1 - r,
    {
        let mut c: usize = 0;
        while c < FARM_WIDTH - 1
            invariant
                r < FARM_HEIGHT - 1,
                c <= FARM_WIDTH - 1,
                forall|r2: int, c2: int| 0 <= r2 < r ==> !is_square_at(mask, r2, c2),
                forall|c2: int| 0 <= c2 < c ==> !is_square_at(mask, r as int, c2),
            decreases FARM_WIDTH - 1 - c,
        {
            let cand = square_group(r, c);
            if mask.0 == cand.0 {
                assert(is_square_at(mask, r as int, c as int));
                return true;
            }
            proof {
                if is_square_at(mask, r as int, c as int) {
                    lemma_mask_ext(mask, cand);
                }
            }
            c = c + 1;
        }
        r = r + 1;
    }
    false
}

/// Whether `mask` is a vertical run of two or three plots.
fn is_corn_shape(mask: BitMask) -> (res: bool)
    ensures
        res == is_corn_group(mask),
{
    let mut c: usize = 0;
    while c < FARM_WIDTH
        invariant
            c <= FARM_WIDTH,
            forall|c2: int, r0: int, r1: int| 0 <= c2 < c ==> !is_column_at(mask, c2, r0, r1),
        decreases FARM_WIDTH - c,
    {
        let mut r: usize = 0;
        while r < FARM_HEIGHT - 1
            invariant
                c < FARM_WIDTH,
                r <= FARM_HEIGHT - 1,
                forall|c2: int, r0: int, r1: int| 0 <= c2 < c ==> !is_column_at(mask, c2, r0, r1),
                forall|r0: int, r1: int| 0 <= r0 < r && r1 == r0 + 1 ==> !#[trigger] is_column_at(mask, c as int, r0, r1),
            decreases FARM_HEIGHT - 1 - r,
        {
            let cand = column_group(c, r, r + 1);
            if mask.0 == cand.0 {
                assert(is_column_at(mask, c as int, r as int, r + 1));
                return true;
            }
            proof {
                if is_column_at(mask, c as int, r as int, r + 1) {
                    lemma_mask_ext(mask, cand);
                }
            }
            r = r + 1;
        }
        let cand = column_group(c, 0, FARM_HEIGHT - 1);
        if mask.0 == cand.0 {
            assert(is_column_at(mask, c as int, 0, 2));
            return true;
        }
        proof {
            if is_column_at(mask, c as int, 0, 2) {
                lemma_mask_ext(mask, cand);
            }
            assert forall|r0: int, r1: int| !is_column_at(mask, c as int, r0, r1) by {
                if is_column_at(mask, c as int, r0, r1) {
                    assert(0 <= r0 < r1 < 3);
                    if r1 != r0 + 1 {
                        assert(r0 == 0 && r1 == 2);
                    }
                }
            }
        }
        c = c + 1;
    }
    false
}

/// Whether `mask` is two plots that do not share an edge.
fn is_blueberry_shape(mask: BitMask) -> (res: bool)
    ensures
        res == is_blueberry_group(mask),
{
    let mut a: usize = 0;
    while a < NUM_FARM_PLOTS
        invariant
            a <= NUM_FARM_PLOTS,
            forall|a2: int, b2: int| 0 <= a2 < a ==> !is_pair_at(mask, a2, b2),
        decreases NUM_FARM_PLOTS - a,
    {
        let mut b: usize = a + 1;
        while b < NUM_FARM_PLOTS
            invariant
                a < NUM_FARM_PLOTS,
                a + 1 <= b <= NUM_FARM_PLOTS,
                forall|a2: int, b2: int| 0 <= a2 < a ==> !is_pair_at(mask, a2, b2),
                forall|b2: int| b2 < b ==> !is_pair_at(mask, a as int, b2),
            decreases NUM_FARM_PLOTS - b,
        {
            let (ar, ac) = to_farm_coords(a);
            let (br, bc) = to_farm_coords(b);
            if abs_diff(ar, br) + abs_diff(ac, bc) != 1 {
                let cand = BitMask(0).flip(a).flip(b);
                proof {
                    lemma_empty_mask();
                }
                if mask.0 == cand.0 {
                    assert(is_pair_at(mask, a as int, b as int));
                    return true;
                }
                proof {
                    if is_pair_at(mask, a as int, b as int) {
                        lemma_mask_ext(mask, cand);
                    }
                }
            }
            b = b + 1;
        }
        a = a + 1;
    }
    false
}

/// Whether `mask` is three plots forming an L.
fn is_eggplant_shape(mask: BitMask) -> (res: bool)
    ensures
        res == is_eggplant_group(mask),
{
    let mut r: usize = 0;
    while r < FARM_HEIGHT - 1
        invariant
            r <= FARM_HEIGHT - 1,
            forall|r2: int, c2: int, k: int| 0 <= r2 < r ==> !is_l_at(mask, r2, c2, k),
        decreases FARM_HEIGHT - 1 - r,
    {
        let mut c: usize = 0;
        while c < FARM_WIDTH - 1
            invariant
                r < FARM_HEIGHT - 1,
                c <= FARM_WIDTH - 1,
                forall|r2: int, c2: int, k: int| 0 <= r2 < r ==> !is_l_at(mask, r2, c2, k),
                forall|c2: int, k: int| 0 <= c2 < c ==> !is_l_at(mask, r as int, c2, k),
            decreases FARM_WIDTH - 1 - c,
        {
            let square = square_group(r, c);
            let corners = square.indices();
            let mut j: usize = 0;
            while j < corners.len()
                invariant
                    r < FARM_HEIGHT - 1,
                    c < FARM_WIDTH - 1,
                    j <= corners.len(),
                    forall|i: u16| #[trigger] square.has(i) <==> in_square(r as int, c as int, i as int),
                    forall|k: int| 0 <= k < corners.len() ==> corners[k] < 16 && square.has(#[trigger] corners[k] as u16),
                    forall|i: u16| #[trigger] square.has(i) ==> corners@.contains(i as usize),
                    forall|q: int| 0 <= q < j ==> !is_l_at(mask, r as int, c as int, #[trigger] corners[q] as int),
                decreases corners.len() - j,
            {
                let k = corners[j];
                let cand = square.flip(k);
                if mask.0 == cand.0 {
                    proof {
                        assert(square.has(k as u16));
                        assert(is_l_at(mask, r as int, c as int, k as int));
                    }
                    return true;
                }
                proof {
                    if is_l_at(mask, r as int, c as int, k as int) {
                        lemma_mask_ext(mask, cand);
                    }
                }
                j = j + 1;
            }
            proof {
                assert forall|k: int| !is_l_at(mask, r as int, c as int, k) by {
                    if is_l_at(mask, r as int, c as int, k) {
                        let k16 = k as u16;
                        assert(square.has(k16));
                        assert(corners@.contains(k16 as usize));
                        let q = choose|q: int| 0 <= q < corners.len() && corners@[q] == k16 as usize;
                        assert(!is_l_at(mask, r as int, c as int, corners[q] as int));
                    }
                }
            }
            c = c + 1;
        }
        r = r + 1;
    }
    false
}

/// Whether `mask` has the shape that a harvested group of `suit` must have.
pub fn is_crop_group_shape(suit: Suit, mask: BitMask) -> (res: bool)
    ensures
        res == crop_group_shape(suit, mask),
{
    match suit {
        Suit::Melon => is_melon_shape(mask),
        Suit::Corn => is_corn_shape(mask),
        Suit::Blueberry => is_blueberry_shape(mask),
        Suit::Eggplant => is_eggplant_shape(mask),
    }
}

} // verus!

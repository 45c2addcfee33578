//! Ordering a palette by lightness.

use crate::color::{color_key, key_is_injective, key_of};
use vstd::prelude::*;

verus! {

/// A colour with its lightness: any number that grows with the L of the
/// colour in Lab.
#[derive(Debug, Clone, Copy, PartialEq, Eq)]
pub struct Shade {
    pub lightness: u32,
    pub color: [u8; 4],
}

/// The rank of a shade: lightness first, then the channels of the colour.
pub open spec fn shade_rank(shade: Shade) -> nat {
    shade.lightness as nat * 0x1_0000_0000 + color_key(shade.color)
}

/// Every shade is no lighter than those after it; among equally light ones
/// the colours ascend.
pub open spec fn ascending(shades: Seq<Shade>) -> bool {
    forall|i: int, j: int|
        0 <= i < j < shades.len() ==> shade_rank(#[trigger] shades[i]) <= shade_rank(
            #[trigger] shades[j],
        )
}

/// The colours of a list of shades.
pub open spec fn colors_of(shades: Seq<Shade>) -> Seq<[u8; 4]> {
    Seq::new(shades.len(), |i: int| shades[i].color)
}

/// Shades of the same rank are the same shade.
pub proof fn rank_is_injective(a: Shade, b: Shade)
    requires
        shade_rank(a) == shade_rank(b),
    ensures
        a == b,
{
    assert(color_key(a.color) < 0x1_0000_0000 && color_key(b.color) < 0x1_0000_0000);
    assert(a.lightness == b.lightness && color_key(a.color) == color_key(b.color))
        by (nonlinear_arith)
        requires
            a.lightness as nat * 0x1_0000_0000 + color_key(a.color) == b.lightness as nat
                * 0x1_0000_0000 + color_key(b.color),
            color_key(a.color) < 0x1_0000_0000,
            color_key(b.color) < 0x1_0000_0000,
    ;
    key_is_injective(a.color, b.color);
}

/// The rank of a shade.
fn rank_of(shade: &Shade) -> (rank: u64)
    ensures
        rank == shade_rank(*shade),
{
    shade.lightness as u64 * 0x1_0000_0000 + key_of(&shade.color) as u64
}

/// The shades in ascending order of lightness.
pub fn sort_by_lightness(shades: &Vec<Shade>) -> (sorted: Vec<Shade>)
    ensures
        ascending(sorted@),
        sorted@.to_multiset() == shades@.to_multiset(),
        sorted@.len() == shades@.len(),
{
    let mut sorted: Vec<Shade> = Vec::new();
    let mut index: usize = 0;
    assert(sorted@ =~= shades@.take(0));
    while index < shades.len()
        invariant
            index <= shades@.len(),
            ascending(sorted@),
            sorted@.to_multiset() == shades@.take(index as int).to_multiset(),
            sorted@.len() == index,
        decreases shades@.len() - index,
    {
        let shade = shades[index];
        let rank = rank_of(&shade);
        let mut low: usize = 0;
        let mut high: usize = sorted.len();
        while low < high
            invariant
                ascending(sorted@),
                low <= high <= sorted@.len(),
                forall|a: int| 0 <= a < low ==> shade_rank(#[trigger] sorted@[a]) <= rank,
                forall|a: int| high <= a < sorted@.len() ==> shade_rank(#[trigger] sorted@[a]) > rank,
            decreases high - low,
        {
            let middle: usize = low + (high - low) / 2;
            if rank_of(&sorted[middle]) <= rank {
                low = middle + 1;
            } else {
                high = middle;
            }
        }
        let ghost before = sorted@;
        sorted.insert(low, shade);
        proof {
            let after = sorted@;
            assert forall|i: int, j: int| 0 <= i < j < after.len() implies shade_rank(
                #[trigger] after[i],
            ) <= shade_rank(#[trigger] after[j]) by {
                let from_i = if i < low { i } else { i - 1 };
                let from_j = if j < low { j } else { j - 1 };
                if i != low && j != low {
                    assert(after[i] == before[from_i]);
                    assert(after[j] == before[from_j]);
                } else if i == low {
                    assert(after[j] == before[from_j]);
                } else {
                    assert(after[i] == before[from_i]);
                }
            }
            vstd::seq_lib::to_multiset_insert(before, low as int, shade);
            vstd::seq_lib::to_multiset_build(shades@.take(index as int), shade);
            assert(shades@.take(index + 1) =~= shades@.take(index as int).push(shade));
        }
        index += 1;
    }
    assert(shades@.take(index as int) =~= shades@);
    sorted
}

/// The colours of the shades, in their order.
pub fn shade_colors(shades: &Vec<Shade>) -> (colors: Vec<[u8; 4]>)
    ensures
        colors@ == colors_of(shades@),
{
    let mut colors: Vec<[u8; 4]> = Vec::new();
    let mut index: usize = 0;
    while index < shades.len()
        invariant
            index <= shades@.len(),
            colors@.len() == index,
            forall|i: int| 0 <= i < index ==> #[trigger] colors@[i] == shades@[i].color,
        decreases shades@.len() - index,
    {
        colors.push(shades[index].color);
        index += 1;
    }
    assert(colors@ =~= colors_of(shades@));
    colors
}

/// A palette without a colour twice still has none twice after it was put
/// in another order.
pub proof fn reordering_keeps_distinct(shades: Seq<Shade>, sorted: Seq<Shade>)
    requires
        sorted.to_multiset() == shades.to_multiset(),
        colors_of(shades).no_duplicates(),
    ensures
        colors_of(sorted).no_duplicates(),
{
    broadcast use vstd::seq_lib::group_to_multiset_ensures;

    assert(shades.no_duplicates()) by {
        assert forall|i: int, j: int| 0 <= i < shades.len() && 0 <= j < shades.len() && i
            != j implies shades[i] != shades[j] by {
            assert(colors_of(shades)[i] != colors_of(shades)[j]);
        }
    }
    shades.lemma_multiset_has_no_duplicates();
    sorted.lemma_multiset_has_no_duplicates_conv();
    assert forall|a: int, b: int| 0 <= a < sorted.len() && 0 <= b < sorted.len() && a
        != b implies colors_of(sorted)[a] != colors_of(sorted)[b] by {
        assert(sorted[a] != sorted[b]);
        assert(sorted.contains(sorted[a]));
        assert(sorted.contains(sorted[b]));
        assert(shades.to_multiset().count(sorted[a]) > 0);
        assert(shades.to_multiset().count(sorted[b]) > 0);
        assert(shades.contains(sorted[a]));
        assert(shades.contains(sorted[b]));
        let i = choose|i: int| 0 <= i < shades.len() && shades[i] == sorted[a];
        let j = choose|j: int| 0 <= j < shades.len() && shades[j] == sorted[b];
        assert(i != j);
        assert(colors_of(shades)[i] != colors_of(shades)[j]);
    }
}

/// Two ascending lists of the same shades are the same list.
pub proof fn ascending_is_unique(a: Seq<Shade>, b: Seq<Shade>)
    requires
        ascending(a),
        ascending(b),
        a.to_multiset() == b.to_multiset(),
    ensures
        a == b,
    decreases a.len(),
{
    broadcast use vstd::seq_lib::group_to_multiset_ensures;

    vstd::seq_lib::to_multiset_len(a);
    vstd::seq_lib::to_multiset_len(b);
    assert(a.len() == b.len());
    if a.len() > 0 {
        let top = a.last();
        assert(a.contains(top));
        assert(b.to_multiset().count(top) > 0);
        assert(b.contains(top));
        let other = b.last();
        assert(b.contains(other));
        assert(a.to_multiset().count(other) > 0);
        assert(a.contains(other));
        let at = choose|i: int| 0 <= i < b.len() && b[i] == top;
        let back = choose|i: int| 0 <= i < a.len() && a[i] == other;
        assert(shade_rank(b[at]) <= shade_rank(b[b.len() - 1]));
        assert(shade_rank(a[back]) <= shade_rank(a[a.len() - 1]));
        rank_is_injective(top, other);
        assert(a.drop_last() =~= a.remove(a.len() - 1));
        assert(b.drop_last() =~= b.remove(b.len() - 1));
        assert(a.drop_last().to_multiset() =~= b.drop_last().to_multiset());
        ascending_is_unique(a.drop_last(), b.drop_last());
        assert(a =~= a.drop_last().push(top));
        assert(b =~= b.drop_last().push(top));
    } else {
        assert(a =~= b);
    }
}

} // verus!

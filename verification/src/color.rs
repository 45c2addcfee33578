//! Ordering of RGBA colours and strictly ordered colour lists.

use vstd::prelude::*;

verus! {

/// The four channels of a colour read as one big-endian number. Its order is
/// the lexicographic order of the channels.
pub open spec fn color_key(color: [u8; 4]) -> nat {
    (((color[0] as nat * 256 + color[1] as nat) * 256 + color[2] as nat) * 256
        + color[3] as nat) as nat
}

/// `a` comes before `b` when the channels are compared one after the other.
pub open spec fn lexicographic_less(a: [u8; 4], b: [u8; 4]) -> bool {
    a[0] < b[0] || (a[0] == b[0] && (a[1] < b[1] || (a[1] == b[1] && (a[2] < b[2] || (a[2]
        == b[2] && a[3] < b[3])))))
}

/// Each colour is strictly below the colours after it.
pub open spec fn strictly_sorted(colors: Seq<[u8; 4]>) -> bool {
    forall|i: int, j: int|
        0 <= i < j < colors.len() ==> color_key(#[trigger] colors[i]) < color_key(
            #[trigger] colors[j],
        )
}

/// The order of the keys is the lexicographic order of the channels.
pub proof fn key_order_is_lexicographic(a: [u8; 4], b: [u8; 4])
    ensures
        color_key(a) < color_key(b) <==> lexicographic_less(a, b),
{
}

/// Colours with the same key are the same colour.
pub proof fn key_is_injective(a: [u8; 4], b: [u8; 4])
    requires
        color_key(a) == color_key(b),
    ensures
        a == b,
{
    assert(a[0] == b[0] && a[1] == b[1] && a[2] == b[2] && a[3] == b[3]);
    assert(a =~= b);
}

/// A strictly sorted list holds no colour twice.
pub proof fn strictly_sorted_is_distinct(colors: Seq<[u8; 4]>)
    requires
        strictly_sorted(colors),
    ensures
        colors.no_duplicates(),
{
}

/// Two strictly sorted lists with the same colours are the same list.
pub proof fn strictly_sorted_is_unique(a: Seq<[u8; 4]>, b: Seq<[u8; 4]>)
    requires
        strictly_sorted(a),
        strictly_sorted(b),
        a.to_set() == b.to_set(),
    ensures
        a == b,
    decreases a.len(),
{
    if a.len() == 0 {
        if b.len() > 0 {
            assert(b.to_set().contains(b[0]));
            assert(a.to_set().contains(b[0]));
        }
        assert(a =~= b);
    } else {
        let top = a.last();
        assert(a.to_set().contains(top));
        assert(b.contains(top));
        let at = choose|i: int| 0 <= i < b.len() && b[i] == top;
        if at != b.len() - 1 {
            let other = b.last();
            assert(b.to_set().contains(other));
            assert(a.contains(other));
            let back = choose|i: int| 0 <= i < a.len() && a[i] == other;
            assert(color_key(b[at]) < color_key(b[b.len() - 1]));
            if back != a.len() - 1 {
                assert(color_key(a[back]) < color_key(a[a.len() - 1]));
            }
            assert(false);
        }
        let a_rest = a.drop_last();
        let b_rest = b.drop_last();
        assert forall|c: [u8; 4]| a_rest.to_set().contains(c) == b_rest.to_set().contains(
            c,
        ) by {
            if a_rest.contains(c) {
                let i = choose|i: int| 0 <= i < a_rest.len() && a_rest[i] == c;
                assert(a[i] == c);
                assert(color_key(a[i]) < color_key(a[a.len() - 1]));
                assert(a.to_set().contains(c));
                assert(b.contains(c));
                let j = choose|j: int| 0 <= j < b.len() && b[j] == c;
                assert(j != b.len() - 1);
                assert(b_rest[j] == c);
            }
            if b_rest.contains(c) {
                let i = choose|i: int| 0 <= i < b_rest.len() && b_rest[i] == c;
                assert(b[i] == c);
                assert(color_key(b[i]) < color_key(b[b.len() - 1]));
                assert(b.to_set().contains(c));
                assert(a.contains(c));
                let j = choose|j: int| 0 <= j < a.len() && a[j] == c;
                assert(j != a.len() - 1);
                assert(a_rest[j] == c);
            }
        }
        assert(a_rest.to_set() =~= b_rest.to_set());
        strictly_sorted_is_unique(a_rest, b_rest);
        assert(a =~= a_rest.push(top));
        assert(b =~= b_rest.push(top));
    }
}

/// The key of a colour.
pub fn key_of(color: &[u8; 4]) -> (key: u32)
    ensures
        key == color_key(*color),
{
    let r: u32 = color[0] as u32;
    let g: u32 = color[1] as u32;
    let b: u32 = color[2] as u32;
    let a: u32 = color[3] as u32;
    ((r * 256 + g) * 256 + b) * 256 + a
}

/// The number of colours of a strictly sorted list whose key is below `key`.
pub fn lower_bound(sorted: &Vec<[u8; 4]>, key: u32) -> (position: usize)
    requires
        strictly_sorted(sorted@),
    ensures
        position <= sorted@.len(),
        forall|i: int| 0 <= i < position ==> color_key(#[trigger] sorted@[i]) < key,
        forall|i: int| position <= i < sorted@.len() ==> color_key(#[trigger] sorted@[i]) >= key,
{
    let mut low: usize = 0;
    let mut high: usize = sorted.len();
    while low < high
        invariant
            strictly_sorted(sorted@),
            low <= high <= sorted@.len(),
            forall|i: int| 0 <= i < low ==> color_key(#[trigger] sorted@[i]) < key,
            forall|i: int| high <= i < sorted@.len() ==> color_key(#[trigger] sorted@[i]) >= key,
        decreases high - low,
    {
        let middle: usize = low + (high - low) / 2;
        if key_of(&sorted[middle]) < key {
            low = middle + 1;
        } else {
            high = middle;
        }
    }
    low
}

/// Puts `color` at its place in a strictly sorted list, unless the list holds
/// it already. Returns whether the colour was new.
pub fn insert_unique(sorted: &mut Vec<[u8; 4]>, color: [u8; 4]) -> (inserted: bool)
    requires
        strictly_sorted(old(sorted)@),
    ensures
        strictly_sorted(final(sorted)@),
        final(sorted)@.to_set() == old(sorted)@.to_set().insert(color),
        inserted == !old(sorted)@.contains(color),
        final(sorted)@.len() == old(sorted)@.len() + if inserted {
            1int
        } else {
            0int
        },
{
    let key = key_of(&color);
    let position = lower_bound(sorted, key);
    let ghost before = sorted@;
    if position < sorted.len() && key_of(&sorted[position]) == key {
        proof {
            key_is_injective(before[position as int], color);
            assert(before.contains(color));
            assert(before.to_set().insert(color) =~= before.to_set());
        }
        false
    } else {
        sorted.insert(position, color);
        proof {
            let after = sorted@;
            assert forall|i: int, j: int| 0 <= i < j < after.len() implies color_key(
                #[trigger] after[i],
            ) < color_key(#[trigger] after[j]) by {
                let before_i = if i < position { i } else { i - 1 };
                let before_j = if j < position { j } else { j - 1 };
                if i != position && j != position {
                    assert(after[i] == before[before_i]);
                    assert(after[j] == before[before_j]);
                } else if i == position {
                    assert(after[j] == before[before_j]);
                } else {
                    assert(after[i] == before[before_i]);
                }
            }
            if before.contains(color) {
                let at = choose|i: int| 0 <= i < before.len() && before[i] == color;
                assert(color_key(before[at]) == key);
            }
            assert forall|c: [u8; 4]| after.to_set().contains(c) == before.to_set().insert(
                color,
            ).contains(c) by {
                if after.contains(c) {
                    let i = choose|i: int| 0 <= i < after.len() && after[i] == c;
                    if i < position {
                        assert(before[i] == c);
                    } else if i > position {
                        assert(before[i - 1] == c);
                    }
                }
                if before.contains(c) {
                    let i = choose|i: int| 0 <= i < before.len() && before[i] == c;
                    if i < position {
                        assert(after[i] == c);
                    } else {
                        assert(after[i + 1] == c);
                    }
                }
                if c == color {
                    assert(after[position as int] == c);
                }
            }
            assert(after.to_set() =~= before.to_set().insert(color));
        }
        true
    }
}

/// The colours of `colors`, each once, in ascending order, and whether no
/// colour occurs twice in `colors`.
pub fn sorted_unique(colors: &Vec<[u8; 4]>) -> (out: (Vec<[u8; 4]>, bool))
    ensures
        strictly_sorted(out.0@),
        out.0@.to_set() == colors@.to_set(),
        out.1 == colors@.no_duplicates(),
        out.0@.len() <= colors@.len(),
        out.1 ==> out.0@.len() == colors@.len(),
{
    let mut sorted: Vec<[u8; 4]> = Vec::new();
    let mut distinct = true;
    let mut i: usize = 0;
    while i < colors.len()
        invariant
            i <= colors@.len(),
            strictly_sorted(sorted@),
            sorted@.to_set() == colors@.take(i as int).to_set(),
            distinct == colors@.take(i as int).no_duplicates(),
            sorted@.len() <= i,
            distinct ==> sorted@.len() == i,
        decreases colors@.len() - i,
    {
        let ghost seen = colors@.take(i as int);
        let ghost next = colors@.take(i + 1);
        let color = colors[i];
        let inserted = insert_unique(&mut sorted, color);
        proof {
            assert(next =~= seen.push(color));
            assert(next.to_set() =~= seen.to_set().insert(color)) by {
                assert forall|c: [u8; 4]| next.to_set().contains(c) == seen.to_set().insert(
                    color,
                ).contains(c) by {
                    if next.contains(c) {
                        let j = choose|j: int| 0 <= j < next.len() && next[j] == c;
                        if j < i {
                            assert(seen[j] == c);
                        }
                    }
                    if seen.contains(c) {
                        let j = choose|j: int| 0 <= j < seen.len() && seen[j] == c;
                        assert(next[j] == c);
                    }
                    if c == color {
                        assert(next[i as int] == c);
                    }
                }
            }
            assert(seen.contains(color) == seen.to_set().contains(color));
            if seen.no_duplicates() && !seen.contains(color) {
                assert forall|a: int, b: int| 0 <= a < next.len() && 0 <= b < next.len() && a
                    != b implies next[a] != next[b] by {
                    if a < i && b < i {
                        assert(seen[a] != seen[b]);
                    } else if a < i {
                        assert(seen[a] == next[a]);
                    } else {
                        assert(seen[b] == next[b]);
                    }
                }
            }
            if seen.contains(color) {
                let j = choose|j: int| 0 <= j < seen.len() && seen[j] == color;
                assert(next[j] == next[i as int]);
            }
            if !seen.no_duplicates() {
                let (a, b) = choose|a: int, b: int|
                    0 <= a < seen.len() && 0 <= b < seen.len() && a != b && seen[a] == seen[b];
                assert(next[a] == next[b]);
            }
        }
        if !inserted {
            distinct = false;
        }
        i += 1;
    }
    assert(colors@.take(i as int) =~= colors@);
    (sorted, distinct)
}

} // verus!

//! Orders on tiles and on crossings, sorting, and the removal of repeats.

use vstd::prelude::*;
use vstd::relations::{sorted_by, total_ordering};
use vstd::seq_lib::lemma_sorted_unique;
use std::cmp::Ordering;

verus! {

/// The order of tiles: by x, then by y, then by zoom.
pub open spec fn tile_le(a: (i32, i32, u8), b: (i32, i32, u8)) -> bool {
    a.0 < b.0 || (a.0 == b.0 && (a.1 < b.1 || (a.1 == b.1 && a.2 <= b.2)))
}

/// The strict order of tiles.
pub open spec fn tile_lt(a: (i32, i32, u8), b: (i32, i32, u8)) -> bool {
    tile_le(a, b) && a != b
}

/// The order of crossings: by row, then by column. A crossing is a pair
/// (x, y).
pub open spec fn row_le(a: (i32, i32), b: (i32, i32)) -> bool {
    a.1 < b.1 || (a.1 == b.1 && a.0 <= b.0)
}

/// Whether each tile of the sequence is strictly less than the next: the
/// sequence ascends and holds no tile twice.
pub open spec fn ascending(s: Seq<(i32, i32, u8)>) -> bool {
    forall|i: int, j: int| 0 <= i < j < s.len() ==> tile_lt(#[trigger] s[i], #[trigger] s[j])
}

/// The sequence without its repeats: each element that equals the one
/// before it is left out.
pub open spec fn without_repeats<T>(s: Seq<T>) -> Seq<T>
    decreases s.len(),
{
    if s.len() == 0 {
        s
    } else {
        let before = without_repeats(s.drop_last());
        if s.len() >= 2 && s[s.len() - 2] == s.last() {
            before
        } else {
            before.push(s.last())
        }
    }
}

/// The tiles of `s` in ascending order, each once.
pub open spec fn tidy(s: Seq<(i32, i32, u8)>) -> Seq<(i32, i32, u8)> {
    without_repeats(s.sort_by(|a: (i32, i32, u8), b: (i32, i32, u8)| tile_le(a, b)))
}

/// The order of tiles is total.
pub proof fn lemma_tile_order_total()
    ensures
        total_ordering(|a: (i32, i32, u8), b: (i32, i32, u8)| tile_le(a, b)),
{
}

/// The order of crossings is total.
pub proof fn lemma_row_order_total()
    ensures
        total_ordering(|a: (i32, i32), b: (i32, i32)| row_le(a, b)),
{
}

/// Sorts tiles into their order. Wraps `sort` of std's slices, of which the
/// documentation says that it sorts the slice in ascending order; tuples
/// are ordered by their first components, then their second, and so on. The
/// contract claims that the result is in order and holds what the vector
/// held, each tile as often as before.
#[verifier::external_body]
fn sort_tiles(v: &mut Vec<(i32, i32, u8)>)
    ensures
        sorted_by(final(v)@, |a: (i32, i32, u8), b: (i32, i32, u8)| tile_le(a, b)),
        final(v)@.to_multiset() == old(v)@.to_multiset(),
{
    v.sort();
}

/// Which of two crossings comes first: the one in the lower row, and in one
/// row the one in the lower column.
pub fn row_order(a: &(i32, i32), b: &(i32, i32)) -> (o: Ordering)
    ensures
        o == Ordering::Less <==> row_le(*a, *b) && *a != *b,
        o == Ordering::Equal <==> *a == *b,
        o == Ordering::Greater <==> !row_le(*a, *b),
{
    if a.1 > b.1 {
        Ordering::Greater
    } else if a.1 < b.1 {
        Ordering::Less
    } else if a.0 > b.0 {
        Ordering::Greater
    } else if a.0 < b.0 {
        Ordering::Less
    } else {
        Ordering::Equal
    }
}

/// Sorts crossings by row, then column. Wraps `sort_by` of std's slices, of
/// which the documentation says that it sorts the slice in ascending order
/// with the comparison function given, which here is `row_order`. The
/// contract claims that the result is in that order and holds what the
/// vector held, each crossing as often as before.
#[verifier::external_body]
fn sort_rows(v: &mut Vec<(i32, i32)>)
    ensures
        sorted_by(final(v)@, |a: (i32, i32), b: (i32, i32)| row_le(a, b)),
        final(v)@.to_multiset() == old(v)@.to_multiset(),
{
    v.sort_by(|a, b| row_order(a, b));
}

/// Sorts tiles into their order.
pub fn sort(v: &mut Vec<(i32, i32, u8)>)
    ensures
        final(v)@ == old(v)@.sort_by(|a: (i32, i32, u8), b: (i32, i32, u8)| tile_le(a, b)),
{
    let ghost leq = |a: (i32, i32, u8), b: (i32, i32, u8)| tile_le(a, b);
    let ghost before = v@;
    sort_tiles(v);
    proof {
        lemma_tile_order_total();
        before.lemma_sort_by_ensures(leq);
        lemma_sorted_unique(v@, before.sort_by(leq), leq);
    }
}

/// Sorts crossings by row, then column.
pub fn sort_by_row(v: &mut Vec<(i32, i32)>)
    ensures
        final(v)@ == old(v)@.sort_by(|a: (i32, i32), b: (i32, i32)| row_le(a, b)),
{
    let ghost leq = |a: (i32, i32), b: (i32, i32)| row_le(a, b);
    let ghost before = v@;
    sort_rows(v);
    proof {
        lemma_row_order_total();
        before.lemma_sort_by_ensures(leq);
        lemma_sorted_unique(v@, before.sort_by(leq), leq);
    }
}

/// Removes from `v` each tile that equals the one before it.
pub fn dedup(v: &mut Vec<(i32, i32, u8)>)
    ensures
        final(v)@ == without_repeats(old(v)@),
{
    let ghost before = v@;
    let mut kept: Vec<(i32, i32, u8)> = Vec::new();
    let n = v.len();
    let mut i: usize = 0;
    while i < n
        invariant
            i <= n,
            n == v.len(),
            v@ == before,
            kept@ == without_repeats(before.take(i as int)),
        decreases n - i,
    {
        let t = v[i];
        let repeat = i > 0 && {
            let p = v[i - 1];
            p.0 == t.0 && p.1 == t.1 && p.2 == t.2
        };
        proof {
            assert(before.take(i + 1).drop_last() =~= before.take(i as int));
        }
        if !repeat {
            kept.push(t);
        }
        i = i + 1;
    }
    assert(before.take(n as int) =~= before);
    *v = kept;
}

/// A sorted sequence of tiles without its repeats ascends strictly, and
/// holds the same tiles.
pub proof fn lemma_without_repeats(s: Seq<(i32, i32, u8)>)
    requires
        sorted_by(s, |a: (i32, i32, u8), b: (i32, i32, u8)| tile_le(a, b)),
    ensures
        ascending(without_repeats(s)),
        forall|t: (i32, i32, u8)| s.contains(t) <==> without_repeats(s).contains(t),
    decreases s.len(),
{
    let leq = |a: (i32, i32, u8), b: (i32, i32, u8)| tile_le(a, b);
    if s.len() > 0 {
        let front = s.drop_last();
        let kept = without_repeats(front);
        let all = without_repeats(s);
        assert(sorted_by(front, leq)) by {
            assert forall|i: int, j: int| 0 <= i < j < front.len() implies #[trigger] leq(
                front[i],
                front[j],
            ) by {
                assert(leq(s[i], s[j]));
            }
        }
        lemma_without_repeats(front);
        assert forall|t: (i32, i32, u8)| s.contains(t) <==> all.contains(t) by {
            if s.contains(t) {
                let i = choose|i: int| 0 <= i < s.len() && s[i] == t;
                if i < s.len() - 1 {
                    assert(front[i] == t);
                    assert(front.contains(t));
                    assert(kept.contains(t));
                    let k = choose|k: int| 0 <= k < kept.len() && kept[k] == t;
                    assert(all[k] == t);
                } else if s.len() >= 2 && s[s.len() - 2] == s.last() {
                    assert(front[s.len() - 2] == t);
                    assert(front.contains(t));
                    assert(kept.contains(t));
                } else {
                    assert(all[all.len() - 1] == t);
                }
            }
            if all.contains(t) {
                let k = choose|k: int| 0 <= k < all.len() && all[k] == t;
                if k < kept.len() {
                    assert(kept[k] == t);
                    assert(kept.contains(t));
                    assert(front.contains(t));
                    let i = choose|i: int| 0 <= i < front.len() && front[i] == t;
                    assert(s[i] == t);
                } else {
                    assert(s[s.len() - 1] == t);
                }
            }
        }
        if !(s.len() >= 2 && s[s.len() - 2] == s.last()) {
            assert forall|i: int, j: int| 0 <= i < j < all.len() implies tile_lt(
                #[trigger] all[i],
                #[trigger] all[j],
            ) by {
                if j < kept.len() {
                    assert(tile_lt(kept[i], kept[j]));
                } else {
                    assert(all[j] == s.last());
                    assert(kept[i] == all[i]);
                    assert(kept.contains(kept[i]));
                    assert(front.contains(all[i]));
                    let m = choose|m: int| 0 <= m < front.len() && front[m] == all[i];
                    assert(leq(s[m], s[s.len() - 1]));
                    if all[i] == s.last() {
                        assert(leq(s[m], s[s.len() - 2]) || m == s.len() - 2);
                        assert(leq(s[s.len() - 2], s[s.len() - 1]));
                    }
                }
            }
        }
    }
}

/// Tidying gives the tiles of a sequence in strictly ascending order: none
/// twice, none lost, none added.
pub proof fn lemma_tidy(s: Seq<(i32, i32, u8)>)
    ensures
        ascending(tidy(s)),
        tidy(s).no_duplicates(),
        forall|t: (i32, i32, u8)| s.contains(t) <==> tidy(s).contains(t),
{
    let leq = |a: (i32, i32, u8), b: (i32, i32, u8)| tile_le(a, b);
    let sorted = s.sort_by(leq);
    lemma_tile_order_total();
    s.lemma_sort_by_ensures(leq);
    lemma_without_repeats(sorted);
    assert forall|t: (i32, i32, u8)| s.contains(t) <==> sorted.contains(t) by {
        broadcast use vstd::seq_lib::group_to_multiset_ensures;
        assert(s.contains(t) <==> s.to_multiset().count(t) > 0);
        assert(sorted.contains(t) <==> sorted.to_multiset().count(t) > 0);
    }
    assert forall|i: int, j: int| 0 <= i < tidy(s).len() && 0 <= j < tidy(s).len() && i != j implies tidy(s)[i] != tidy(s)[j] by {
        if i < j {
            assert(tile_lt(tidy(s)[i], tidy(s)[j]));
        } else {
            assert(tile_lt(tidy(s)[j], tidy(s)[i]));
        }
    }
}

/// There is one way to put a set of tiles in ascending order: two
/// ascending sequences that hold the same tiles are equal.
pub proof fn lemma_ascending_unique(a: Seq<(i32, i32, u8)>, b: Seq<(i32, i32, u8)>)
    requires
        ascending(a),
        ascending(b),
        forall|t: (i32, i32, u8)| a.contains(t) <==> b.contains(t),
    ensures
        a == b,
{
    let leq = |p: (i32, i32, u8), q: (i32, i32, u8)| tile_le(p, q);
    broadcast use vstd::seq_lib::group_to_multiset_ensures;
    assert(a.no_duplicates()) by {
        assert forall|i: int, j: int| 0 <= i < a.len() && 0 <= j < a.len() && i != j implies a[i]
            != a[j] by {
            assert(tile_lt(a[i], a[j]) || tile_lt(a[j], a[i]));
        }
    }
    assert(b.no_duplicates()) by {
        assert forall|i: int, j: int| 0 <= i < b.len() && 0 <= j < b.len() && i != j implies b[i]
            != b[j] by {
            assert(tile_lt(b[i], b[j]) || tile_lt(b[j], b[i]));
        }
    }
    a.lemma_multiset_has_no_duplicates();
    b.lemma_multiset_has_no_duplicates();
    assert forall|t: (i32, i32, u8)| a.to_multiset().count(t) == b.to_multiset().count(t) by {
        assert(a.contains(t) <==> a.to_multiset().count(t) > 0);
        assert(b.contains(t) <==> b.to_multiset().count(t) > 0);
    }
    assert(a.to_multiset() =~= b.to_multiset());
    assert(sorted_by(a, leq)) by {
        assert forall|i: int, j: int| 0 <= i < j < a.len() implies #[trigger] leq(a[i], a[j]) by {
            assert(tile_lt(a[i], a[j]));
        }
    }
    assert(sorted_by(b, leq)) by {
        assert forall|i: int, j: int| 0 <= i < j < b.len() implies #[trigger] leq(b[i], b[j]) by {
            assert(tile_lt(b[i], b[j]));
        }
    }
    lemma_tile_order_total();
    lemma_sorted_unique(a, b, leq);
}

} // verus!

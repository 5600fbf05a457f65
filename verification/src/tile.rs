//! The tile pyramid: a tile's parent, its four children, and its siblings.

use vstd::prelude::*;

verus! {

/// Floor of half of `v`.
pub open spec fn half(v: int) -> int {
    v / 2
}

/// The tile one zoom level up that contains `tile`.
pub open spec fn parent_of(tile: (i32, i32, u8)) -> (i32, i32, u8) {
    (half(tile.0 as int) as i32, half(tile.1 as int) as i32, (tile.2 - 1) as u8)
}

/// The four tiles one zoom level down that `tile` is cut into, going round
/// from the north-west one: NW, NE, SE, SW.
pub open spec fn children_of(tile: (i32, i32, u8)) -> Seq<(i32, i32, u8)> {
    let west = (2 * tile.0) as i32;
    let east = (2 * tile.0 + 1) as i32;
    let north = (2 * tile.1) as i32;
    let south = (2 * tile.1 + 1) as i32;
    let z = (tile.2 + 1) as u8;
    seq![(west, north, z), (east, north, z), (east, south, z), (west, south, z)]
}

/// Whether the children of `tile` can be written as tiles: their indices fit
/// in 32 bits and their zoom in 8.
pub open spec fn has_children(tile: (i32, i32, u8)) -> bool {
    &&& i32::MIN <= 2 * tile.0
    &&& 2 * tile.0 + 1 <= i32::MAX
    &&& i32::MIN <= 2 * tile.1
    &&& 2 * tile.1 + 1 <= i32::MAX
    &&& tile.2 < u8::MAX
}

/// The tile one zoom level up that contains `tile`.
pub fn get_parent(tile: (i32, i32, u8)) -> (parent: (i32, i32, u8))
    requires
        tile.2 >= 1,
    ensures
        parent == parent_of(tile),
        parent.0 == half(tile.0 as int),
        parent.1 == half(tile.1 as int),
        parent.2 == tile.2 - 1,
{
    let x: i32 = tile.0;
    let y: i32 = tile.1;
    assert(x >> 1 == x / 2) by (bit_vector);
    assert(y >> 1 == y / 2) by (bit_vector);
    (x >> 1, y >> 1, tile.2 - 1)
}

/// The four tiles one zoom level down that `tile` is cut into: north-west,
/// north-east, south-east, south-west.
pub fn get_children(tile: (i32, i32, u8)) -> (children: Vec<(i32, i32, u8)>)
    requires
        has_children(tile),
    ensures
        children@ == children_of(tile),
        children@.len() == 4,
{
    let mut children: Vec<(i32, i32, u8)> = Vec::new();
    children.push((tile.0 * 2, tile.1 * 2, tile.2 + 1));
    children.push((tile.0 * 2 + 1, tile.1 * 2, tile.2 + 1));
    children.push((tile.0 * 2 + 1, tile.1 * 2 + 1, tile.2 + 1));
    children.push((tile.0 * 2, tile.1 * 2 + 1, tile.2 + 1));
    assert(children@ =~= children_of(tile));
    children
}

/// The children of the parent of `tile`: the tile itself and the three that
/// share its parent.
pub fn get_siblings(tile: (i32, i32, u8)) -> (siblings: Vec<(i32, i32, u8)>)
    requires
        tile.2 >= 1,
    ensures
        siblings@ == children_of(parent_of(tile)),
        siblings@.len() == 4,
        siblings@.contains(tile),
{
    let parent = get_parent(tile);
    let siblings = get_children(parent);
    proof {
        lemma_siblings_contain(tile);
    }
    siblings
}

/// A tile is one of the children of its parent.
pub proof fn lemma_siblings_contain(tile: (i32, i32, u8))
    requires
        tile.2 >= 1,
    ensures
        has_children(parent_of(tile)),
        children_of(parent_of(tile)).contains(tile),
{
    let kids = children_of(parent_of(tile));
    let px = half(tile.0 as int);
    let py = half(tile.1 as int);
    let i: int = if tile.0 == 2 * px {
        if tile.1 == 2 * py { 0 } else { 3 }
    } else {
        if tile.1 == 2 * py { 1 } else { 2 }
    };
    assert(kids[i] == tile);
}

/// The parent of each child of a tile is that tile; so the siblings of a
/// tile all have the parent that the tile has.
pub proof fn lemma_children_share_parent(tile: (i32, i32, u8), child: (i32, i32, u8))
    requires
        has_children(tile),
        children_of(tile).contains(child),
    ensures
        child.2 >= 1,
        parent_of(child) == tile,
{
    let kids = children_of(tile);
    let i = choose|i: int| 0 <= i < kids.len() && kids[i] == child;
    assert(0 <= i < 4);
}

} // verus!

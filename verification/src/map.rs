//! The immutable terrain: how it is laid out from a roughness field, where the
//! initial deposits go, and which tiles can be crossed. The initial resources
//! are returned separately; the `Terrain` holds only the terrain.

use crate::chance::{gen_range_inclusive, shuffle};
use crate::world::{
    before, in_grid, kind_count, lemma_kind_count_empty, lemma_kind_count_insert, within_square, Pos, PosMap, ResourceKind,
};
use rand::rngs::ThreadRng;
use vstd::prelude::*;

verus! {

#[derive(Clone, Copy, PartialEq, Eq, Structural, Debug)]
pub enum Tile {
    Empty,
    Obstacle,
    Base,
}

pub struct Terrain {
    pub width: usize,
    pub height: usize,
    /// `tiles[y][x]` is the tile at `(x, y)`.
    pub tiles: Vec<Vec<Tile>>,
    pub base: Pos,
}

/// The tile that the terrain puts at `p`: the base in the centre, a cleared
/// 3x3 square around it, and elsewhere an obstacle wherever the roughness
/// field says so.
pub open spec fn laid_tile(rough: Seq<Vec<bool>>, base: Pos, p: Pos) -> Tile {
    if p == base {
        Tile::Base
    } else if within_square(p, base, 1) {
        Tile::Empty
    } else if rough[p.1 as int]@[p.0 as int] {
        Tile::Obstacle
    } else {
        Tile::Empty
    }
}

/// How the terrain is laid out, tile by tile: the base in the centre; the
/// eight tiles around it (one step away on each axis) cleared; every other
/// tile an obstacle exactly when the roughness field marks it.
pub proof fn lemma_layout(rough: Seq<Vec<bool>>, base: Pos, p: Pos)
    ensures
        p == base ==> laid_tile(rough, base, p) == Tile::Base,
        p != base && base.0 <= p.0 + 1 && p.0 <= base.0 + 1 && base.1 <= p.1 + 1 && p.1 <= base.1 + 1
            ==> laid_tile(rough, base, p) == Tile::Empty,
        p.0 + 1 < base.0 || p.0 > base.0 + 1 || p.1 + 1 < base.1 || p.1 > base.1 + 1 ==> laid_tile(rough, base, p) == (
            if rough[p.1 as int]@[p.0 as int] {
                Tile::Obstacle
            } else {
                Tile::Empty
            }),
{
}

impl Terrain {
    /// The grid has `height` rows of `width` tiles and the base lies on it.
    pub open spec fn wf(&self) -> bool {
        &&& self.tiles@.len() == self.height
        &&& forall|y: int| 0 <= y < self.height ==> #[trigger] self.tiles@[y]@.len() == self.width
        &&& in_grid(self.base, self.width as int, self.height as int)
    }

    pub open spec fn tile(&self, p: Pos) -> Tile {
        self.tiles@[p.1 as int]@[p.0 as int]
    }

    pub open spec fn on_grid(&self, p: Pos) -> bool {
        in_grid(p, self.width as int, self.height as int)
    }

    /// A tile that a robot can stand on.
    pub open spec fn is_open(&self, p: Pos) -> bool {
        self.tile(p) != Tile::Obstacle
    }

    /// Coordinates, distances and perception squares stay within the signed
    /// 32-bit arithmetic that the robots use.
    pub open spec fn fits_i32(&self) -> bool {
        self.width + self.height + 2 <= i32::MAX
    }

    /// The empty tiles (neither obstacle nor base): where deposits can lie.
    pub open spec fn empty_tiles(&self) -> Set<Pos> {
        Set::new(|p: Pos| self.on_grid(p) && self.tile(p) == Tile::Empty)
    }

    /// Lays out a `width` x `height` terrain from the roughness field `rough`
    /// (`rough[y][x]` marks an obstacle), clears a 3x3 square around the base
    /// in the centre, and scatters at random between 5 and 10 energy deposits
    /// and between 5 and 10 crystal deposits of 50 to 200 units each on empty
    /// tiles (fewer when there are not enough empty tiles).
    pub fn new(width: usize, height: usize, rough: &Vec<Vec<bool>>, rng: &mut ThreadRng) -> (res: (
        Terrain,
        PosMap<(ResourceKind, u32)>,
    ))
        requires
            0 < width <= i32::MAX,
            0 < height <= i32::MAX,
            rough@.len() == height,
            forall|y: int| 0 <= y < height ==> #[trigger] rough@[y]@.len() == width,
        ensures
            res.0.wf(),
            res.0.width == width,
            res.0.height == height,
            res.0.base == (width / 2, height / 2),
            forall|p: Pos| #[trigger]
                res.0.on_grid(p) ==> res.0.tile(p) == laid_tile(rough@, res.0.base, p),
            res.1.wf(),
            forall|p: Pos| #[trigger]
                res.1.view().contains_key(p) ==> res.0.empty_tiles().contains(p) && 50
                    <= res.1.view()[p].1 <= 200,
            ({
                let e = res.0.empty_tiles().len();
                let ne = kind_count(res.1.view(), ResourceKind::Energy);
                let nc = kind_count(res.1.view(), ResourceKind::Crystal);
                &&& ne <= 10 && ne <= e && (5 <= ne || ne == e)
                &&& nc <= 10 && nc <= e - ne && (5 <= nc || nc == e - ne)
            }),
    {
        let bx = width / 2;
        let by = height / 2;
        let base: Pos = (bx, by);

        let mut tiles: Vec<Vec<Tile>> = Vec::new();
        let mut y: usize = 0;
        while y < height
            invariant
                y <= height,
                width <= i32::MAX,
                height <= i32::MAX,
                bx == width / 2,
                by == height / 2,
                base == (width / 2, height / 2),
                rough@.len() == height,
                forall|j: int| 0 <= j < height ==> #[trigger] rough@[j]@.len() == width,
                tiles@.len() == y,
                forall|j: int| 0 <= j < y ==> #[trigger] tiles@[j]@.len() == width,
                forall|p: Pos|
                    p.1 < y && p.0 < width ==> #[trigger] tiles@[p.1 as int]@[p.0 as int]
                        == laid_tile(rough@, base, p),
            decreases height - y,
        {
            let mut row: Vec<Tile> = Vec::new();
            let mut x: usize = 0;
            while x < width
                invariant
                    x <= width,
                    y < height,
                    width <= i32::MAX,
                    height <= i32::MAX,
                    bx == width / 2,
                    by == height / 2,
                    base == (width / 2, height / 2),
                    rough@.len() == height,
                    forall|j: int| 0 <= j < height ==> #[trigger] rough@[j]@.len() == width,
                    row@.len() == x,
                    forall|i: int| 0 <= i < x ==> #[trigger] row@[i] == laid_tile(rough@, base, (i as usize, y)),
                decreases width - x,
            {
                let near = x + 1 >= bx && x <= bx + 1 && y + 1 >= by && y <= by + 1;
                let t = if x == bx && y == by {
                    Tile::Base
                } else if near {
                    Tile::Empty
                } else if rough[y][x] {
                    Tile::Obstacle
                } else {
                    Tile::Empty
                };
                row.push(t);
                x = x + 1;
            }
            tiles.push(row);
            proof {
                assert forall|p: Pos|
                    p.1 < y + 1 && p.0 < width implies #[trigger] tiles@[p.1 as int]@[p.0 as int]
                        == laid_tile(rough@, base, p) by {
                    if p.1 == y {
                        assert(tiles@[p.1 as int]@[p.0 as int] == laid_tile(rough@, base, (p.0, y)));
                    }
                }
            }
            y = y + 1;
        }
        let map = Terrain { width, height, tiles, base };

        // The empty tiles, row by row.
        let mut empty: Vec<Pos> = Vec::new();
        let mut y: usize = 0;
        while y < height
            invariant
                y <= height,
                map.wf(),
                map.width == width,
                map.height == height,
                forall|i: int| 0 <= i < empty@.len() ==> map.empty_tiles().contains(#[trigger] empty@[i]) && empty@[i].1 < y,
                forall|i: int, j: int| 0 <= i < j < empty@.len() ==> before(#[trigger] empty@[i], #[trigger] empty@[j]),
                forall|p: Pos| #[trigger] map.empty_tiles().contains(p) && p.1 < y ==> empty@.contains(p),
            decreases height - y,
        {
            let mut x: usize = 0;
            while x < width
                invariant
                    x <= width,
                    y < height,
                    map.wf(),
                    map.width == width,
                    map.height == height,
                    forall|i: int| 0 <= i < empty@.len() ==> map.empty_tiles().contains(#[trigger] empty@[i]) && before(empty@[i], (x, y)),
                    forall|i: int, j: int| 0 <= i < j < empty@.len() ==> before(#[trigger] empty@[i], #[trigger] empty@[j]),
                    forall|p: Pos| #[trigger] map.empty_tiles().contains(p) && before(p, (x, y)) ==> empty@.contains(p),
                decreases width - x,
            {
                if map.tiles[y][x] == Tile::Empty {
                    let ghost old_empty = empty@;
                    empty.push((x, y));
                    proof {
                        assert forall|p: Pos| #[trigger] map.empty_tiles().contains(p) && before(p, ((x + 1) as usize, y)) implies empty@.contains(p) by {
                            if p == (x, y) {
                                assert(empty@[empty@.len() - 1] == p);
                            } else {
                                assert(old_empty.contains(p));
                                let k = choose|k: int| 0 <= k < old_empty.len() && old_empty[k] == p;
                                assert(empty@[k] == p);
                            }
                        }
                    }
                } else {
                    proof {
                        assert forall|p: Pos| #[trigger] map.empty_tiles().contains(p) && before(p, ((x + 1) as usize, y)) implies empty@.contains(p) by {
                            assert(p != (x, y));
                        }
                    }
                }
                x = x + 1;
            }
            y = y + 1;
        }
        proof {
            assert(empty@.no_duplicates()) by {
                assert forall|i: int, j: int| 0 <= i < empty@.len() && 0 <= j < empty@.len() && i != j implies empty@[i] != empty@[j] by {
                    if i < j {
                        assert(before(empty@[i], empty@[j]));
                    } else {
                        assert(before(empty@[j], empty@[i]));
                    }
                }
            }
            assert(empty@.to_set() =~= map.empty_tiles()) by {
                assert forall|p: Pos| #[trigger] map.empty_tiles().contains(p) implies empty@.to_set().contains(p) by {
                    assert(empty@.contains(p));
                }
            }
            empty@.unique_seq_to_set();
        }
        let ghost total = empty@.len();
        assert(total == map.empty_tiles().len());

        let ghost before_shuffle = empty@;
        shuffle(&mut empty, rng);
        proof {
            broadcast use vstd::seq_lib::group_to_multiset_ensures;
            before_shuffle.lemma_multiset_has_no_duplicates();
            empty@.lemma_multiset_has_no_duplicates_conv();
            assert forall|i: int| 0 <= i < empty@.len() implies #[trigger] map.empty_tiles().contains(empty@[i]) by {
                assert(empty@.to_multiset().count(empty@[i]) > 0);
                assert(before_shuffle.contains(empty@[i]));
            }
        }

        // How many deposits of each kind, and their amounts, in the order drawn.
        let n = empty.len();
        let energy_drawn = gen_range_inclusive(rng, 5, 10) as usize;
        let energy_count = if energy_drawn < n { energy_drawn } else { n };
        let mut amounts: Vec<u32> = Vec::new();
        while amounts.len() < energy_count
            invariant
                amounts@.len() <= energy_count,
                forall|k: int| 0 <= k < amounts@.len() ==> 50 <= #[trigger] amounts@[k] <= 200,
            decreases energy_count - amounts@.len(),
        {
            amounts.push(gen_range_inclusive(rng, 50, 200));
        }
        let crystal_drawn = gen_range_inclusive(rng, 5, 10) as usize;
        let crystal_count = if crystal_drawn < n - energy_count { crystal_drawn } else { n - energy_count };
        let placed = energy_count + crystal_count;
        while amounts.len() < placed
            invariant
                energy_count <= amounts@.len() <= placed,
                forall|k: int| 0 <= k < amounts@.len() ==> 50 <= #[trigger] amounts@[k] <= 200,
            decreases placed - amounts@.len(),
        {
            amounts.push(gen_range_inclusive(rng, 50, 200));
        }
        let ghost shuffled = empty@;
        let resources = place_deposits(empty, energy_drawn, crystal_drawn, &amounts);
        proof {
            assert forall|p: Pos| #[trigger] resources.view().contains_key(p) implies map.empty_tiles().contains(p) && 50
                <= resources.view()[p].1 <= 200 by {
                let k = choose|k: int| 0 <= k < energy_count + crystal_count && #[trigger] from_end(shuffled, k) == p;
                assert(resources.view()[from_end(shuffled, k)].1 == amounts@[k]);
                assert(map.empty_tiles().contains(shuffled[shuffled.len() - 1 - k]));
            }
        }
        (map, resources)
    }

    /// Whether a robot can stand on `pos`.
    pub fn passable(&self, pos: Pos) -> (r: bool)
        requires
            self.wf(),
            self.on_grid(pos),
        ensures
            r == self.is_open(pos),
    {
        self.tiles[pos.1][pos.0] != Tile::Obstacle
    }
}

/// How many deposits of one kind go on `n` empty tiles when `drawn` were drawn.
pub open spec fn share(n: int, drawn: int) -> int {
    if drawn < n {
        drawn
    } else {
        n
    }
}

/// The `i`-th entry of `s`, counted from the end.
pub open spec fn from_end(s: Seq<Pos>, i: int) -> Pos {
    s[s.len() - 1 - i]
}

/// Lays the deposits on the (shuffled) empty tiles, taking them from the end
/// of the list: first `energy_drawn` energy deposits, then `crystal_drawn`
/// crystal deposits, as far as there are tiles left; the `i`-th deposit laid
/// holds `amounts[i]` units.
pub fn place_deposits(empty: Vec<Pos>, energy_drawn: usize, crystal_drawn: usize, amounts: &Vec<u32>) -> (r: PosMap<(ResourceKind, u32)>)
    requires
        empty@.no_duplicates(),
        amounts@.len() >= share(empty@.len() as int, energy_drawn as int) + share(
            empty@.len() - share(empty@.len() as int, energy_drawn as int),
            crystal_drawn as int,
        ),
    ensures
        ({
            let n = empty@.len() as int;
            let ne = share(n, energy_drawn as int);
            let nc = share(n - ne, crystal_drawn as int);
            &&& r.wf()
            &&& forall|i: int| 0 <= i < ne + nc ==> r.view().contains_key(#[trigger] from_end(empty@, i))
                && r.view()[from_end(empty@, i)] == (if i < ne { ResourceKind::Energy } else { ResourceKind::Crystal }, amounts@[i])
            &&& forall|p: Pos| #[trigger] r.view().contains_key(p) ==> exists|i: int| 0 <= i < ne + nc && #[trigger] from_end(empty@, i) == p
            &&& kind_count(r.view(), ResourceKind::Energy) == ne
            &&& kind_count(r.view(), ResourceKind::Crystal) == nc
        }),
{
    let ghost e0 = empty@;
    let n = empty.len();
    let ne = if energy_drawn < n { energy_drawn } else { n };
    let nc = if crystal_drawn < n - ne { crystal_drawn } else { n - ne };
    let mut left = empty;
    let mut resources: PosMap<(ResourceKind, u32)> = PosMap::new();
    proof {
        lemma_kind_count_empty::<u32>(ResourceKind::Energy);
        lemma_kind_count_empty::<u32>(ResourceKind::Crystal);
        assert(e0.take(n as int) =~= e0);
    }
    let mut i: usize = 0;
    while i < ne + nc
        invariant
            n == e0.len(),
            e0.no_duplicates(),
            ne == share(n as int, energy_drawn as int),
            nc == share(n - ne, crystal_drawn as int),
            ne + nc <= n,
            amounts@.len() >= ne + nc,
            i <= ne + nc,
            left@ == e0.take(n - i),
            resources.wf(),
            forall|k: int| 0 <= k < i ==> resources.view().contains_key(#[trigger] from_end(e0, k))
                && resources.view()[from_end(e0, k)] == (if k < ne { ResourceKind::Energy } else { ResourceKind::Crystal }, amounts@[k]),
            forall|p: Pos| #[trigger] resources.view().contains_key(p) ==> exists|k: int| 0 <= k < i && #[trigger] from_end(e0, k) == p,
            kind_count(resources.view(), ResourceKind::Energy) == (if i < ne { i as int } else { ne as int }),
            kind_count(resources.view(), ResourceKind::Crystal) == (if i < ne { 0 } else { i - ne }),
        decreases ne + nc - i,
    {
        let ghost m0 = resources.view();
        let popped = left.pop();
        match popped {
            Some(pos) => {
                let kind = if i < ne { ResourceKind::Energy } else { ResourceKind::Crystal };
                proof {
                    assert(pos == from_end(e0, i as int));
                    assert(left@ =~= e0.take(n - (i + 1)));
                    assert(!m0.contains_key(pos)) by {
                        if m0.contains_key(pos) {
                            let k = choose|k: int| 0 <= k < i && #[trigger] from_end(e0, k) == pos;
                            assert(e0[n - 1 - k] == e0[n - 1 - i]);
                        }
                    }
                    resources.lemma_finite();
                    lemma_kind_count_insert(m0, pos, (kind, amounts@[i as int]), ResourceKind::Energy);
                    lemma_kind_count_insert(m0, pos, (kind, amounts@[i as int]), ResourceKind::Crystal);
                }
                resources.insert(pos, (kind, amounts[i]));
                proof {
                    assert forall|k: int| 0 <= k < i + 1 implies resources.view().contains_key(#[trigger] from_end(e0, k))
                        && resources.view()[from_end(e0, k)] == (if k < ne { ResourceKind::Energy } else { ResourceKind::Crystal }, amounts@[k]) by {
                        if k < i {
                            assert(e0[n - 1 - k] != e0[n - 1 - i]);
                        }
                    }
                    assert forall|p: Pos| #[trigger] resources.view().contains_key(p) implies exists|k: int| 0 <= k < i + 1 && #[trigger] from_end(e0, k) == p by {
                        if p == pos {
                            assert(from_end(e0, i as int) == p);
                        } else {
                            let k = choose|k: int| 0 <= k < i && #[trigger] from_end(e0, k) == p;
                            assert(from_end(e0, k) == p);
                        }
                    }
                }
            },
            None => {
                proof {
                    assert(false);
                }
            },
        }
        i = i + 1;
    }
    resources
}

} // verus!

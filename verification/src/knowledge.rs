//! The mental map of ONE robot.
//!
//! Each robot has its own: it starts knowing only the surroundings of the
//! base, then completes it by exploring (perception) and by receiving the
//! others' discoveries (messages). Two robots may know different things.

use crate::map::Terrain;
use crate::world::{before, in_grid, within_square, Cell, Pos, PosMap, ResourceKind};
use vstd::prelude::*;

verus! {

pub struct Knowledge {
    /// Known terrain, `cells[y][x]`; `Unknown` everywhere at first.
    pub cells: Vec<Vec<Cell>>,
    /// Deposits spotted (without the quantity: only the world knows it).
    pub resources: PosMap<ResourceKind>,
}

/// What a robot perceives of an on-grid cell of the real terrain.
pub open spec fn seen_cell(map: &Terrain, p: Pos) -> Cell {
    if map.is_open(p) {
        Cell::Free
    } else {
        Cell::Obstacle
    }
}

/// The cells of a `Vec<Vec<Cell>>`, row by row.
pub open spec fn cell_grid(cells: Seq<Vec<Cell>>) -> Seq<Seq<Cell>> {
    cells.map_values(|r: Vec<Cell>| r@)
}

/// The grid after writing the cells of `ups` one after the other (a later
/// entry for the same position wins).
pub open spec fn with_cells(g: Seq<Seq<Cell>>, ups: Seq<(Pos, Cell)>) -> Seq<Seq<Cell>>
    decreases ups.len(),
{
    if ups.len() == 0 {
        g
    } else {
        let g1 = with_cells(g, ups.drop_last());
        let (p, c) = ups.last();
        g1.update(p.1 as int, g1[p.1 as int].update(p.0 as int, c))
    }
}

/// The cell of the last of the first `n` entries of `ups` for position `p`, if any.
pub open spec fn last_entry(ups: Seq<(Pos, Cell)>, n: int, p: Pos) -> Option<Cell>
    decreases n,
{
    if n <= 0 {
        None
    } else if ups[n - 1].0 == p {
        Some(ups[n - 1].1)
    } else {
        last_entry(ups, n - 1, p)
    }
}

/// `p` lies on the grid `g`.
pub open spec fn on_cells(g: Seq<Seq<Cell>>, p: Pos) -> bool {
    p.1 < g.len() && p.0 < g[p.1 as int].len()
}

/// Writing cells keeps the shape of the grid, and each position then holds
/// the last cell written there, or what it held before if none was.
pub proof fn lemma_with_cells_reads(g: Seq<Seq<Cell>>, ups: Seq<(Pos, Cell)>, p: Pos)
    requires
        forall|i: int| 0 <= i < ups.len() ==> on_cells(g, #[trigger] ups[i].0),
        on_cells(g, p),
    ensures
        with_cells(g, ups).len() == g.len(),
        forall|y: int| 0 <= y < g.len() ==> #[trigger] with_cells(g, ups)[y].len() == g[y].len(),
        with_cells(g, ups)[p.1 as int][p.0 as int] == match last_entry(ups, ups.len() as int, p) {
            Some(c) => c,
            None => g[p.1 as int][p.0 as int],
        },
    decreases ups.len(),
{
    if ups.len() > 0 {
        let t = ups.drop_last();
        assert forall|i: int| 0 <= i < t.len() implies on_cells(g, #[trigger] t[i].0) by {
            assert(t[i] == ups[i]);
        }
        lemma_with_cells_reads(g, t, p);
        assert(on_cells(g, ups[ups.len() - 1].0));
        assert forall|i: int| 0 <= i < ups.len() - 1 implies last_entry(t, i, p) == last_entry(ups, i, p) by {
            lemma_last_entry_prefix(ups, i, p);
        }
        lemma_last_entry_prefix(ups, ups.len() - 1, p);
    }
}

proof fn lemma_last_entry_prefix(ups: Seq<(Pos, Cell)>, n: int, p: Pos)
    requires
        0 <= n < ups.len(),
    ensures
        last_entry(ups.drop_last(), n, p) == last_entry(ups, n, p),
    decreases n,
{
    if n > 0 {
        lemma_last_entry_prefix(ups, n - 1, p);
    }
}

/// Writing the cells of `a` then those of `b` is writing the cells of `a + b`:
/// news gathered from several reports teaches what the reports taught one by one.
pub proof fn lemma_with_cells_append(g: Seq<Seq<Cell>>, a: Seq<(Pos, Cell)>, b: Seq<(Pos, Cell)>)
    ensures
        with_cells(g, a + b) == with_cells(with_cells(g, a), b),
    decreases b.len(),
{
    if b.len() == 0 {
        assert(a + b =~= a);
    } else {
        lemma_with_cells_append(g, a, b.drop_last());
        assert((a + b).drop_last() =~= a + b.drop_last());
    }
}

/// Noting the deposits of `a` then those of `b` is noting those of `a + b`.
pub proof fn lemma_with_deposits_append(m: Map<Pos, ResourceKind>, a: Seq<(Pos, ResourceKind)>, b: Seq<(Pos, ResourceKind)>)
    ensures
        with_deposits(m, a + b) == with_deposits(with_deposits(m, a), b),
    decreases b.len(),
{
    if b.len() == 0 {
        assert(a + b =~= a);
    } else {
        lemma_with_deposits_append(m, a, b.drop_last());
        assert((a + b).drop_last() =~= a + b.drop_last());
    }
}

/// The deposits after noting those of `ups` one after the other.
pub open spec fn with_deposits(m: Map<Pos, ResourceKind>, ups: Seq<(Pos, ResourceKind)>) -> Map<Pos, ResourceKind>
    decreases ups.len(),
{
    if ups.len() == 0 {
        m
    } else {
        with_deposits(m, ups.drop_last()).insert(ups.last().0, ups.last().1)
    }
}

/// Noting a list of deposits binds the position of an entry that no later
/// entry lists again to the kind of that entry.
pub proof fn lemma_with_deposits_last(m: Map<Pos, ResourceKind>, ups: Seq<(Pos, ResourceKind)>, i: int)
    requires
        0 <= i < ups.len(),
        forall|j: int| i < j < ups.len() ==> ups[j].0 != ups[i].0,
    ensures
        with_deposits(m, ups).contains_key(ups[i].0),
        with_deposits(m, ups)[ups[i].0] == ups[i].1,
    decreases ups.len(),
{
    if i < ups.len() - 1 {
        let t = ups.drop_last();
        assert forall|j: int| i < j < t.len() implies t[j].0 != t[i].0 by {
            assert(t[j] == ups[j]);
        }
        lemma_with_deposits_last(m, t, i);
        assert(ups.last().0 != ups[i].0);
    }
}

/// Noting a list of deposits leaves every position that it does not list as it was.
pub proof fn lemma_with_deposits_untouched(m: Map<Pos, ResourceKind>, ups: Seq<(Pos, ResourceKind)>, p: Pos)
    requires
        forall|j: int| 0 <= j < ups.len() ==> ups[j].0 != p,
    ensures
        with_deposits(m, ups).contains_key(p) == m.contains_key(p),
        m.contains_key(p) ==> with_deposits(m, ups)[p] == m[p],
    decreases ups.len(),
{
    if ups.len() > 0 {
        let t = ups.drop_last();
        assert forall|j: int| 0 <= j < t.len() implies t[j].0 != p by {
            assert(t[j] == ups[j]);
        }
        lemma_with_deposits_untouched(m, t, p);
        assert(ups[ups.len() - 1].0 != p);
    }
}

/// The deposits after forgetting those of `gone` one after the other.
pub open spec fn without_deposits(m: Map<Pos, ResourceKind>, gone: Seq<Pos>) -> Map<Pos, ResourceKind>
    decreases gone.len(),
{
    if gone.len() == 0 {
        m
    } else {
        without_deposits(m, gone.drop_last()).remove(gone.last())
    }
}

/// Forgetting a list of deposits drops every position listed, and keeps
/// every other one with its kind.
pub proof fn lemma_without_deposits_reads(m: Map<Pos, ResourceKind>, gone: Seq<Pos>, p: Pos)
    ensures
        gone.contains(p) ==> !without_deposits(m, gone).contains_key(p),
        !gone.contains(p) ==> without_deposits(m, gone).contains_key(p) == m.contains_key(p),
        !gone.contains(p) && m.contains_key(p) ==> without_deposits(m, gone)[p] == m[p],
    decreases gone.len(),
{
    if gone.len() > 0 {
        let t = gone.drop_last();
        lemma_without_deposits_reads(m, t, p);
        if gone.contains(p) && p != gone.last() {
            let i = choose|i: int| 0 <= i < gone.len() && gone[i] == p;
            assert(t[i] == p);
        }
        if !gone.contains(p) {
            assert(gone[gone.len() - 1] != p);
            if t.contains(p) {
                let i = choose|i: int| 0 <= i < t.len() && t[i] == p;
                assert(gone[i] == p);
            }
        }
    }
}

impl Knowledge {
    /// The mental map covers a `width` x `height` grid.
    pub open spec fn wf_for(&self, width: int, height: int) -> bool {
        &&& self.cells@.len() == height
        &&& forall|y: int| 0 <= y < height ==> #[trigger] self.cells@[y]@.len() == width
        &&& self.resources.wf()
    }

    /// The cell `p` lies on the mental map.
    pub open spec fn covers(&self, p: Pos) -> bool {
        p.1 < self.cells@.len() && p.0 < self.cells@[p.1 as int]@.len()
    }

    pub open spec fn cell(&self, p: Pos) -> Cell {
        self.cells@[p.1 as int]@[p.0 as int]
    }

    pub open spec fn grid(&self) -> Seq<Seq<Cell>> {
        cell_grid(self.cells@)
    }

    /// Unknown cells are assumed passable.
    pub open spec fn allows(&self, p: Pos) -> bool {
        self.cell(p) != Cell::Obstacle
    }

    /// A mental map of `width` x `height` unknown cells, with no deposit.
    pub fn new(width: usize, height: usize) -> (k: Self)
        ensures
            k.wf_for(width as int, height as int),
            forall|p: Pos| #[trigger] in_grid(p, width as int, height as int) ==> k.cell(p) == Cell::Unknown,
            k.resources.view() == Map::<Pos, ResourceKind>::empty(),
    {
        let mut cells: Vec<Vec<Cell>> = Vec::new();
        let mut y: usize = 0;
        while y < height
            invariant
                y <= height,
                cells@.len() == y,
                forall|j: int| 0 <= j < y ==> #[trigger] cells@[j]@.len() == width,
                forall|p: Pos| p.1 < y && p.0 < width ==> #[trigger] cells@[p.1 as int]@[p.0 as int] == Cell::Unknown,
            decreases height - y,
        {
            let mut row: Vec<Cell> = Vec::new();
            let mut x: usize = 0;
            while x < width
                invariant
                    x <= width,
                    row@.len() == x,
                    forall|i: int| 0 <= i < x ==> #[trigger] row@[i] == Cell::Unknown,
                decreases width - x,
            {
                row.push(Cell::Unknown);
                x = x + 1;
            }
            cells.push(row);
            y = y + 1;
        }
        Knowledge { cells, resources: PosMap::new() }
    }

    /// The robot already knows the 3x3 square around the base: that is where
    /// it starts from, so it sees the terrain right there.
    pub fn with_base_seen(map: &Terrain) -> (k: Self)
        requires
            map.wf(),
            map.width <= i32::MAX,
            map.height <= i32::MAX,
        ensures
            k.wf_for(map.width as int, map.height as int),
            forall|p: Pos| #[trigger]
                map.on_grid(p) ==> k.cell(p) == (if within_square(p, map.base, 1) {
                    seen_cell(map, p)
                } else {
                    Cell::Unknown
                }),
            k.resources.view() == Map::<Pos, ResourceKind>::empty(),
    {
        let mut k = Self::new(map.width, map.height);
        let seen = around(map.base, map, 1);
        let mut i: usize = 0;
        while i < seen.len()
            invariant
                i <= seen@.len(),
                map.wf(),
                k.wf_for(map.width as int, map.height as int),
                k.resources.view() == Map::<Pos, ResourceKind>::empty(),
                forall|j: int| 0 <= j < seen@.len() ==> map.on_grid(#[trigger] seen@[j].0)
                    && within_square(seen@[j].0, map.base, 1) && seen@[j].1 == seen_cell(map, seen@[j].0),
                forall|p: Pos| map.on_grid(p) && within_square(p, map.base, 1) ==> exists|j: int|
                    0 <= j < seen@.len() && #[trigger] seen@[j].0 == p,
                forall|a: int, b: int| 0 <= a < b < seen@.len() ==> before(#[trigger] seen@[a].0, #[trigger] seen@[b].0),
                forall|p: Pos| #[trigger] map.on_grid(p) ==> k.cell(p) == (if exists|j: int| 0 <= j < i && seen@[j].0 == p {
                    seen_cell(map, p)
                } else {
                    Cell::Unknown
                }),
            decreases seen@.len() - i,
        {
            let (p, c) = seen[i];
            k.note_cell(p, c);
            proof {
                assert forall|q: Pos| #[trigger] map.on_grid(q) implies k.cell(q) == (if exists|j: int| 0 <= j < i + 1 && seen@[j].0 == q {
                    seen_cell(map, q)
                } else {
                    Cell::Unknown
                }) by {
                    if q != p {
                        if exists|j: int| 0 <= j < i + 1 && seen@[j].0 == q {
                            let j = choose|j: int| 0 <= j < i + 1 && seen@[j].0 == q;
                            assert(j != i);
                        }
                    } else {
                        assert(seen@[i as int].0 == q);
                    }
                }
            }
            i = i + 1;
        }
        proof {
            assert forall|p: Pos| #[trigger] map.on_grid(p) implies k.cell(p) == (if within_square(p, map.base, 1) {
                seen_cell(map, p)
            } else {
                Cell::Unknown
            }) by {
                if within_square(p, map.base, 1) {
                    let j = choose|j: int| 0 <= j < seen@.len() && #[trigger] seen@[j].0 == p;
                    assert(exists|j: int| 0 <= j < i && seen@[j].0 == p);
                } else {
                    if exists|j: int| 0 <= j < i && seen@[j].0 == p {
                        let j = choose|j: int| 0 <= j < i && seen@[j].0 == p;
                        assert(within_square(seen@[j].0, map.base, 1));
                    }
                }
            }
        }
        k
    }

    /// An unknown cell is assumed passable: the robot will find out by going there.
    pub fn passable(&self, p: Pos) -> (r: bool)
        requires
            self.covers(p),
        ensures
            r == self.allows(p),
    {
        self.cells[p.1][p.0] != Cell::Obstacle
    }

    pub fn note_cell(&mut self, p: Pos, cell: Cell)
        requires
            old(self).covers(p),
        ensures
            final(self).grid() == old(self).grid().update(
                p.1 as int,
                old(self).grid()[p.1 as int].update(p.0 as int, cell),
            ),
            final(self).cells@.len() == old(self).cells@.len(),
            forall|y: int| 0 <= y < old(self).cells@.len() ==> #[trigger] final(self).cells@[y]@.len() == old(self).cells@[y]@.len(),
            forall|q: Pos| #[trigger] final(self).cell(q) == (if q == p { cell } else { old(self).cell(q) }) || !old(self).covers(q),
            final(self).resources == old(self).resources,
    {
        let ghost g0 = self.grid();
        self.cells[p.1][p.0] = cell;
        proof {
            assert(self.grid() =~= g0.update(p.1 as int, g0[p.1 as int].update(p.0 as int, cell)));
        }
    }

    /// Writes the cells of `ups` one after the other.
    pub(crate) fn note_cells_in_order(&mut self, ups: &Vec<(Pos, Cell)>)
        requires
            forall|i: int| 0 <= i < ups@.len() ==> old(self).covers(#[trigger] ups@[i].0),
        ensures
            final(self).grid() == with_cells(old(self).grid(), ups@),
            final(self).cells@.len() == old(self).cells@.len(),
            forall|y: int| 0 <= y < old(self).cells@.len() ==> #[trigger] final(self).cells@[y]@.len() == old(self).cells@[y]@.len(),
            final(self).resources == old(self).resources,
    {
        let ghost g0 = self.grid();
        let ghost k0 = *self;
        let mut i: usize = 0;
        while i < ups.len()
            invariant
                i <= ups@.len(),
                forall|j: int| 0 <= j < ups@.len() ==> k0.covers(#[trigger] ups@[j].0),
                self.grid() == with_cells(g0, ups@.take(i as int)),
                self.cells@.len() == k0.cells@.len(),
                forall|y: int| 0 <= y < k0.cells@.len() ==> #[trigger] self.cells@[y]@.len() == k0.cells@[y]@.len(),
                self.resources == k0.resources,
            decreases ups@.len() - i,
        {
            let (p, c) = ups[i];
            assert(k0.covers(ups@[i as int].0));
            self.note_cell(p, c);
            assert(ups@.take(i + 1).drop_last() =~= ups@.take(i as int));
            i = i + 1;
        }
        assert(ups@.take(ups@.len() as int) =~= ups@);
    }

    /// Notes the deposits of `ups` one after the other.
    pub(crate) fn note_resources_in_order(&mut self, ups: &Vec<(Pos, ResourceKind)>)
        requires
            old(self).resources.wf(),
        ensures
            final(self).resources.wf(),
            final(self).resources.view() == with_deposits(old(self).resources.view(), ups@),
            final(self).cells == old(self).cells,
    {
        let ghost m0 = self.resources.view();
        let ghost c0 = self.cells;
        let mut i: usize = 0;
        while i < ups.len()
            invariant
                i <= ups@.len(),
                self.resources.wf(),
                self.resources.view() == with_deposits(m0, ups@.take(i as int)),
                self.cells == c0,
            decreases ups@.len() - i,
        {
            let (p, k) = ups[i];
            self.note_resource(p, k);
            assert(ups@.take(i + 1).drop_last() =~= ups@.take(i as int));
            i = i + 1;
        }
        assert(ups@.take(ups@.len() as int) =~= ups@);
    }

    /// Forgets the deposits of `gone` one after the other.
    pub(crate) fn forget_resources_in_order(&mut self, gone: &Vec<Pos>)
        requires
            old(self).resources.wf(),
        ensures
            final(self).resources.wf(),
            final(self).resources.view() == without_deposits(old(self).resources.view(), gone@),
            final(self).cells == old(self).cells,
    {
        let ghost m0 = self.resources.view();
        let ghost c0 = self.cells;
        let mut i: usize = 0;
        while i < gone.len()
            invariant
                i <= gone@.len(),
                self.resources.wf(),
                self.resources.view() == without_deposits(m0, gone@.take(i as int)),
                self.cells == c0,
            decreases gone@.len() - i,
        {
            let p = gone[i];
            self.forget_resource(&p);
            assert(gone@.take(i + 1).drop_last() =~= gone@.take(i as int));
            i = i + 1;
        }
        assert(gone@.take(gone@.len() as int) =~= gone@);
    }

    pub fn note_resource(&mut self, p: Pos, kind: ResourceKind)
        requires
            old(self).resources.wf(),
        ensures
            final(self).resources.wf(),
            final(self).resources.view() == old(self).resources.view().insert(p, kind),
            final(self).cells == old(self).cells,
    {
        self.resources.insert(p, kind);
    }

    pub fn forget_resource(&mut self, p: &Pos)
        requires
            old(self).resources.wf(),
        ensures
            final(self).resources.wf(),
            final(self).resources.view() == old(self).resources.view().remove(*p),
            final(self).cells == old(self).cells,
    {
        self.resources.remove(p);
    }
}

/// Lists the on-map cells (with their real terrain) in the square of radius
/// `radius` around `pos`, row by row. This is how a robot perceives its
/// immediate surroundings.
pub fn around(pos: Pos, map: &Terrain, radius: i32) -> (out: Vec<(Pos, Cell)>)
    requires
        map.wf(),
        radius > i32::MIN,
        radius >= 0 ==> pos.0 + radius <= i32::MAX && pos.1 + radius <= i32::MAX,
    ensures
        forall|i: int| 0 <= i < out@.len() ==> map.on_grid(#[trigger] out@[i].0)
            && within_square(out@[i].0, pos, radius as int) && out@[i].1 == seen_cell(map, out@[i].0),
        forall|p: Pos| map.on_grid(p) && within_square(p, pos, radius as int) ==> exists|i: int|
            0 <= i < out@.len() && #[trigger] out@[i].0 == p,
        forall|a: int, b: int| 0 <= a < b < out@.len() ==> before(#[trigger] out@[a].0, #[trigger] out@[b].0),
{
    let mut out: Vec<(Pos, Cell)> = Vec::new();
    if radius < 0 {
        // The square is empty.
        return out;
    }
    let r: i64 = radius as i64;
    let cx: i64 = pos.0 as i64;
    let cy: i64 = pos.1 as i64;
    let mut dy: i64 = -r;
    while dy <= r
        invariant
            map.wf(),
            r == radius,
            cx == pos.0,
            cy == pos.1,
            r >= 0,
            cx + r <= i32::MAX && cy + r <= i32::MAX,
            -r <= dy <= r + 1,
            forall|i: int| 0 <= i < out@.len() ==> map.on_grid(#[trigger] out@[i].0)
                && within_square(out@[i].0, pos, r as int) && out@[i].1 == seen_cell(map, out@[i].0)
                && out@[i].0.1 < cy + dy,
            forall|p: Pos| map.on_grid(p) && within_square(p, pos, r as int) && p.1 < cy + dy ==> exists|i: int|
                0 <= i < out@.len() && #[trigger] out@[i].0 == p,
            forall|a: int, b: int| 0 <= a < b < out@.len() ==> before(#[trigger] out@[a].0, #[trigger] out@[b].0),
        decreases r + 1 - dy,
    {
        let y: i64 = cy + dy;
        let mut dx: i64 = -r;
        while dx <= r
            invariant
                map.wf(),
                r == radius,
                cx == pos.0,
                cy == pos.1,
                r >= 0,
                cx + r <= i32::MAX && cy + r <= i32::MAX,
                -r <= dy <= r,
                y == cy + dy,
                -r <= dx <= r + 1,
                forall|i: int| 0 <= i < out@.len() ==> map.on_grid(#[trigger] out@[i].0)
                    && within_square(out@[i].0, pos, r as int) && out@[i].1 == seen_cell(map, out@[i].0)
                    && (out@[i].0.1 < y || (out@[i].0.1 == y && out@[i].0.0 < cx + dx)),
                forall|p: Pos| map.on_grid(p) && within_square(p, pos, r as int) && (p.1 < y || (p.1 == y && p.0 < cx + dx)) ==> exists|i: int|
                    0 <= i < out@.len() && #[trigger] out@[i].0 == p,
                forall|a: int, b: int| 0 <= a < b < out@.len() ==> before(#[trigger] out@[a].0, #[trigger] out@[b].0),
            decreases r + 1 - dx,
        {
            let x: i64 = cx + dx;
            if x >= 0 && y >= 0 && (x as u64) < (map.width as u64) && (y as u64) < (map.height as u64) {
                let p: Pos = (x as usize, y as usize);
                let cell = if map.passable(p) { Cell::Free } else { Cell::Obstacle };
                let ghost o0 = out@;
                out.push((p, cell));
                proof {
                    assert forall|q: Pos| map.on_grid(q) && within_square(q, pos, r as int) && (q.1 < y || (q.1 == y && q.0 < cx + dx + 1)) implies exists|i: int|
                        0 <= i < out@.len() && #[trigger] out@[i].0 == q by {
                        if q == p {
                            assert(out@[o0.len() as int].0 == q);
                        } else {
                            let i = choose|i: int| 0 <= i < o0.len() && #[trigger] o0[i].0 == q;
                            assert(out@[i].0 == q);
                        }
                    }
                }
            }
            dx = dx + 1;
        }
        dy = dy + 1;
    }
    out
}

} // verus!

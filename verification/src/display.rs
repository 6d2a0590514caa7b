//! What the screen shows in each cell: the base's aggregated knowledge (fog
//! over the terrain never explored), the deposits discovered and still
//! present, and the robots on top.

use crate::map::Terrain;
use crate::world::{Cell, Pos, ResourceKind, RobotKind};
use vstd::prelude::*;

verus! {

#[derive(Clone, Copy, PartialEq, Eq, Structural, Debug)]
pub enum Glyph {
    /// Terrain never explored.
    Hidden,
    Obstacle,
    Base,
    Floor,
    Energy,
    Crystal,
    Scout,
    Collector,
}

/// The glyph of the terrain as known on the board.
pub open spec fn terrain_glyph(map: &Terrain, cells: Seq<Vec<Cell>>, p: Pos) -> Glyph {
    match cells[p.1 as int]@[p.0 as int] {
        Cell::Unknown => Glyph::Hidden,
        Cell::Obstacle => Glyph::Obstacle,
        Cell::Free => if p == map.base { Glyph::Base } else { Glyph::Floor },
    }
}

/// The kind of the last of the first `n` deposits listed at `p`, if any.
pub open spec fn last_deposit(resources: Seq<(Pos, ResourceKind)>, n: int, p: Pos) -> Option<ResourceKind>
    decreases n,
{
    if n <= 0 {
        None
    } else if resources[n - 1].0 == p {
        Some(resources[n - 1].1)
    } else {
        last_deposit(resources, n - 1, p)
    }
}

/// The kind of the last of the first `n` robots standing on `p`, if any.
pub open spec fn last_robot(positions: Seq<Pos>, kinds: Seq<RobotKind>, n: int, p: Pos) -> Option<RobotKind>
    decreases n,
{
    if n <= 0 {
        None
    } else if positions[n - 1] == p {
        Some(kinds[n - 1])
    } else {
        last_robot(positions, kinds, n - 1, p)
    }
}

pub open spec fn deposit_glyph(k: ResourceKind) -> Glyph {
    match k {
        ResourceKind::Energy => Glyph::Energy,
        ResourceKind::Crystal => Glyph::Crystal,
    }
}

pub open spec fn robot_glyph(k: RobotKind) -> Glyph {
    match k {
        RobotKind::Scout => Glyph::Scout,
        RobotKind::Collector => Glyph::Collector,
    }
}

pub open spec fn robot_count(positions: Seq<Pos>, kinds: Seq<RobotKind>) -> int {
    if positions.len() <= kinds.len() { positions.len() as int } else { kinds.len() as int }
}

/// What the screen shows at `p`: a robot over a deposit over the terrain.
pub open spec fn shown(
    map: &Terrain,
    cells: Seq<Vec<Cell>>,
    resources: Seq<(Pos, ResourceKind)>,
    positions: Seq<Pos>,
    kinds: Seq<RobotKind>,
    p: Pos,
) -> Glyph {
    match last_robot(positions, kinds, robot_count(positions, kinds), p) {
        Some(k) => robot_glyph(k),
        None => match last_deposit(resources, resources.len() as int, p) {
            Some(k) => deposit_glyph(k),
            None => terrain_glyph(map, cells, p),
        },
    }
}

fn set_glyph(grid: &mut Vec<Vec<Glyph>>, p: Pos, g: Glyph)
    requires
        p.1 < old(grid)@.len(),
        p.0 < old(grid)@[p.1 as int]@.len(),
    ensures
        final(grid)@.len() == old(grid)@.len(),
        forall|y: int| 0 <= y < old(grid)@.len() ==> #[trigger] final(grid)@[y]@.len() == old(grid)@[y]@.len(),
        forall|q: Pos| q.1 < old(grid)@.len() && q.0 < old(grid)@[q.1 as int]@.len() ==>
            #[trigger] final(grid)@[q.1 as int]@[q.0 as int] == (if q == p { g } else { old(grid)@[q.1 as int]@[q.0 as int] }),
{
    grid[p.1][p.0] = g;
}

/// The glyph of every cell, `grid[y][x]` for `(x, y)`: the base's knowledge of
/// the terrain ('.' where unexplored, '#' for the base), then the deposits,
/// then the robots (the i-th robot has the i-th kind).
pub fn glyph_grid(
    map: &Terrain,
    cells: &Vec<Vec<Cell>>,
    resources: &Vec<(Pos, ResourceKind)>,
    positions: &Vec<Pos>,
    kinds: &Vec<RobotKind>,
) -> (grid: Vec<Vec<Glyph>>)
    requires
        map.wf(),
        cells@.len() >= map.height,
        forall|y: int| 0 <= y < map.height ==> #[trigger] cells@[y]@.len() >= map.width,
        forall|i: int| 0 <= i < resources@.len() ==> map.on_grid(#[trigger] resources@[i].0),
        forall|i: int| 0 <= i < robot_count(positions@, kinds@) ==> map.on_grid(#[trigger] positions@[i]),
    ensures
        grid@.len() == map.height,
        forall|y: int| 0 <= y < map.height ==> #[trigger] grid@[y]@.len() == map.width,
        forall|p: Pos| #[trigger] map.on_grid(p) ==> grid@[p.1 as int]@[p.0 as int] == shown(
            map,
            cells@,
            resources@,
            positions@,
            kinds@,
            p,
        ),
{
    // Terrain: the unknown stays hidden, the base is marked.
    let mut grid: Vec<Vec<Glyph>> = Vec::new();
    let mut y: usize = 0;
    while y < map.height
        invariant
            y <= map.height,
            map.wf(),
            cells@.len() >= map.height,
            forall|j: int| 0 <= j < map.height ==> #[trigger] cells@[j]@.len() >= map.width,
            grid@.len() == y,
            forall|j: int| 0 <= j < y ==> #[trigger] grid@[j]@.len() == map.width,
            forall|p: Pos| p.1 < y && p.0 < map.width ==> #[trigger] grid@[p.1 as int]@[p.0 as int] == terrain_glyph(map, cells@, p),
        decreases map.height - y,
    {
        let mut row: Vec<Glyph> = Vec::new();
        let mut x: usize = 0;
        while x < map.width
            invariant
                x <= map.width,
                y < map.height,
                map.wf(),
                cells@.len() >= map.height,
                forall|j: int| 0 <= j < map.height ==> #[trigger] cells@[j]@.len() >= map.width,
                row@.len() == x,
                forall|i: int| 0 <= i < x ==> #[trigger] row@[i] == terrain_glyph(map, cells@, (i as usize, y)),
            decreases map.width - x,
        {
            let g = match cells[y][x] {
                Cell::Unknown => Glyph::Hidden,
                Cell::Obstacle => Glyph::Obstacle,
                Cell::Free => if x == map.base.0 && y == map.base.1 { Glyph::Base } else { Glyph::Floor },
            };
            row.push(g);
            x = x + 1;
        }
        grid.push(row);
        proof {
            assert forall|p: Pos| p.1 < y + 1 && p.0 < map.width implies #[trigger] grid@[p.1 as int]@[p.0 as int]
                == terrain_glyph(map, cells@, p) by {
                if p.1 == y {
                    assert(grid@[p.1 as int]@[p.0 as int] == terrain_glyph(map, cells@, (p.0, y)));
                }
            }
        }
        y = y + 1;
    }

    // Deposits discovered (and still present).
    let mut i: usize = 0;
    while i < resources.len()
        invariant
            i <= resources@.len(),
            map.wf(),
            grid@.len() == map.height,
            forall|j: int| 0 <= j < map.height ==> #[trigger] grid@[j]@.len() == map.width,
            forall|j: int| 0 <= j < resources@.len() ==> map.on_grid(#[trigger] resources@[j].0),
            forall|p: Pos| #[trigger] map.on_grid(p) ==> grid@[p.1 as int]@[p.0 as int] == (match last_deposit(resources@, i as int, p) {
                Some(k) => deposit_glyph(k),
                None => terrain_glyph(map, cells@, p),
            }),
        decreases resources@.len() - i,
    {
        let (p, kind) = resources[i];
        assert(map.on_grid(resources@[i as int].0));
        let g = match kind {
            ResourceKind::Energy => Glyph::Energy,
            ResourceKind::Crystal => Glyph::Crystal,
        };
        set_glyph(&mut grid, p, g);
        i = i + 1;
    }

    // Robots on top.
    let n = if positions.len() <= kinds.len() { positions.len() } else { kinds.len() };
    let mut i: usize = 0;
    while i < n
        invariant
            i <= n,
            n == robot_count(positions@, kinds@),
            map.wf(),
            grid@.len() == map.height,
            forall|j: int| 0 <= j < map.height ==> #[trigger] grid@[j]@.len() == map.width,
            forall|j: int| 0 <= j < n ==> map.on_grid(#[trigger] positions@[j]),
            forall|p: Pos| #[trigger] map.on_grid(p) ==> grid@[p.1 as int]@[p.0 as int] == (match last_robot(positions@, kinds@, i as int, p) {
                Some(k) => robot_glyph(k),
                None => match last_deposit(resources@, resources@.len() as int, p) {
                    Some(k) => deposit_glyph(k),
                    None => terrain_glyph(map, cells@, p),
                },
            }),
        decreases n - i,
    {
        let p = positions[i];
        assert(map.on_grid(positions@[i as int]));
        let g = match kinds[i] {
            RobotKind::Scout => Glyph::Scout,
            RobotKind::Collector => Glyph::Collector,
        };
        set_glyph(&mut grid, p, g);
        i = i + 1;
    }
    grid
}

proof fn lemma_last_deposit_at(resources: Seq<(Pos, ResourceKind)>, n: int, p: Pos, i: int)
    requires
        0 <= i < n <= resources.len(),
        resources[i].0 == p,
        forall|j: int| i < j < n ==> resources[j].0 != p,
    ensures
        last_deposit(resources, n, p) == Some(resources[i].1),
    decreases n,
{
    if n - 1 != i {
        lemma_last_deposit_at(resources, n - 1, p, i);
    }
}

proof fn lemma_no_deposit_at(resources: Seq<(Pos, ResourceKind)>, n: int, p: Pos)
    requires
        n <= resources.len(),
        forall|j: int| 0 <= j < n ==> resources[j].0 != p,
    ensures
        last_deposit(resources, n, p) == None::<ResourceKind>,
    decreases n,
{
    if n > 0 {
        lemma_no_deposit_at(resources, n - 1, p);
    }
}

proof fn lemma_last_robot_at(positions: Seq<Pos>, kinds: Seq<RobotKind>, n: int, p: Pos, i: int)
    requires
        0 <= i < n,
        n <= positions.len(),
        n <= kinds.len(),
        positions[i] == p,
        forall|j: int| i < j < n ==> positions[j] != p,
    ensures
        last_robot(positions, kinds, n, p) == Some(kinds[i]),
    decreases n,
{
    if n - 1 != i {
        lemma_last_robot_at(positions, kinds, n - 1, p, i);
    }
}

proof fn lemma_no_robot_at(positions: Seq<Pos>, kinds: Seq<RobotKind>, n: int, p: Pos)
    requires
        n <= positions.len(),
        forall|j: int| 0 <= j < n ==> positions[j] != p,
    ensures
        last_robot(positions, kinds, n, p) == None::<RobotKind>,
    decreases n,
{
    if n > 0 {
        lemma_no_robot_at(positions, kinds, n - 1, p);
    }
}

/// A cell where robots stand shows the last of them (the i-th robot having
/// the i-th kind): 'x' for a scout, 'o' for a collector, whatever else lies
/// there.
pub proof fn lemma_screen_shows_robot(
    map: &Terrain,
    cells: Seq<Vec<Cell>>,
    resources: Seq<(Pos, ResourceKind)>,
    positions: Seq<Pos>,
    kinds: Seq<RobotKind>,
    p: Pos,
    i: int,
)
    requires
        0 <= i < positions.len(),
        i < kinds.len(),
        positions[i] == p,
        forall|j: int| i < j < positions.len() && j < kinds.len() ==> positions[j] != p,
    ensures
        shown(map, cells, resources, positions, kinds, p) == (if kinds[i] == RobotKind::Scout {
            Glyph::Scout
        } else {
            Glyph::Collector
        }),
{
    lemma_last_robot_at(positions, kinds, robot_count(positions, kinds), p, i);
}

/// A cell with no robot on it where deposits are listed shows the kind of the
/// last one listed there: 'E' for energy, 'C' for crystal.
pub proof fn lemma_screen_shows_deposit(
    map: &Terrain,
    cells: Seq<Vec<Cell>>,
    resources: Seq<(Pos, ResourceKind)>,
    positions: Seq<Pos>,
    kinds: Seq<RobotKind>,
    p: Pos,
    i: int,
)
    requires
        forall|j: int| 0 <= j < positions.len() && j < kinds.len() ==> positions[j] != p,
        0 <= i < resources.len(),
        resources[i].0 == p,
        forall|j: int| i < j < resources.len() ==> resources[j].0 != p,
    ensures
        shown(map, cells, resources, positions, kinds, p) == (if resources[i].1 == ResourceKind::Crystal {
            Glyph::Crystal
        } else {
            Glyph::Energy
        }),
{
    lemma_no_robot_at(positions, kinds, robot_count(positions, kinds), p);
    lemma_last_deposit_at(resources, resources.len() as int, p, i);
}

/// A cell with neither robot nor deposit shows the terrain as the board knows
/// it: hidden where unexplored, then obstacle, base, or open floor.
pub proof fn lemma_screen_shows_terrain(
    map: &Terrain,
    cells: Seq<Vec<Cell>>,
    resources: Seq<(Pos, ResourceKind)>,
    positions: Seq<Pos>,
    kinds: Seq<RobotKind>,
    p: Pos,
)
    requires
        forall|j: int| 0 <= j < positions.len() && j < kinds.len() ==> positions[j] != p,
        forall|j: int| 0 <= j < resources.len() ==> resources[j].0 != p,
    ensures
        shown(map, cells, resources, positions, kinds, p) == (if cells[p.1 as int]@[p.0 as int] == Cell::Unknown {
            Glyph::Hidden
        } else if cells[p.1 as int]@[p.0 as int] == Cell::Obstacle {
            Glyph::Obstacle
        } else if p == map.base {
            Glyph::Base
        } else {
            Glyph::Floor
        }),
{
    lemma_no_robot_at(positions, kinds, robot_count(positions, kinds), p);
    lemma_no_deposit_at(resources, resources.len() as int, p);
}

} // verus!

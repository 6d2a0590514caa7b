//! What a robot decides at each tick.
//!
//! Each robot reasons on ITS OWN mental map ([`Knowledge`]) and touches the
//! shared world only briefly, for the two things that need physical
//! consistency: reading and writing its position (no two robots on one cell)
//! and picking up a resource (stocks run out). All knowledge sharing goes
//! through messages: the robot reports what it discovers to the base, and
//! receives the others' discoveries in return.

use crate::knowledge::{around, seen_cell, with_cells, with_deposits, without_deposits, Knowledge};
use crate::map::{Terrain, Tile};
use crate::pathfinding::{leads, lemma_neighbors, neighbor, random_step, reach, search, FirstSteps};
use crate::world::{
    adjacent, before, distance, in_grid, lemma_units_split, units_of, within_square, Cell, GoneResources, News, Pos, Report,
    ResourceKind, SeenCells, SeenResources, World,
};
use rand::rngs::ThreadRng;
use vstd::prelude::*;

verus! {

/// Perception radius of a scout (a collector sees at 1).
pub const SCOUT_VISION: i32 = 2;

/// `p` lies on the map within `radius` of `pos`.
pub open spec fn in_view(map: &Terrain, pos: Pos, radius: int, p: Pos) -> bool {
    map.on_grid(p) && within_square(p, pos, radius)
}

/// Positions of the OTHER robots (for collision avoidance).
pub fn others(positions: &Vec<Pos>, id: usize) -> (r: Vec<Pos>)
    ensures
        r@ == (if id < positions@.len() { positions@.remove(id as int) } else { positions@ }),
{
    let mut r: Vec<Pos> = Vec::new();
    let mut i: usize = 0;
    while i < positions.len()
        invariant
            i <= positions@.len(),
            r@ == (if id < i { positions@.take(i as int).remove(id as int) } else { positions@.take(i as int) }),
        decreases positions@.len() - i,
    {
        if i != id {
            r.push(positions[i]);
        }
        proof {
            let t = positions@.take(i as int);
            let t1 = positions@.take(i + 1);
            assert(t1 =~= t.push(positions@[i as int]));
            if id < i {
                assert(t1.remove(id as int) =~= t.remove(id as int).push(positions@[i as int]));
            } else if id == i {
                assert(t1.remove(id as int) =~= t);
            }
        }
        i = i + 1;
    }
    proof {
        assert(positions@.take(positions@.len() as int) =~= positions@);
    }
    r
}

/// Whether `p` occurs in `v`.
fn holds(v: &Vec<Pos>, p: Pos) -> (r: bool)
    ensures
        r == v@.contains(p),
{
    let mut i: usize = 0;
    while i < v.len()
        invariant
            i <= v@.len(),
            forall|j: int| 0 <= j < i ==> v@[j] != p,
        decreases v@.len() - i,
    {
        let q = v[i];
        if q.0 == p.0 && q.1 == p.1 {
            assert(v@[i as int] == p);
            return true;
        }
        i = i + 1;
    }
    false
}

/// The signed 32-bit gap between two coordinates, each taken modulo 2^32 as
/// the robots' arithmetic does.
pub open spec fn signed_gap(u: usize, v: usize) -> int {
    (u as i32) as int - (v as i32) as int
}

pub open spec fn magnitude(x: int) -> int {
    if x < 0 { -x } else { x }
}

/// Manhattan distance, computed in signed 32-bit arithmetic as the robots do
/// (coordinates beyond `i32::MAX` wrap; the subtractions, absolute values and
/// the sum must not overflow).
pub fn manhattan(a: Pos, b: Pos) -> (r: u32)
    requires
        i32::MIN < signed_gap(a.0, b.0) <= i32::MAX,
        i32::MIN < signed_gap(a.1, b.1) <= i32::MAX,
        magnitude(signed_gap(a.0, b.0)) + magnitude(signed_gap(a.1, b.1)) <= i32::MAX,
    ensures
        r == magnitude(signed_gap(a.0, b.0)) + magnitude(signed_gap(a.1, b.1)),
        a.0 <= i32::MAX && a.1 <= i32::MAX && b.0 <= i32::MAX && b.1 <= i32::MAX ==> r == distance(a, b),
{
    let dx: i32 = a.0 as i32 - b.0 as i32;
    let dy: i32 = a.1 as i32 - b.1 as i32;
    let ax: i32 = if dx < 0 { -dx } else { dx };
    let ay: i32 = if dy < 0 { -dy } else { dy };
    (ax + ay) as u32
}

/// The deposits a robot knows of once it has looked around `pos`: those it
/// knew, plus the deposits in view, each of its kind.
pub open spec fn sighted(
    known: Map<Pos, ResourceKind>,
    deposits: Map<Pos, (ResourceKind, u32)>,
    map: &Terrain,
    pos: Pos,
    radius: int,
) -> Map<Pos, ResourceKind> {
    Map::new(
        |q: Pos| known.contains_key(q) || (in_view(map, pos, radius, q) && deposits.contains_key(q)),
        |q: Pos| if known.contains_key(q) { known[q] } else { deposits[q].0 },
    )
}

/// What looking around `pos` does to the terrain a mind knows: it learns the
/// terrain in view; `cells` lists (row by row) the cells whose knowledge
/// changed, and `found` the deposits not known before.
pub open spec fn perceived(
    map: &Terrain,
    deposits: Map<Pos, (ResourceKind, u32)>,
    pos: Pos,
    radius: int,
    mind: Knowledge,
    mind2: Knowledge,
    cells: Seq<(Pos, Cell)>,
    found: Seq<(Pos, ResourceKind)>,
) -> bool {
    &&& mind2.wf_for(map.width as int, map.height as int)
    &&& forall|p: Pos| #[trigger] map.on_grid(p) ==> mind2.cell(p) == (if in_view(map, pos, radius, p) {
        seen_cell(map, p)
    } else {
        mind.cell(p)
    })
    &&& forall|i: int| 0 <= i < cells.len() ==> in_view(map, pos, radius, #[trigger] cells[i].0)
        && cells[i].1 == seen_cell(map, cells[i].0) && mind.cell(cells[i].0) != cells[i].1
    &&& forall|p: Pos| in_view(map, pos, radius, p) && mind.cell(p) != seen_cell(map, p) ==> exists|i: int|
        0 <= i < cells.len() && #[trigger] cells[i].0 == p
    &&& forall|a: int, b: int| 0 <= a < b < cells.len() ==> before(#[trigger] cells[a].0, #[trigger] cells[b].0)
    &&& forall|i: int| 0 <= i < found.len() ==> in_view(map, pos, radius, #[trigger] found[i].0)
        && deposits.contains_key(found[i].0) && deposits[found[i].0].0 == found[i].1
        && !mind.resources.view().contains_key(found[i].0)
    &&& forall|p: Pos| in_view(map, pos, radius, p) && deposits.contains_key(p)
        && !mind.resources.view().contains_key(p) ==> exists|i: int|
        0 <= i < found.len() && #[trigger] found[i].0 == p
    &&& forall|a: int, b: int| 0 <= a < b < found.len() ==> before(#[trigger] found[a].0, #[trigger] found[b].0)
}

/// Perceives the terrain and the deposits around `pos`, updates the mental
/// map, and returns ONLY what is new (to be passed on to the base): the cells
/// whose knowledge changed and the deposits not known before, row by row.
pub fn perceive(pos: Pos, map: &Terrain, world: &World, radius: i32, mind: &mut Knowledge) -> (r: (
    SeenCells,
    SeenResources,
))
    requires
        map.wf(),
        old(mind).wf_for(map.width as int, map.height as int),
        world.resources.wf(),
        radius > i32::MIN,
        radius >= 0 ==> pos.0 + radius <= i32::MAX && pos.1 + radius <= i32::MAX,
    ensures
        perceived(map, world.resources.view(), pos, radius as int, *old(mind), *final(mind), r.0@, r.1@),
        final(mind).resources.view() == sighted(old(mind).resources.view(), world.resources.view(), map, pos, radius as int),
{
    let seen = around(pos, map, radius);
    let new_cells = note_cells(&seen, map, mind);
    let ghost mid = *mind;
    let new_res = note_deposits(&seen, world, mind);
    proof {
        assert(mid.resources.view() == old(mind).resources.view());
        let rad = radius as int;
        assert forall|p: Pos| in_view(map, pos, rad, p) && old(mind).cell(p) != seen_cell(map, p) implies exists|k: int|
            0 <= k < new_cells@.len() && #[trigger] new_cells@[k].0 == p by {
            let j = choose|j: int| 0 <= j < seen@.len() && #[trigger] seen@[j].0 == p;
            assert(old(mind).cell(seen@[j].0) != seen@[j].1);
        }
        assert forall|p: Pos| #[trigger] map.on_grid(p) implies mind.cell(p) == (if in_view(map, pos, rad, p) {
            seen_cell(map, p)
        } else {
            old(mind).cell(p)
        }) by {
            if in_view(map, pos, rad, p) {
                let j = choose|j: int| 0 <= j < seen@.len() && #[trigger] seen@[j].0 == p;
            }
        }
        assert(mind.resources.view() =~= sighted(old(mind).resources.view(), world.resources.view(), map, pos, rad)) by {
            assert forall|q: Pos| #[trigger] mind.resources.view().contains_key(q) <==> old(mind).resources.view().contains_key(q)
                || (in_view(map, pos, rad, q) && world.resources.view().contains_key(q)) by {
                if in_view(map, pos, rad, q) {
                    let j = choose|j: int| 0 <= j < seen@.len() && #[trigger] seen@[j].0 == q;
                }
            }
        }
    }
    let r = (new_cells, new_res);
    assert forall|p: Pos| in_view(map, pos, radius as int, p) && world.resources.view().contains_key(p)
        && !old(mind).resources.view().contains_key(p) implies exists|i: int|
        0 <= i < r.1@.len() && #[trigger] r.1@[i].0 == p by {
        let j = choose|j: int| 0 <= j < seen@.len() && #[trigger] seen@[j].0 == p;
        assert(world.resources.view().contains_key(seen@[j].0));
        assert(!mid.resources.view().contains_key(seen@[j].0));
        let k = choose|k: int| 0 <= k < new_res@.len() && #[trigger] new_res@[k].0 == seen@[j].0;
        assert(r.1@[k].0 == p);
    }
    r
}

/// Looking around a second time from the same place, in an unchanged world,
/// teaches nothing: nothing new to report, and the known terrain stays as it is.
pub proof fn lemma_look_again_learns_nothing(
    map: &Terrain,
    deposits: Map<Pos, (ResourceKind, u32)>,
    pos: Pos,
    radius: int,
    mind0: Knowledge,
    mind1: Knowledge,
    cells1: Seq<(Pos, Cell)>,
    found1: Seq<(Pos, ResourceKind)>,
    mind2: Knowledge,
    cells2: Seq<(Pos, Cell)>,
    found2: Seq<(Pos, ResourceKind)>,
)
    requires
        perceived(map, deposits, pos, radius, mind0, mind1, cells1, found1),
        mind1.resources.view() == sighted(mind0.resources.view(), deposits, map, pos, radius),
        perceived(map, deposits, pos, radius, mind1, mind2, cells2, found2),
        mind2.resources.view() == sighted(mind1.resources.view(), deposits, map, pos, radius),
    ensures
        cells2.len() == 0,
        found2.len() == 0,
        forall|p: Pos| #[trigger] map.on_grid(p) ==> mind2.cell(p) == mind1.cell(p),
        mind2.resources.view() == mind1.resources.view(),
{
    if cells2.len() > 0 {
        assert(in_view(map, pos, radius, cells2[0].0));
        assert(map.on_grid(cells2[0].0));
    }
    if found2.len() > 0 {
        assert(in_view(map, pos, radius, found2[0].0));
        assert(mind1.resources.view().contains_key(found2[0].0));
    }
    assert forall|p: Pos| #[trigger] map.on_grid(p) implies mind2.cell(p) == mind1.cell(p) by {
        if in_view(map, pos, radius, p) {
            assert(mind1.cell(p) == seen_cell(map, p));
        }
    }
    assert(mind2.resources.view() =~= mind1.resources.view());
}

/// A list of perceived cells: on the map, each once, row by row.
pub open spec fn perception(map: &Terrain, seen: Seq<(Pos, Cell)>) -> bool {
    &&& forall|j: int| 0 <= j < seen.len() ==> map.on_grid(#[trigger] seen[j].0) && seen[j].1 == seen_cell(map, seen[j].0)
    &&& forall|a: int, b: int| 0 <= a < b < seen.len() ==> before(#[trigger] seen[a].0, #[trigger] seen[b].0)
}

/// `p` is among the first `i` perceived cells.
pub open spec fn among(seen: Seq<(Pos, Cell)>, i: int, p: Pos) -> bool {
    exists|j: int| 0 <= j < i && #[trigger] seen[j].0 == p
}

/// Writes the perceived terrain on the mental map; returns the cells whose
/// knowledge changed, in perception order.
fn note_cells(seen: &Vec<(Pos, Cell)>, map: &Terrain, mind: &mut Knowledge) -> (r: SeenCells)
    requires
        map.wf(),
        old(mind).wf_for(map.width as int, map.height as int),
        perception(map, seen@),
    ensures
        final(mind).wf_for(map.width as int, map.height as int),
        final(mind).resources == old(mind).resources,
        forall|p: Pos| #[trigger] map.on_grid(p) ==> final(mind).cell(p) == (if among(seen@, seen@.len() as int, p) {
            seen_cell(map, p)
        } else {
            old(mind).cell(p)
        }),
        forall|k: int| 0 <= k < r@.len() ==> among(seen@, seen@.len() as int, #[trigger] r@[k].0)
            && r@[k].1 == seen_cell(map, r@[k].0) && old(mind).cell(r@[k].0) != r@[k].1,
        forall|j: int| 0 <= j < seen@.len() && old(mind).cell(#[trigger] seen@[j].0) != seen@[j].1 ==> exists|k: int|
            0 <= k < r@.len() && #[trigger] r@[k].0 == seen@[j].0,
        forall|a: int, b: int| 0 <= a < b < r@.len() ==> before(#[trigger] r@[a].0, #[trigger] r@[b].0),
{
    let ghost m0 = *mind;
    let mut out: SeenCells = Vec::new();
    let mut i: usize = 0;
    while i < seen.len()
        invariant
            i <= seen@.len(),
            map.wf(),
            mind.wf_for(map.width as int, map.height as int),
            mind.resources == m0.resources,
            perception(map, seen@),
            forall|p: Pos| #[trigger] map.on_grid(p) ==> mind.cell(p) == (if among(seen@, i as int, p) {
                seen_cell(map, p)
            } else {
                m0.cell(p)
            }),
            forall|k: int| 0 <= k < out@.len() ==> among(seen@, i as int, #[trigger] out@[k].0)
                && out@[k].1 == seen_cell(map, out@[k].0) && m0.cell(out@[k].0) != out@[k].1,
            forall|j: int| 0 <= j < i && m0.cell(#[trigger] seen@[j].0) != seen@[j].1 ==> exists|k: int|
                0 <= k < out@.len() && #[trigger] out@[k].0 == seen@[j].0,
            forall|a: int, b: int| 0 <= a < b < out@.len() ==> before(#[trigger] out@[a].0, #[trigger] out@[b].0),
            i < seen@.len() ==> forall|k: int| 0 <= k < out@.len() ==> before(#[trigger] out@[k].0, seen@[i as int].0),
        decreases seen@.len() - i,
    {
        let (p, cell) = seen[i];
        let ghost mind_before = *mind;
        let ghost o0 = out@;
        proof {
            assert(map.on_grid(p));
            assert(!among(seen@, i as int, p)) by {
                assert forall|j: int| 0 <= j < i implies seen@[j].0 != p by {
                    assert(before(seen@[j].0, seen@[i as int].0));
                }
            }
        }
        if mind.cells[p.1][p.0] != cell {
            mind.note_cell(p, cell);
            out.push((p, cell));
        }
        proof {
            assert(seen@[i as int].0 == p);
            assert forall|q: Pos| #[trigger] map.on_grid(q) implies mind.cell(q) == (if among(seen@, i + 1, q) {
                seen_cell(map, q)
            } else {
                m0.cell(q)
            }) by {
                if q != p {
                    assert(mind.cell(q) == mind_before.cell(q));
                    if among(seen@, i + 1, q) {
                        let j = choose|j: int| 0 <= j < i + 1 && #[trigger] seen@[j].0 == q;
                        assert(among(seen@, i as int, q));
                    }
                }
            }
            assert forall|k: int| 0 <= k < out@.len() implies among(seen@, i + 1, #[trigger] out@[k].0)
                && out@[k].1 == seen_cell(map, out@[k].0) && m0.cell(out@[k].0) != out@[k].1 by {
                if k < o0.len() {
                    assert(out@[k] == o0[k]);
                    let j = choose|j: int| 0 <= j < i && #[trigger] seen@[j].0 == o0[k].0;
                }
            }
            assert forall|j: int| 0 <= j < i + 1 && m0.cell(#[trigger] seen@[j].0) != seen@[j].1 implies exists|k: int|
                0 <= k < out@.len() && #[trigger] out@[k].0 == seen@[j].0 by {
                if j < i {
                    let k = choose|k: int| 0 <= k < o0.len() && #[trigger] o0[k].0 == seen@[j].0;
                    assert(out@[k] == o0[k]);
                } else {
                    assert(out@[o0.len() as int].0 == seen@[j].0);
                }
            }
            if i + 1 < seen@.len() {
                assert(before(seen@[i as int].0, seen@[i + 1].0));
            }
        }
        i = i + 1;
    }
    out
}

/// Writes the perceived deposits on the mental map; returns those it did not
/// know of, in perception order.
fn note_deposits(seen: &Vec<(Pos, Cell)>, world: &World, mind: &mut Knowledge) -> (r: SeenResources)
    requires
        old(mind).resources.wf(),
        world.resources.wf(),
        forall|a: int, b: int| 0 <= a < b < seen@.len() ==> before(#[trigger] seen@[a].0, #[trigger] seen@[b].0),
    ensures
        final(mind).resources.wf(),
        final(mind).cells == old(mind).cells,
        forall|q: Pos| #[trigger] final(mind).resources.view().contains_key(q) <==> old(mind).resources.view().contains_key(q)
            || (among(seen@, seen@.len() as int, q) && world.resources.view().contains_key(q)),
        forall|q: Pos| #[trigger] final(mind).resources.view().contains_key(q) ==> final(mind).resources.view()[q] == (
            if old(mind).resources.view().contains_key(q) {
                old(mind).resources.view()[q]
            } else {
                world.resources.view()[q].0
            }),
        forall|k: int| 0 <= k < r@.len() ==> among(seen@, seen@.len() as int, #[trigger] r@[k].0)
            && world.resources.view().contains_key(r@[k].0) && world.resources.view()[r@[k].0].0 == r@[k].1
            && !old(mind).resources.view().contains_key(r@[k].0),
        forall|j: int| 0 <= j < seen@.len() && world.resources.view().contains_key(#[trigger] seen@[j].0)
            && !old(mind).resources.view().contains_key(seen@[j].0) ==> exists|k: int|
            0 <= k < r@.len() && #[trigger] r@[k].0 == seen@[j].0,
        forall|a: int, b: int| 0 <= a < b < r@.len() ==> before(#[trigger] r@[a].0, #[trigger] r@[b].0),
{
    let ghost m0 = *mind;
    let mut out: SeenResources = Vec::new();
    let mut i: usize = 0;
    while i < seen.len()
        invariant
            i <= seen@.len(),
            world.resources.wf(),
            mind.resources.wf(),
            mind.cells == m0.cells,
            forall|a: int, b: int| 0 <= a < b < seen@.len() ==> before(#[trigger] seen@[a].0, #[trigger] seen@[b].0),
            forall|q: Pos| #[trigger] mind.resources.view().contains_key(q) <==> m0.resources.view().contains_key(q)
                || (among(seen@, i as int, q) && world.resources.view().contains_key(q)),
            forall|q: Pos| #[trigger] mind.resources.view().contains_key(q) ==> mind.resources.view()[q] == (
                if m0.resources.view().contains_key(q) {
                    m0.resources.view()[q]
                } else {
                    world.resources.view()[q].0
                }),
            forall|k: int| 0 <= k < out@.len() ==> among(seen@, i as int, #[trigger] out@[k].0)
                && world.resources.view().contains_key(out@[k].0) && world.resources.view()[out@[k].0].0 == out@[k].1
                && !m0.resources.view().contains_key(out@[k].0),
            forall|j: int| 0 <= j < i && world.resources.view().contains_key(#[trigger] seen@[j].0)
                && !m0.resources.view().contains_key(seen@[j].0) ==> exists|k: int|
                0 <= k < out@.len() && #[trigger] out@[k].0 == seen@[j].0,
            forall|a: int, b: int| 0 <= a < b < out@.len() ==> before(#[trigger] out@[a].0, #[trigger] out@[b].0),
            i < seen@.len() ==> forall|k: int| 0 <= k < out@.len() ==> before(#[trigger] out@[k].0, seen@[i as int].0),
        decreases seen@.len() - i,
    {
        let p = seen[i].0;
        let ghost o0 = out@;
        let ghost r0 = mind.resources.view();
        proof {
            assert(seen@[i as int].0 == p);
            assert(!among(seen@, i as int, p)) by {
                assert forall|j: int| 0 <= j < i implies seen@[j].0 != p by {
                    assert(before(seen@[j].0, seen@[i as int].0));
                }
            }
        }
        if let Some(found) = world.resources.get(&p) {
            let (kind, _) = found;
            if !mind.resources.contains_key(&p) {
                mind.note_resource(p, kind);
                out.push((p, kind));
            }
        }
        proof {
            assert forall|q: Pos| #[trigger] mind.resources.view().contains_key(q) <==> m0.resources.view().contains_key(q)
                || (among(seen@, i + 1, q) && world.resources.view().contains_key(q)) by {
                if q != p {
                    assert(mind.resources.view().contains_key(q) == r0.contains_key(q));
                    if among(seen@, i + 1, q) {
                        let j = choose|j: int| 0 <= j < i + 1 && #[trigger] seen@[j].0 == q;
                        assert(among(seen@, i as int, q));
                    }
                }
            }
            assert forall|k: int| 0 <= k < out@.len() implies among(seen@, i + 1, #[trigger] out@[k].0)
                && world.resources.view().contains_key(out@[k].0) && world.resources.view()[out@[k].0].0 == out@[k].1
                && !m0.resources.view().contains_key(out@[k].0) by {
                if k < o0.len() {
                    assert(out@[k] == o0[k]);
                    let j = choose|j: int| 0 <= j < i && #[trigger] seen@[j].0 == o0[k].0;
                }
            }
            assert forall|j: int| 0 <= j < i + 1 && world.resources.view().contains_key(#[trigger] seen@[j].0)
                && !m0.resources.view().contains_key(seen@[j].0) implies exists|k: int|
                0 <= k < out@.len() && #[trigger] out@[k].0 == seen@[j].0 by {
                if j < i {
                    let k = choose|k: int| 0 <= k < o0.len() && #[trigger] o0[k].0 == seen@[j].0;
                    assert(out@[k] == o0[k]);
                } else {
                    assert(out@[o0.len() as int].0 == seen@[j].0);
                }
            }
            if i + 1 < seen@.len() {
                assert(before(seen@[i as int].0, seen@[i + 1].0));
            }
        }
        i = i + 1;
    }
    out
}

/// Sends nothing itself: the messages for the base, in sending order. What
/// was seen (and the deposits found gone) goes first, if there is anything
/// new, then the delivery, if any.
pub fn report(
    cells: SeenCells,
    resources: SeenResources,
    gone_resources: GoneResources,
    delivered: Option<ResourceKind>,
) -> (r: Vec<Report>)
    ensures
        ({
            let news = cells@.len() > 0 || resources@.len() > 0 || gone_resources@.len() > 0;
            &&& r@.len() == (if news { 1int } else { 0int }) + (if delivered is Some { 1int } else { 0int })
            &&& news ==> (r@[0] matches Report::Seen { cells: c, resources: s, gone_resources: g }
                && c@ == cells@ && s@ == resources@ && g@ == gone_resources@)
            &&& delivered matches Some(k) ==> r@[r@.len() - 1] == Report::Delivered(k)
        }),
{
    let mut out: Vec<Report> = Vec::new();
    if cells.len() > 0 || resources.len() > 0 || gone_resources.len() > 0 {
        out.push(Report::Seen { cells, resources, gone_resources });
    }
    if let Some(kind) = delivered {
        out.push(Report::Delivered(kind));
    }
    out
}

/// Takes in the fresh knowledge broadcast by the base: the cells, then the
/// deposits spotted, then the deposits found gone.
pub fn absorb_news(mind: &mut Knowledge, news: &News)
    requires
        old(mind).resources.wf(),
        forall|i: int| 0 <= i < news.cells@.len() ==> old(mind).covers(#[trigger] news.cells@[i].0),
    ensures
        final(mind).grid() == with_cells(old(mind).grid(), news.cells@),
        final(mind).cells@.len() == old(mind).cells@.len(),
        forall|y: int| 0 <= y < old(mind).cells@.len() ==> #[trigger] final(mind).cells@[y]@.len() == old(mind).cells@[y]@.len(),
        final(mind).resources.wf(),
        final(mind).resources.view() == without_deposits(
            with_deposits(old(mind).resources.view(), news.resources@),
            news.gone_resources@,
        ),
{
    mind.note_cells_in_order(&news.cells);
    mind.note_resources_in_order(&news.resources);
    mind.forget_resources_in_order(&news.gone_resources);
}

/// What the mental map lets a robot cross: anything not known to be an obstacle.
pub open spec fn allowed_by(mind: &Knowledge) -> spec_fn(Pos) -> bool {
    |p: Pos| mind.allows(p)
}

/// `t` can be reached from `pos` on the mental map.
pub open spec fn known_path(mind: &Knowledge, w: int, h: int, pos: Pos, t: Pos) -> bool {
    in_grid(t, w, h) && exists|n: nat| #[trigger] reach(allowed_by(mind), w, h, pos, n, t)
}

/// `r` is the first step of a shortest path from `pos` to `t` on the mental
/// map; among several shortest paths, that of the least route (first direction
/// in the order left, right, up, down).
pub open spec fn toward(mind: &Knowledge, w: int, h: int, pos: Pos, t: Pos, r: Pos) -> bool {
    &&& in_grid(r, w, h)
    &&& adjacent(pos, r)
    &&& mind.allows(r)
    &&& forall|n: nat| #[trigger] reach(allowed_by(mind), w, h, pos, n, t) ==> n >= 1 && reach(allowed_by(mind), w, h, r, (n - 1) as nat, t)
    &&& leads(allowed_by(mind), w, h, pos, t, r)
}

/// `r` is a random step that the mental map allows, or `pos` itself when the
/// mental map blocks every neighbour.
pub open spec fn wander(mind: &Knowledge, w: int, h: int, pos: Pos, r: Pos) -> bool {
    ||| exists|dir: int| 0 <= dir < 4 && #[trigger] neighbor(pos, dir, w, h) == Some(r) && mind.allows(r)
    ||| r == pos && forall|dir: int| 0 <= dir < 4 && (#[trigger] neighbor(pos, dir, w, h)) is Some
            ==> !mind.allows(neighbor(pos, dir, w, h)->Some_0)
}

/// `t` is a known deposit, reachable on the mental map, and no other such
/// deposit is closer (Manhattan distance) to `pos`.
pub open spec fn nearest(mind: &Knowledge, w: int, h: int, pos: Pos, t: Pos) -> bool {
    &&& mind.resources.view().contains_key(t)
    &&& known_path(mind, w, h, pos, t)
    &&& forall|u: Pos| #[trigger] mind.resources.view().contains_key(u) && known_path(mind, w, h, pos, u)
        ==> distance(pos, t) <= distance(pos, u)
}

/// The first known deposit (in the mind's order) among the closest reachable ones.
fn nearest_known(mind: &Knowledge, steps: &FirstSteps, pos: Pos) -> (r: Option<Pos>)
    requires
        mind.resources.wf(),
        steps.wf(),
        steps.width() + steps.height() <= i32::MAX,
        in_grid(pos, steps.width(), steps.height()),
        forall|u: Pos| #[trigger] steps.view().contains_key(u) ==> in_grid(u, steps.width(), steps.height()),
    ensures
        match r {
            Some(t) => mind.resources.view().contains_key(t) && steps.view().contains_key(t)
                && forall|u: Pos| #[trigger] mind.resources.view().contains_key(u) && steps.view().contains_key(u)
                    ==> distance(pos, t) <= distance(pos, u),
            None => forall|u: Pos| #[trigger] mind.resources.view().contains_key(u) ==> !steps.view().contains_key(u),
        },
{
    let keys = mind.resources.keys();
    let mut best: Option<(Pos, u32)> = None;
    let mut i: usize = 0;
    while i < keys.len()
        invariant
            i <= keys@.len(),
            mind.resources.wf(),
            steps.wf(),
            steps.width() + steps.height() <= i32::MAX,
            in_grid(pos, steps.width(), steps.height()),
            forall|u: Pos| #[trigger] steps.view().contains_key(u) ==> in_grid(u, steps.width(), steps.height()),
            forall|p: Pos| #[trigger] mind.resources.view().contains_key(p) <==> keys@.contains(p),
            match best {
                Some((t, d)) => mind.resources.view().contains_key(t) && steps.view().contains_key(t) && d == distance(t, pos)
                    && forall|j: int| 0 <= j < i && #[trigger] steps.view().contains_key(keys@[j]) ==> distance(pos, t) <= distance(pos, keys@[j]),
                None => forall|j: int| 0 <= j < i ==> !#[trigger] steps.view().contains_key(keys@[j]),
            },
        decreases keys@.len() - i,
    {
        let k = keys[i];
        assert(keys@.contains(keys@[i as int]));
        if steps.contains_key(&k) {
            let d = manhattan(k, pos);
            match best {
                None => {
                    best = Some((k, d));
                },
                Some((_, bd)) => {
                    if d < bd {
                        best = Some((k, d));
                    }
                },
            }
        }
        i = i + 1;
    }
    match best {
        Some((t, _)) => {
            proof {
                assert forall|u: Pos| #[trigger] mind.resources.view().contains_key(u) && steps.view().contains_key(u)
                    implies distance(pos, t) <= distance(pos, u) by {
                    let j = choose|j: int| 0 <= j < keys@.len() && keys@[j] == u;
                    assert(steps.view().contains_key(keys@[j]));
                }
            }
            Some(t)
        },
        None => {
            proof {
                assert forall|u: Pos| #[trigger] mind.resources.view().contains_key(u) implies !steps.view().contains_key(u) by {
                    let j = choose|j: int| 0 <= j < keys@.len() && keys@[j] == u;
                    assert(!steps.view().contains_key(keys@[j]));
                }
            }
            None
        },
    }
}

/// `r` is the cell a collector on `pos` plans to go to on its mental map:
/// the first step towards the base when carrying (if a known path leads
/// there), otherwise towards a closest reachable known deposit; with nothing
/// to aim at, a random step that the mental map allows.
pub open spec fn planned(mind: &Knowledge, map: &Terrain, pos: Pos, base: Pos, carrying: bool, r: Pos) -> bool {
    let w = map.width as int;
    let h = map.height as int;
    &&& carrying ==> if known_path(mind, w, h, pos, base) && base != pos {
        toward(mind, w, h, pos, base, r)
    } else {
        wander(mind, w, h, pos, r)
    }
    &&& !carrying ==> if exists|t: Pos| nearest(mind, w, h, pos, t) {
        exists|t: Pos| #[trigger] nearest(mind, w, h, pos, t)
            && (t != pos ==> toward(mind, w, h, pos, t, r))
            && (t == pos ==> wander(mind, w, h, pos, r))
    } else {
        wander(mind, w, h, pos, r)
    }
}

/// Decides a collector's next cell by planning on ITS mental map: back to
/// the base when carrying (if a known path leads there), otherwise towards
/// the closest reachable known deposit; with nothing to aim at, a random step
/// that avoids the obstacles it knows of.
pub fn plan_step(pos: Pos, base: Pos, carrying: bool, mind: &Knowledge, map: &Terrain, rng: &mut ThreadRng) -> (r: Pos)
    requires
        map.wf(),
        map.fits_i32(),
        map.on_grid(pos),
        mind.wf_for(map.width as int, map.height as int),
    ensures
        planned(mind, map, pos, base, carrying, r),
{
    let ghost w = map.width as int;
    let ghost h = map.height as int;
    let ghost ok = allowed_by(mind);
    let free = |p: Pos| -> (b: bool)
        requires
            mind.covers(p),
        ensures
            b == mind.allows(p),
        { mind.passable(p) };
    // Breadth-first search on the known map (the unknown is assumed passable).
    let steps = search(pos, map.width, map.height, free, Ghost(ok));
    let target: Option<Pos> = if carrying {
        // Back to the base if a known path leads there.
        if steps.contains_key(&base) {
            Some(base)
        } else {
            None
        }
    } else {
        // Otherwise the closest reachable known deposit.
        nearest_known(mind, &steps, pos)
    };
    let r = match target {
        Some(t) => {
            if t.0 != pos.0 || t.1 != pos.1 {
                match steps.get(&t) {
                    Some(s) => s,
                    None => pos,
                }
            } else {
                random_step(pos, map.width, map.height, free, rng)
            }
        },
        // Nothing to aim at: explore at random, avoiding known obstacles.
        None => random_step(pos, map.width, map.height, free, rng),
    };
    proof {
        let m = steps.view();
        if !carrying {
            match target {
                Some(t) => {
                    assert(nearest(mind, w, h, pos, t)) by {
                        assert forall|u: Pos| #[trigger] mind.resources.view().contains_key(u) && known_path(mind, w, h, pos, u)
                            implies distance(pos, t) <= distance(pos, u) by {
                            assert(m.contains_key(u));
                        }
                    }
                },
                None => {
                    assert forall|t: Pos| !nearest(mind, w, h, pos, t) by {
                        if nearest(mind, w, h, pos, t) {
                            assert(m.contains_key(t));
                        }
                    }
                },
            }
        }
    }
    r
}

/// The world lies on the map: every robot stands on it.
pub open spec fn placed(world: &World, map: &Terrain) -> bool {
    &&& world.resources.wf()
    &&& forall|i: int| 0 <= i < world.positions@.len() ==> map.on_grid(#[trigger] world.positions@[i])
}

/// A robot may stand on `p`: an open tile that no other robot occupies.
pub open spec fn free_for(map: &Terrain, occupied: Seq<Pos>, p: Pos) -> bool {
    map.is_open(p) && !occupied.contains(p)
}

/// `next` is a random step from `pos` onto a free neighbour, or `pos` itself
/// when no neighbour is free.
pub open spec fn stroll(map: &Terrain, occupied: Seq<Pos>, pos: Pos, next: Pos) -> bool {
    let w = map.width as int;
    let h = map.height as int;
    ||| exists|dir: int| 0 <= dir < 4 && #[trigger] neighbor(pos, dir, w, h) == Some(next) && free_for(map, occupied, next)
    ||| next == pos && forall|dir: int| 0 <= dir < 4 && (#[trigger] neighbor(pos, dir, w, h)) is Some
            ==> !free_for(map, occupied, neighbor(pos, dir, w, h)->Some_0)
}

/// No two robots share a cell.
pub open spec fn apart(positions: Seq<Pos>) -> bool {
    forall|i: int, j: int| 0 <= i < j < positions.len() ==> positions[i] != positions[j]
}

/// A robot that stays put, or moves onto a cell no other robot occupies,
/// keeps the robots apart.
pub proof fn lemma_move_keeps_apart(positions: Seq<Pos>, id: int, next: Pos)
    requires
        apart(positions),
        0 <= id < positions.len(),
        next == positions[id] || !positions.remove(id).contains(next),
    ensures
        apart(positions.update(id, next)),
{
    let after = positions.update(id, next);
    assert forall|i: int, j: int| 0 <= i < j < after.len() implies after[i] != after[j] by {
        if next != positions[id] {
            if i == id {
                let k = if j < id { j } else { j - 1 };
                assert(positions.remove(id)[k] == positions[j]);
            } else if j == id {
                let k = if i < id { i } else { i - 1 };
                assert(positions.remove(id)[k] == positions[i]);
            }
        }
    }
}

/// A random step that stays on open tiles no other robot occupies.
fn step_aside(pos: Pos, map: &Terrain, occupied: &Vec<Pos>, rng: &mut ThreadRng) -> (r: Pos)
    requires
        map.wf(),
        map.fits_i32(),
        map.on_grid(pos),
    ensures
        stroll(map, occupied@, pos, r),
{
    let free = |p: Pos| -> (b: bool)
        requires
            map.wf(),
            map.on_grid(p),
        ensures
            b == free_for(map, occupied@, p),
        { map.passable(p) && !holds(occupied, p) };
    random_step(pos, map.width, map.height, free, rng)
}

/// One tick of a scout, while it holds the world: it looks around (wide),
/// then walks at random onto a really free, unoccupied cell. Returns what is
/// new for the base. A scout never picks anything up.
pub fn scout_step(id: usize, map: &Terrain, world: &mut World, mind: &mut Knowledge, rng: &mut ThreadRng) -> (r: (
    SeenCells,
    SeenResources,
))
    requires
        map.wf(),
        map.fits_i32(),
        placed(old(world), map),
        id < old(world).positions@.len(),
        old(mind).wf_for(map.width as int, map.height as int),
    ensures
        ({
            let pos = old(world).positions@[id as int];
            let occupied = old(world).positions@.remove(id as int);
            &&& perceived(map, old(world).resources.view(), pos, SCOUT_VISION as int, *old(mind), *final(mind), r.0@, r.1@)
            &&& final(mind).resources.view() == sighted(old(mind).resources.view(), old(world).resources.view(), map, pos, SCOUT_VISION as int)
            &&& final(world).resources == old(world).resources
            &&& final(world).positions@ == old(world).positions@.update(id as int, final(world).positions@[id as int])
            &&& stroll(map, occupied, pos, final(world).positions@[id as int])
            &&& placed(final(world), map)
            &&& apart(old(world).positions@) ==> apart(final(world).positions@)
        }),
{
    let pos = world.positions[id];
    let occupied = others(&world.positions, id);
    // Looks around and keeps only what is new.
    let (cells, res) = perceive(pos, map, world, SCOUT_VISION, mind);
    // Walks onto a cell that is really free and unoccupied.
    let next = step_aside(pos, map, &occupied, rng);
    world.positions.set(id, next);
    proof {
        assert(map.on_grid(next)) by {
            if next != pos {
                let d = choose|d: int| 0 <= d < 4 && #[trigger] neighbor(pos, d, map.width as int, map.height as int) == Some(next) && free_for(map, occupied@, next);
            }
        }
        if apart(old(world).positions@) {
            lemma_move_keeps_apart(old(world).positions@, id as int, next);
        }
    }
    (cells, res)
}

/// The stock of the deposit at `pos` after one unit is taken: the deposit
/// goes when its last unit does.
pub open spec fn taken_one(deposits: Map<Pos, (ResourceKind, u32)>, pos: Pos) -> Map<Pos, (ResourceKind, u32)> {
    if deposits[pos].1 == 1 {
        deposits.remove(pos)
    } else {
        deposits.insert(pos, (deposits[pos].0, (deposits[pos].1 - 1) as u32))
    }
}

/// Taking one unit from the deposit at `pos` lowers its quantity by one,
/// keeping its kind, or removes it when that was its last unit; every other
/// deposit stays as it was.
pub proof fn lemma_taken_one_reads(deposits: Map<Pos, (ResourceKind, u32)>, pos: Pos, q: Pos)
    requires
        deposits.contains_key(pos),
        deposits[pos].1 > 0,
    ensures
        taken_one(deposits, pos).contains_key(pos) == (deposits[pos].1 > 1),
        deposits[pos].1 > 1 ==> taken_one(deposits, pos)[pos].0 == deposits[pos].0
            && taken_one(deposits, pos)[pos].1 + 1 == deposits[pos].1,
        q != pos ==> taken_one(deposits, pos).contains_key(q) == deposits.contains_key(q),
        q != pos && deposits.contains_key(q) ==> taken_one(deposits, pos)[q] == deposits[q],
{
}

/// Taking one unit from a deposit takes exactly one unit of its kind out of
/// the world, and none of any other kind.
pub proof fn lemma_take_one_unit(deposits: Map<Pos, (ResourceKind, u32)>, pos: Pos, k: ResourceKind)
    requires
        deposits.dom().finite(),
        deposits.contains_key(pos),
        deposits[pos].1 > 0,
    ensures
        units_of(taken_one(deposits, pos), k) + (if deposits[pos].0 == k { 1int } else { 0int }) == units_of(deposits, k),
{
    broadcast use vstd::set::group_set_axioms;
    broadcast use vstd::map::group_map_axioms;
    lemma_units_split(deposits, pos, k);
    if deposits[pos].1 != 1 {
        let after = taken_one(deposits, pos);
        assert(after.dom() == deposits.dom());
        lemma_units_split(after, pos, k);
        assert(after.remove(pos) =~= deposits.remove(pos));
    }
}

/// Every deposit in the world holds at least one unit.
pub open spec fn stocked(deposits: Map<Pos, (ResourceKind, u32)>) -> bool {
    forall|p: Pos| #[trigger] deposits.contains_key(p) ==> deposits[p].1 > 0
}

/// A collector standing on `pos` acts this tick: it unloads on the base, or
/// picks up from a deposit with empty hands.
pub open spec fn acts(map: &Terrain, pos: Pos, deposits: Map<Pos, (ResourceKind, u32)>, carrying: Option<ResourceKind>) -> bool {
    ||| carrying is Some && pos == map.base
    ||| carrying is None && deposits.contains_key(pos) && deposits[pos].1 > 0
}

/// What a collector's act does, given what it carried (`c0`), the world's
/// deposits and its known deposits once it has looked around (`seen`):
/// what it then carries (`c1`), the world's deposits (`after`), the deposits
/// it knows (`known`), the deposits it reports gone, and what it delivered.
pub open spec fn outcome(
    map: &Terrain,
    pos: Pos,
    deposits: Map<Pos, (ResourceKind, u32)>,
    seen: Map<Pos, ResourceKind>,
    c0: Option<ResourceKind>,
    c1: Option<ResourceKind>,
    after: Map<Pos, (ResourceKind, u32)>,
    known: Map<Pos, ResourceKind>,
    gone: Seq<Pos>,
    delivered: Option<ResourceKind>,
) -> bool {
    if c0 is Some && pos == map.base {
        // Unloads at the base.
        &&& delivered == c0
        &&& c1 == None::<ResourceKind>
        &&& gone.len() == 0
        &&& after == deposits
        &&& known == seen
    } else if c0 is None && deposits.contains_key(pos) && deposits[pos].1 > 0 {
        // Picks up one unit.
        &&& delivered == None::<ResourceKind>
        &&& c1 == Some(deposits[pos].0)
        &&& gone.len() == 0
        &&& after == taken_one(deposits, pos)
        &&& known == seen
    } else if c0 is None {
        // Nothing left here: forgets this deposit so as not to come back,
        // and reports it gone if it knew of it.
        &&& delivered == None::<ResourceKind>
        &&& c1 == None::<ResourceKind>
        &&& gone == (if seen.contains_key(pos) { seq![pos] } else { Seq::<Pos>::empty() })
        &&& after == deposits
        &&& known == seen.remove(pos)
    } else {
        &&& delivered == None::<ResourceKind>
        &&& c1 == c0
        &&& gone.len() == 0
        &&& after == deposits
        &&& known == seen
    }
}

/// First half of a collector's tick, while it holds the world: it looks
/// around (at 1), then drops its load if it stands on the base, or picks one
/// unit up if it stands on a deposit with empty hands (forgetting the deposit,
/// and telling the base it is gone, when nothing is left there). Returns its
/// position, what is new for the base (cells, deposits, deposits gone), what
/// it delivered, and whether it acted (then it does not move this tick).
pub fn collector_act(
    id: usize,
    map: &Terrain,
    world: &mut World,
    mind: &mut Knowledge,
    carrying: &mut Option<ResourceKind>,
) -> (r: (Pos, SeenCells, SeenResources, GoneResources, Option<ResourceKind>, bool))
    requires
        map.wf(),
        map.fits_i32(),
        placed(old(world), map),
        id < old(world).positions@.len(),
        old(mind).wf_for(map.width as int, map.height as int),
    ensures
        ({
            let pos = old(world).positions@[id as int];
            let deposits = old(world).resources.view();
            let seen = sighted(old(mind).resources.view(), deposits, map, pos, 1);
            &&& r.0 == pos
            &&& final(world).positions == old(world).positions
            // No unit is created or lost, kind by kind: it is in the world,
            // carried, or delivered.
            &&& forall|k: ResourceKind| #[trigger] units_of(final(world).resources.view(), k)
                + (if *final(carrying) == Some(k) { 1int } else { 0int })
                + (if r.4 == Some(k) { 1int } else { 0int })
                == units_of(deposits, k) + (if *old(carrying) == Some(k) { 1int } else { 0int })
            &&& final(world).resources.wf()
            &&& perceived(map, deposits, pos, 1, *old(mind), *final(mind), r.1@, r.2@)
            &&& stocked(deposits) ==> stocked(final(world).resources.view())
            &&& r.5 == acts(map, pos, deposits, *old(carrying))
            &&& outcome(map, pos, deposits, seen, *old(carrying), *final(carrying), final(world).resources.view(),
                final(mind).resources.view(), r.3@, r.4)
        }),
{
    let pos = world.positions[id];
    proof {
        world.resources.lemma_finite();
    }
    let (cells, res) = perceive(pos, map, world, 1, mind);
    let mut gone: GoneResources = Vec::new();
    let mut delivered: Option<ResourceKind> = None;
    let acted: bool;
    if carrying.is_some() && pos.0 == map.base.0 && pos.1 == map.base.1 {
        // Unloads at the base.
        delivered = *carrying;
        *carrying = None;
        acted = true;
    } else if carrying.is_none() {
        let found = world.resources.get(&pos);
        let has_units = match found {
            Some((_, qty)) => qty > 0,
            None => false,
        };
        if has_units {
            let (kind, qty) = found.unwrap();
            let ghost before = world.resources.view();
            // Picks up one unit; removes the deposit once it is empty.
            if qty == 1 {
                world.resources.remove(&pos);
            } else {
                world.resources.insert(pos, (kind, qty - 1));
            }
            *carrying = Some(kind);
            acted = true;
            proof {
                assert(world.resources.view() == taken_one(before, pos));
                assert forall|k: ResourceKind| #[trigger] units_of(world.resources.view(), k)
                    + (if *carrying == Some(k) { 1int } else { 0int }) == units_of(before, k) by {
                    lemma_take_one_unit(before, pos, k);
                }
            }
        } else {
            // Nothing left here: forgets this deposit so as not to come back,
            // and lets the base know.
            if mind.resources.contains_key(&pos) {
                gone.push(pos);
            }
            mind.forget_resource(&pos);
            acted = false;
        }
    } else {
        acted = false;
    }
    (pos, cells, res, gone, delivered, acted)
}

/// Second half of a collector's tick, when it did not act: it goes to the
/// planned cell if that cell is really open and unoccupied, and otherwise
/// takes a small free step so as not to get stuck.
pub fn collector_move(id: usize, next: Pos, map: &Terrain, world: &mut World, rng: &mut ThreadRng)
    requires
        map.wf(),
        map.fits_i32(),
        placed(old(world), map),
        id < old(world).positions@.len(),
        map.on_grid(next),
    ensures
        ({
            let pos = old(world).positions@[id as int];
            let occupied = old(world).positions@.remove(id as int);
            let go = final(world).positions@[id as int];
            &&& final(world).resources == old(world).resources
            &&& final(world).positions@ == old(world).positions@.update(id as int, go)
            &&& if free_for(map, occupied, next) { go == next } else { stroll(map, occupied, pos, go) }
            &&& placed(final(world), map)
            &&& apart(old(world).positions@) ==> apart(final(world).positions@)
        }),
{
    let pos = world.positions[id];
    let occupied = others(&world.positions, id);
    let go = if map.passable(next) && !holds(&occupied, next) {
        next
    } else {
        // Target walled off or occupied: a small free step so as not to get stuck.
        step_aside(pos, map, &occupied, rng)
    };
    world.positions.set(id, go);
    proof {
        assert(map.on_grid(go)) by {
            if go != pos && go != next {
                let d = choose|d: int| 0 <= d < 4 && #[trigger] neighbor(pos, d, map.width as int, map.height as int) == Some(go) && free_for(map, occupied@, go);
            }
        }
        if apart(old(world).positions@) {
            if go != next {
                assert(go == pos || !occupied@.contains(go)) by {
                    if go != pos {
                        let d = choose|d: int| 0 <= d < 4 && #[trigger] neighbor(pos, d, map.width as int, map.height as int) == Some(go) && free_for(map, occupied@, go);
                    }
                }
            }
            lemma_move_keeps_apart(old(world).positions@, id as int, go);
        }
    }
}

/// A whole collector tick: it acts (drops its load at the base, or picks one
/// unit up), and only when it did not act plans on its own mental map and
/// moves. Returns what is new for the base (cells, deposits, deposits gone)
/// and what it delivered.
pub fn collector_tick(
    id: usize,
    map: &Terrain,
    world: &mut World,
    mind: &mut Knowledge,
    carrying: &mut Option<ResourceKind>,
    rng: &mut ThreadRng,
) -> (r: (SeenCells, SeenResources, GoneResources, Option<ResourceKind>))
    requires
        map.wf(),
        map.fits_i32(),
        placed(old(world), map),
        id < old(world).positions@.len(),
        old(mind).wf_for(map.width as int, map.height as int),
    ensures
        ({
            let pos = old(world).positions@[id as int];
            let occupied = old(world).positions@.remove(id as int);
            let go = final(world).positions@[id as int];
            let deposits = old(world).resources.view();
            let seen = sighted(old(mind).resources.view(), deposits, map, pos, 1);
            &&& final(world).positions@ == old(world).positions@.update(id as int, go)
            &&& perceived(map, deposits, pos, 1, *old(mind), *final(mind), r.0@, r.1@)
            &&& outcome(map, pos, deposits, seen, *old(carrying), *final(carrying), final(world).resources.view(),
                final(mind).resources.view(), r.2@, r.3)
            &&& if acts(map, pos, deposits, *old(carrying)) {
                go == pos
            } else {
                exists|next: Pos| #[trigger] planned(final(mind), map, pos, map.base, (*final(carrying)) is Some, next)
                    && if free_for(map, occupied, next) { go == next } else { stroll(map, occupied, pos, go) }
            }
            &&& go == pos || (adjacent(pos, go) && free_for(map, occupied, go))
            &&& stocked(deposits) ==> stocked(final(world).resources.view())
            &&& placed(final(world), map)
            &&& apart(old(world).positions@) ==> apart(final(world).positions@)
            &&& forall|k: ResourceKind| #[trigger] units_of(final(world).resources.view(), k)
                + (if *final(carrying) == Some(k) { 1int } else { 0int })
                + (if r.3 == Some(k) { 1int } else { 0int })
                == units_of(old(world).resources.view(), k) + (if *old(carrying) == Some(k) { 1int } else { 0int })
        }),
{
    let ghost w0 = *world;
    let ghost c0 = *carrying;
    let (pos, cells, res, gone, delivered, acted) = collector_act(id, map, world, mind, carrying);
    let ghost w1 = *world;
    let ghost c1 = *carrying;
    proof {
        w1.resources.lemma_finite();
    }
    if !acted {
        let next = plan_step(pos, map.base, carrying.is_some(), mind, map, rng);
        proof {
            let wd = map.width as int;
            let ht = map.height as int;
            assert(next == pos || (in_grid(next, wd, ht) && adjacent(pos, next))) by {
                if exists|dir: int| 0 <= dir < 4 && #[trigger] neighbor(pos, dir, wd, ht) == Some(next) && mind.allows(next) {
                    let dir = choose|dir: int| 0 <= dir < 4 && #[trigger] neighbor(pos, dir, wd, ht) == Some(next) && mind.allows(next);
                    lemma_neighbors(pos, next, wd, ht);
                }
            }
        }
        collector_move(id, next, map, world, rng);
        proof {
            let wd = map.width as int;
            let ht = map.height as int;
            let occupied = w0.positions@.remove(id as int);
            let go = world.positions@[id as int];
            if go != pos && go != next {
                let d = choose|d: int| 0 <= d < 4 && #[trigger] neighbor(pos, d, wd, ht) == Some(go) && free_for(map, occupied, go);
                lemma_neighbors(pos, go, wd, ht);
            }
        }
    }
    (cells, res, gone, delivered)
}

/// How many robots carry a unit of kind `k`.
pub open spec fn held(carrying: Seq<Option<ResourceKind>>, k: ResourceKind) -> nat
    decreases carrying.len(),
{
    if carrying.len() == 0 {
        0
    } else {
        held(carrying.drop_last(), k) + (if carrying.last() == Some(k) { 1nat } else { 0nat })
    }
}

/// The units of kind `k` in the world, in the robots' hands, and delivered.
pub open spec fn ledger(
    deposits: Map<Pos, (ResourceKind, u32)>,
    carrying: Seq<Option<ResourceKind>>,
    delivered: int,
    k: ResourceKind,
) -> int {
    units_of(deposits, k) + held(carrying, k) + delivered
}

proof fn lemma_held_update(carrying: Seq<Option<ResourceKind>>, id: int, c: Option<ResourceKind>, k: ResourceKind)
    requires
        0 <= id < carrying.len(),
    ensures
        held(carrying.update(id, c), k) + (if carrying[id] == Some(k) { 1int } else { 0int })
            == held(carrying, k) + (if c == Some(k) { 1int } else { 0int }),
    decreases carrying.len(),
{
    let after = carrying.update(id, c);
    if id == carrying.len() - 1 {
        assert(after.drop_last() =~= carrying.drop_last());
    } else {
        lemma_held_update(carrying.drop_last(), id, c, k);
        assert(after.drop_last() =~= carrying.drop_last().update(id, c));
    }
}

/// One robot's tick that keeps its own count, kind by kind (what stays in the
/// world, what it carries, what it delivers, as a collector's tick does; a
/// scout's tick changes none of them), keeps the count of the whole
/// simulation: over any sequence of ticks, no unit is created or lost.
pub proof fn lemma_tick_keeps_ledger(
    before: Map<Pos, (ResourceKind, u32)>,
    after: Map<Pos, (ResourceKind, u32)>,
    carrying: Seq<Option<ResourceKind>>,
    id: int,
    now: Option<ResourceKind>,
    out: Option<ResourceKind>,
    delivered: int,
    k: ResourceKind,
)
    requires
        0 <= id < carrying.len(),
        units_of(after, k) + (if now == Some(k) { 1int } else { 0int }) + (if out == Some(k) { 1int } else { 0int })
            == units_of(before, k) + (if carrying[id] == Some(k) { 1int } else { 0int }),
    ensures
        ledger(after, carrying.update(id, now), delivered + (if out == Some(k) { 1int } else { 0int }), k)
            == ledger(before, carrying, delivered, k),
{
    lemma_held_update(carrying, id, now, k);
}

/// Looking around `pos` with radius `radius` shows the robot every cell of the
/// map in the square around it, in every direction: each such cell then holds
/// its real terrain in the mind (obstacle or free), each deposit there is
/// known (of its real kind when it was not known before), and whatever was new
/// is reported.
pub proof fn lemma_perceive_sees_square(
    map: &Terrain,
    deposits: Map<Pos, (ResourceKind, u32)>,
    pos: Pos,
    radius: int,
    mind: Knowledge,
    mind2: Knowledge,
    cells: Seq<(Pos, Cell)>,
    found: Seq<(Pos, ResourceKind)>,
    p: Pos,
)
    requires
        perceived(map, deposits, pos, radius, mind, mind2, cells, found),
        mind2.resources.view() == sighted(mind.resources.view(), deposits, map, pos, radius),
        p.0 < map.width,
        p.1 < map.height,
        pos.0 - radius <= p.0 <= pos.0 + radius,
        pos.1 - radius <= p.1 <= pos.1 + radius,
    ensures
        mind2.cells@[p.1 as int]@[p.0 as int] == (if map.tiles@[p.1 as int]@[p.0 as int] == Tile::Obstacle {
            Cell::Obstacle
        } else {
            Cell::Free
        }),
        deposits.contains_key(p) ==> mind2.resources.view().contains_key(p),
        deposits.contains_key(p) && !mind.resources.view().contains_key(p) ==> mind2.resources.view()[p] == deposits[p].0
            && exists|i: int| 0 <= i < found.len() && #[trigger] found[i].0 == p,
        mind.cells@[p.1 as int]@[p.0 as int] != mind2.cells@[p.1 as int]@[p.0 as int] ==> exists|i: int|
            0 <= i < cells.len() && #[trigger] cells[i].0 == p,
{
    assert(map.on_grid(p));
    assert(in_view(map, pos, radius, p));
}

/// A collector that carries nothing and knows of a deposit it can reach on
/// its mental map heads for a known reachable deposit at least as close to its
/// own position (Manhattan distance) as every other one: it steps towards it,
/// or, standing on it, takes a step it allows.
pub proof fn lemma_plan_targets_nearest(mind: &Knowledge, map: &Terrain, pos: Pos, base: Pos, r: Pos, u: Pos)
    requires
        planned(mind, map, pos, base, false, r),
        mind.resources.view().contains_key(u),
        known_path(mind, map.width as int, map.height as int, pos, u),
    ensures
        exists|t: Pos| {
            &&& #[trigger] mind.resources.view().contains_key(t)
            &&& known_path(mind, map.width as int, map.height as int, pos, t)
            &&& forall|v: Pos| mind.resources.view().contains_key(v) && known_path(mind, map.width as int, map.height as int, pos, v)
                ==> (if t.0 >= pos.0 { t.0 - pos.0 } else { pos.0 - t.0 }) + (if t.1 >= pos.1 { t.1 - pos.1 } else { pos.1 - t.1 })
                    <= (if v.0 >= pos.0 { v.0 - pos.0 } else { pos.0 - v.0 }) + (if v.1 >= pos.1 { v.1 - pos.1 } else { pos.1 - v.1 })
            &&& t != pos ==> toward(mind, map.width as int, map.height as int, pos, t, r)
            &&& t == pos ==> wander(mind, map.width as int, map.height as int, pos, r)
        },
{
    let w = map.width as int;
    let h = map.height as int;
    lemma_nearest_exists(mind, w, h, pos, u);
    let t = choose|t: Pos| #[trigger] nearest(mind, w, h, pos, t)
        && (t != pos ==> toward(mind, w, h, pos, t, r))
        && (t == pos ==> wander(mind, w, h, pos, r));
    assert forall|v: Pos| mind.resources.view().contains_key(v) && known_path(mind, w, h, pos, v)
        implies (if t.0 >= pos.0 { t.0 - pos.0 } else { pos.0 - t.0 }) + (if t.1 >= pos.1 { t.1 - pos.1 } else { pos.1 - t.1 })
            <= (if v.0 >= pos.0 { v.0 - pos.0 } else { pos.0 - v.0 }) + (if v.1 >= pos.1 { v.1 - pos.1 } else { pos.1 - v.1 }) by {
        assert(distance(pos, t) <= distance(pos, v));
    }
    assert(mind.resources.view().contains_key(t));
}

/// Some known reachable deposit is nearest, as soon as one is known.
proof fn lemma_nearest_exists(mind: &Knowledge, w: int, h: int, pos: Pos, u: Pos)
    requires
        mind.resources.view().contains_key(u),
        known_path(mind, w, h, pos, u),
    ensures
        exists|t: Pos| nearest(mind, w, h, pos, t),
    decreases distance(pos, u),
{
    if !nearest(mind, w, h, pos, u) {
        let v = choose|v: Pos| #[trigger] mind.resources.view().contains_key(v) && known_path(mind, w, h, pos, v)
            && !(distance(pos, u) <= distance(pos, v));
        lemma_nearest_exists(mind, w, h, pos, v);
    }
}

} // verus!

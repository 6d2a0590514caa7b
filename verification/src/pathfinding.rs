//! Navigation: random walk and breadth-first search of "first steps".
//!
//! Both functions take a closure that decides whether a cell can be used, so
//! they serve on the real terrain (to move) as well as on a robot's mental map
//! (to plan).

use crate::chance::shuffle;
use crate::world::{adjacent, distance, in_grid, Pos};
use rand::rngs::ThreadRng;
use vstd::prelude::*;

verus! {

/// The neighbour of `p` in direction `dir` (0: left, 1: right, 2: up,
/// 3: down), when it lies on the `w` x `h` grid.
pub open spec fn neighbor(p: Pos, dir: int, w: int, h: int) -> Option<Pos> {
    let c: (int, int) = if dir == 0 {
        (p.0 - 1, p.1 as int)
    } else if dir == 1 {
        (p.0 + 1, p.1 as int)
    } else if dir == 2 {
        (p.0 as int, p.1 - 1)
    } else {
        (p.0 as int, p.1 + 1)
    };
    if 0 <= dir < 4 && 0 <= c.0 < w && 0 <= c.1 < h {
        Some((c.0 as usize, c.1 as usize))
    } else {
        None
    }
}

/// The neighbours of a cell are exactly the adjacent cells on the grid.
pub proof fn lemma_neighbors(p: Pos, q: Pos, w: int, h: int)
    requires
        0 <= w <= usize::MAX,
        0 <= h <= usize::MAX,
    ensures
        (in_grid(q, w, h) && adjacent(p, q)) <==> exists|dir: int|
            0 <= dir < 4 && #[trigger] neighbor(p, dir, w, h) == Some(q),
{
    if in_grid(q, w, h) && adjacent(p, q) {
        if q.0 + 1 == p.0 {
            assert(neighbor(p, 0, w, h) == Some(q));
        } else if p.0 + 1 == q.0 {
            assert(neighbor(p, 1, w, h) == Some(q));
        } else if q.1 + 1 == p.1 {
            assert(neighbor(p, 2, w, h) == Some(q));
        } else {
            assert(neighbor(p, 3, w, h) == Some(q));
        }
    }
    if exists|dir: int| 0 <= dir < 4 && #[trigger] neighbor(p, dir, w, h) == Some(q) {
        let dir = choose|dir: int| 0 <= dir < 4 && #[trigger] neighbor(p, dir, w, h) == Some(q);
        if dir == 0 {
            assert(q == ((p.0 - 1) as usize, p.1));
        } else if dir == 1 {
            assert(q == ((p.0 + 1) as usize, p.1));
        } else if dir == 2 {
            assert(q == (p.0, (p.1 - 1) as usize));
        } else {
            assert(q == (p.0, (p.1 + 1) as usize));
        }
    }
}

/// The neighbour of `p` in direction `dir` (left, right, up, down): `None`
/// when it leaves the grid.
fn neighbor_of(p: Pos, dir: usize, width: usize, height: usize) -> (r: Option<Pos>)
    requires
        dir < 4,
        p.0 < i32::MAX,
        p.1 < i32::MAX,
    ensures
        r == neighbor(p, dir as int, width as int, height as int),
{
    let (x, y) = p;
    if dir == 0 {
        if x >= 1 && x - 1 < width && y < height {
            Some((x - 1, y))
        } else {
            None
        }
    } else if dir == 1 {
        if x + 1 < width && y < height {
            Some((x + 1, y))
        } else {
            None
        }
    } else if dir == 2 {
        if y >= 1 && x < width && y - 1 < height {
            Some((x, y - 1))
        } else {
            None
        }
    } else {
        if x < width && y + 1 < height {
            Some((x, y + 1))
        } else {
            None
        }
    }
}

/// Random step towards a neighbouring cell `c` for which `free(c)` holds. If no
/// neighbour is free, the robot stays where it is (returns `from`).
pub fn random_step<F: Fn(Pos) -> bool>(
    from: Pos,
    width: usize,
    height: usize,
    free: F,
    rng: &mut ThreadRng,
) -> (r: Pos)
    requires
        from.0 < i32::MAX,
        from.1 < i32::MAX,
        forall|p: Pos| in_grid(p, width as int, height as int) ==> call_requires(free, (p,)),
    ensures
        ({
            ||| exists|dir: int|
                0 <= dir < 4 && #[trigger] neighbor(from, dir, width as int, height as int)
                    == Some(r) && call_ensures(free, (r,), true)
            ||| r == from && forall|dir: int|
                0 <= dir < 4 && (#[trigger] neighbor(from, dir, width as int, height as int)) is Some
                    ==> call_ensures(free, (neighbor(from, dir, width as int, height as int)->Some_0,), false)
        }),
{
    let mut dirs: Vec<usize> = Vec::new();
    dirs.push(0);
    dirs.push(1);
    dirs.push(2);
    dirs.push(3);
    let ghost order = dirs@;
    assert(order =~= seq![0usize, 1, 2, 3]);
    shuffle(&mut dirs, rng);
    proof {
        broadcast use vstd::seq_lib::group_to_multiset_ensures;
        assert forall|d: usize| d < 4 implies dirs@.contains(d) by {
            assert(order[d as int] == d);
            assert(order.contains(d));
            assert(order.to_multiset().count(d) > 0);
            assert(dirs@.to_multiset().count(d) > 0);
        }
        assert forall|i: int| 0 <= i < 4 implies #[trigger] dirs@[i] < 4 by {
            assert(dirs@.contains(dirs@[i]));
            assert(dirs@.to_multiset().count(dirs@[i]) > 0);
            assert(order.to_multiset().count(dirs@[i]) > 0);
            assert(order.contains(dirs@[i]));
        }
    }
    let r = first_free_in_order(from, width, height, free, &dirs);
    proof {
        let w = width as int;
        let h = height as int;
        if exists|k: int| 0 <= k < dirs@.len() && #[trigger] neighbor(from, dirs@[k] as int, w, h) == Some(r)
            && call_ensures(free, (r,), true) {
            let k = choose|k: int| 0 <= k < dirs@.len() && #[trigger] neighbor(from, dirs@[k] as int, w, h) == Some(r)
                && call_ensures(free, (r,), true);
            assert(neighbor(from, dirs@[k] as int, w, h) == Some(r));
        } else {
            assert forall|dir: int| 0 <= dir < 4 && (#[trigger] neighbor(from, dir, w, h)) is Some
                implies call_ensures(free, (neighbor(from, dir, w, h)->Some_0,), false) by {
                assert(dirs@.contains(dir as usize));
                let k = choose|k: int| 0 <= k < 4 && dirs@[k] == dir as usize;
                assert(neighbor(from, dirs@[k] as int, w, h) is Some);
            }
        }
    }
    r
}

/// The first neighbour of `from` in the directions of `order`, taken in turn,
/// for which `free` answers `true`; `from` itself when there is none.
pub fn first_free_in_order<F: Fn(Pos) -> bool>(
    from: Pos,
    width: usize,
    height: usize,
    free: F,
    order: &Vec<usize>,
) -> (r: Pos)
    requires
        from.0 < i32::MAX,
        from.1 < i32::MAX,
        forall|k: int| 0 <= k < order@.len() ==> #[trigger] order@[k] < 4,
        forall|p: Pos| in_grid(p, width as int, height as int) ==> call_requires(free, (p,)),
    ensures
        ({
            let w = width as int;
            let h = height as int;
            ||| exists|k: int| 0 <= k < order@.len() && #[trigger] neighbor(from, order@[k] as int, w, h) == Some(r)
                && call_ensures(free, (r,), true)
                && forall|j: int| 0 <= j < k && (#[trigger] neighbor(from, order@[j] as int, w, h)) is Some
                    ==> call_ensures(free, (neighbor(from, order@[j] as int, w, h)->Some_0,), false)
            ||| r == from && forall|j: int| 0 <= j < order@.len() && (#[trigger] neighbor(from, order@[j] as int, w, h)) is Some
                ==> call_ensures(free, (neighbor(from, order@[j] as int, w, h)->Some_0,), false)
        }),
{
    let mut i: usize = 0;
    while i < order.len()
        invariant
            i <= order@.len(),
            from.0 < i32::MAX,
            from.1 < i32::MAX,
            forall|k: int| 0 <= k < order@.len() ==> #[trigger] order@[k] < 4,
            forall|p: Pos| in_grid(p, width as int, height as int) ==> call_requires(free, (p,)),
            forall|j: int|
                0 <= j < i && (#[trigger] neighbor(from, order@[j] as int, width as int, height as int)) is Some
                    ==> call_ensures(free, (neighbor(from, order@[j] as int, width as int, height as int)->Some_0,), false),
        decreases order@.len() - i,
    {
        let d = order[i];
        match neighbor_of(from, d, width, height) {
            Some(np) => {
                assert(in_grid(np, width as int, height as int));
                let ok = free(np);
                if ok {
                    assert(neighbor(from, order@[i as int] as int, width as int, height as int) == Some(np));
                    return np;
                }
            },
            None => {},
        }
        i = i + 1;
    }
    from
}

/// `p` can be reached from `src` in at most `n` steps, each step going to an
/// adjacent cell of the grid that `ok` accepts (`src` itself need not be
/// accepted).
pub open spec fn reach(ok: spec_fn(Pos) -> bool, w: int, h: int, src: Pos, n: nat, p: Pos) -> bool
    decreases n,
{
    if n == 0 {
        p == src
    } else {
        ||| reach(ok, w, h, src, (n - 1) as nat, p)
        ||| in_grid(p, w, h) && ok(p) && exists|q: Pos|
            #[trigger] adjacent(q, p) && reach(ok, w, h, src, (n - 1) as nat, q)
    }
}

/// Where following the directions `s` from `src` leads, each step going to the
/// neighbour in that direction (0: left, 1: right, 2: up, 3: down) on the grid,
/// which `ok` must accept; `None` when a step leaves the grid or is refused.
pub open spec fn walk(ok: spec_fn(Pos) -> bool, w: int, h: int, src: Pos, s: Seq<int>) -> Option<Pos>
    decreases s.len(),
{
    if s.len() == 0 {
        Some(src)
    } else {
        match walk(ok, w, h, src, s.drop_last()) {
            Some(q) => match neighbor(q, s.last(), w, h) {
                Some(n) => if ok(n) { Some(n) } else { None },
                None => None,
            },
            None => None,
        }
    }
}

/// `a` comes before `b` in dictionary order (at the first place where they differ).
pub open spec fn lex_lt(a: Seq<int>, b: Seq<int>) -> bool {
    exists|i: int| 0 <= i < a.len() && i < b.len() && #[trigger] a.take(i) == b.take(i) && a[i] < b[i]
}

/// Shorter sequences first, then dictionary order.
pub open spec fn shortlex_lt(a: Seq<int>, b: Seq<int>) -> bool {
    a.len() < b.len() || (a.len() == b.len() && lex_lt(a, b))
}

/// `key` is the least (shortest, then first in direction order) list of
/// directions that leads from `from` to `p`.
pub open spec fn least_route(ok: spec_fn(Pos) -> bool, w: int, h: int, from: Pos, p: Pos, key: Seq<int>) -> bool {
    &&& walk(ok, w, h, from, key) == Some(p)
    &&& forall|s: Seq<int>| #[trigger] walk(ok, w, h, from, s) == Some(p) ==> !shortlex_lt(s, key)
}

/// `r` is the first cell of the least route from `from` to `p`.
pub open spec fn leads(ok: spec_fn(Pos) -> bool, w: int, h: int, from: Pos, p: Pos, r: Pos) -> bool {
    exists|key: Seq<int>| #[trigger] least_route(ok, w, h, from, p, key) && key.len() >= 1
        && walk(ok, w, h, from, key.take(1)) == Some(r)
}

proof fn lemma_first_diff(a: Seq<int>, b: Seq<int>, n: int)
    requires
        0 <= n <= a.len(),
        n <= b.len(),
        a.take(n) != b.take(n),
    ensures
        exists|i: int| 0 <= i < n && #[trigger] a.take(i) == b.take(i) && a[i] != b[i],
    decreases n,
{
    if n == 0 {
        assert(a.take(0) =~= b.take(0));
    } else if a.take(n - 1) != b.take(n - 1) {
        lemma_first_diff(a, b, n - 1);
        let i = choose|i: int| 0 <= i < n - 1 && #[trigger] a.take(i) == b.take(i) && a[i] != b[i];
    } else {
        if a[n - 1] == b[n - 1] {
            assert(a.take(n) =~= b.take(n)) by {
                assert forall|j: int| 0 <= j < n implies a.take(n)[j] == b.take(n)[j] by {
                    if j < n - 1 {
                        assert(a.take(n - 1)[j] == b.take(n - 1)[j]);
                    }
                }
            }
        }
        assert(a.take(n - 1) == b.take(n - 1) && a[n - 1] != b[n - 1]);
    }
}

/// Shortlex is a strict total order.
pub proof fn lemma_shortlex_order(a: Seq<int>, b: Seq<int>, c: Seq<int>)
    ensures
        !shortlex_lt(a, a),
        shortlex_lt(a, b) && shortlex_lt(b, c) ==> shortlex_lt(a, c),
        a != b ==> shortlex_lt(a, b) || shortlex_lt(b, a),
{
    if shortlex_lt(a, b) && shortlex_lt(b, c) && a.len() == b.len() && b.len() == c.len() {
        let i = choose|i: int| 0 <= i < a.len() && i < b.len() && #[trigger] a.take(i) == b.take(i) && a[i] < b[i];
        let j = choose|j: int| 0 <= j < b.len() && j < c.len() && #[trigger] b.take(j) == c.take(j) && b[j] < c[j];
        if i < j {
            assert(b.take(j)[i] == c.take(j)[i]);
            assert(b.take(j).take(i) =~= b.take(i));
            assert(c.take(j).take(i) =~= c.take(i));
            assert(a.take(i) == c.take(i));
        } else if j < i {
            assert(a.take(i)[j] == b.take(i)[j]);
            assert(a.take(i).take(j) =~= a.take(j));
            assert(b.take(i).take(j) =~= b.take(j));
            assert(a.take(j) == c.take(j));
        } else {
            assert(a.take(i) == c.take(i));
        }
    }
    if a != b && a.len() == b.len() {
        assert(a.take(a.len() as int) =~= a);
        assert(b.take(b.len() as int) =~= b);
        lemma_first_diff(a, b, a.len() as int);
        let i = choose|i: int| 0 <= i < a.len() && #[trigger] a.take(i) == b.take(i) && a[i] != b[i];
        if a[i] < b[i] {
            assert(lex_lt(a, b));
        } else {
            assert(b.take(i) == a.take(i));
            assert(lex_lt(b, a));
        }
    }
}

/// Adding a direction keeps the order of two routes of equal length, or of
/// a shorter route before a longer one.
pub proof fn lemma_shortlex_push(a: Seq<int>, b: Seq<int>, x: int, y: int)
    ensures
        shortlex_lt(a, b) ==> shortlex_lt(a.push(x), b.push(y)),
        !shortlex_lt(b, a) ==> !shortlex_lt(b.push(x), a.push(x)),
        x < y ==> shortlex_lt(a.push(x), a.push(y)),
        shortlex_lt(a, a.push(x)),
{
    if shortlex_lt(a, b) && a.len() == b.len() {
        let i = choose|i: int| 0 <= i < a.len() && i < b.len() && #[trigger] a.take(i) == b.take(i) && a[i] < b[i];
        assert(a.push(x).take(i) =~= a.take(i));
        assert(b.push(y).take(i) =~= b.take(i));
        assert(a.push(x)[i] == a[i]);
        assert(b.push(y)[i] == b[i]);
        assert(lex_lt(a.push(x), b.push(y)));
    }
    if shortlex_lt(b.push(x), a.push(x)) && b.len() == a.len() {
        let i = choose|i: int| 0 <= i < b.push(x).len() && i < a.push(x).len() && #[trigger] b.push(x).take(i) == a.push(x).take(i)
            && b.push(x)[i] < a.push(x)[i];
        if i < b.len() {
            assert(b.push(x).take(i) =~= b.take(i));
            assert(a.push(x).take(i) =~= a.take(i));
            assert(lex_lt(b, a));
        } else {
            assert(b.push(x)[i] == x);
            assert(a.push(x)[i] == x);
        }
    }
    if x < y {
        let n = a.len() as int;
        assert(a.push(x).take(n) =~= a.push(y).take(n));
        assert(lex_lt(a.push(x), a.push(y)));
    }
}

/// Following one more direction.
pub proof fn lemma_walk_push(ok: spec_fn(Pos) -> bool, w: int, h: int, src: Pos, s: Seq<int>, d: int)
    ensures
        walk(ok, w, h, src, s.push(d)) == (match walk(ok, w, h, src, s) {
            Some(q) => match neighbor(q, d, w, h) {
                Some(n) => if ok(n) { Some(n) } else { None },
                None => None,
            },
            None => None,
        }),
{
    assert(s.push(d).drop_last() =~= s);
}

/// What a first-step table from `from` must hold: exactly the reachable cells,
/// `from` bound to itself, and every other cell bound to a neighbour of `from`
/// that lies on a shortest path to it: the first cell of the least route
/// (shortest, then first in direction order left, right, up, down).
pub open spec fn first_steps_from(
    m: Map<Pos, Pos>,
    ok: spec_fn(Pos) -> bool,
    w: int,
    h: int,
    from: Pos,
) -> bool {
    &&& forall|p: Pos| #[trigger]
        m.contains_key(p) <==> in_grid(p, w, h) && exists|n: nat| #[trigger]
            reach(ok, w, h, from, n, p)
    &&& m[from] == from
    &&& forall|p: Pos| #[trigger]
        m.contains_key(p) && p != from ==> {
            &&& in_grid(m[p], w, h)
            &&& adjacent(from, m[p])
            &&& ok(m[p])
            &&& forall|n: nat| #[trigger]
                reach(ok, w, h, from, n, p) ==> n >= 1 && reach(ok, w, h, m[p], (n - 1) as nat, p)
            &&& leads(ok, w, h, from, p, m[p])
        }
}

/// Whatever the closure answers for a cell is what `ok` says of it.
pub open spec fn agrees<F: Fn(Pos) -> bool>(f: F, ok: spec_fn(Pos) -> bool) -> bool {
    forall|p: Pos, b: bool| call_ensures(f, (p,), b) ==> b == ok(p)
}

/// The closure gives one answer per cell.
pub open spec fn answers_consistently<F: Fn(Pos) -> bool>(f: F) -> bool {
    forall|p: Pos, a: bool, b: bool|
        call_ensures(f, (p,), a) && call_ensures(f, (p,), b) ==> a == b
}

/// One more accepted step extends a path by one.
pub proof fn lemma_reach_step(ok: spec_fn(Pos) -> bool, w: int, h: int, src: Pos, n: nat, q: Pos, p: Pos)
    requires
        reach(ok, w, h, src, n, q),
        adjacent(q, p),
        in_grid(p, w, h),
        ok(p),
    ensures
        reach(ok, w, h, src, n + 1, p),
{
    let m = (n + 1) as nat;
    assert((m - 1) as nat == n);
    assert(reach(ok, w, h, src, (m - 1) as nat, q));
}

pub proof fn lemma_reach_mono(ok: spec_fn(Pos) -> bool, w: int, h: int, src: Pos, a: nat, b: nat, p: Pos)
    requires
        reach(ok, w, h, src, a, p),
        a <= b,
    ensures
        reach(ok, w, h, src, b, p),
    decreases b - a,
{
    if a < b {
        assert(reach(ok, w, h, src, (a + 1) as nat, p));
        lemma_reach_mono(ok, w, h, src, (a + 1) as nat, b, p);
    }
}

/// When every cell of the grid can be crossed, every cell is reachable, in as
/// many steps as its Manhattan distance.
pub proof fn lemma_open_grid_reach(ok: spec_fn(Pos) -> bool, w: int, h: int, from: Pos, p: Pos)
    requires
        forall|q: Pos| in_grid(q, w, h) ==> #[trigger] ok(q),
        in_grid(from, w, h),
        in_grid(p, w, h),
    ensures
        reach(ok, w, h, from, distance(from, p) as nat, p),
    decreases distance(from, p),
{
    if p != from {
        let q: Pos = if p.0 > from.0 {
            ((p.0 - 1) as usize, p.1)
        } else if p.0 < from.0 {
            ((p.0 + 1) as usize, p.1)
        } else if p.1 > from.1 {
            (p.0, (p.1 - 1) as usize)
        } else {
            (p.0, (p.1 + 1) as usize)
        };
        assert(distance(from, q) == distance(from, p) - 1);
        lemma_open_grid_reach(ok, w, h, from, q);
        assert(ok(p));
        lemma_reach_step(ok, w, h, from, distance(from, q) as nat, q, p);
    }
}

/// A first-step table over a grid where every cell can be crossed holds
/// every cell of the grid.
pub proof fn lemma_open_grid_all_reached(m: Map<Pos, Pos>, ok: spec_fn(Pos) -> bool, w: int, h: int, from: Pos)
    requires
        first_steps_from(m, ok, w, h, from),
        in_grid(from, w, h),
        forall|q: Pos| in_grid(q, w, h) ==> #[trigger] ok(q),
    ensures
        forall|p: Pos| in_grid(p, w, h) ==> #[trigger] m.contains_key(p),
{
    assert forall|p: Pos| in_grid(p, w, h) implies #[trigger] m.contains_key(p) by {
        lemma_open_grid_reach(ok, w, h, from, p);
    }
}

/// The cells of a `w` x `h` grid.
pub open spec fn grid_cells(w: int, h: int) -> Set<Pos> {
    Set::new(|p: Pos| in_grid(p, w, h))
}

pub proof fn lemma_grid_finite(w: nat, h: nat)
    ensures
        grid_cells(w as int, h as int).finite(),
    decreases h,
{
    broadcast use vstd::set::group_set_axioms;
    if h == 0 {
        assert(grid_cells(w as int, 0) =~= Set::empty());
    } else {
        lemma_grid_finite(w, (h - 1) as nat);
        let y: int = h - 1;
        let row = vstd::set_lib::set_int_range(0, w as int).map(|x: int| (x as usize, y as usize));
        vstd::set_lib::lemma_int_range(0, w as int);
        vstd::set_lib::set_int_range(0, w as int).lemma_map_finite(|x: int| (x as usize, y as usize));
        assert(grid_cells(w as int, h as int) =~= grid_cells(w as int, y).union(row)) by {
            assert forall|p: Pos| #[trigger] grid_cells(w as int, h as int).contains(p) && p.1 == y implies row.contains(p) by {
                assert(vstd::set_lib::set_int_range(0, w as int).contains(p.0 as int));
            }
        }
    }
}

/// For each cell reachable from `from`, the first step to take from `from` to
/// go there along a shortest path, laid out as a grid.
pub struct FirstSteps {
    width: usize,
    height: usize,
    /// `rows[y][x]` is the first step towards `(x, y)`, if it is reachable.
    rows: Vec<Vec<Option<Pos>>>,
    count: usize,
}

impl FirstSteps {
    pub closed spec fn wf(&self) -> bool {
        &&& self.rows@.len() == self.height
        &&& forall|y: int| 0 <= y < self.height ==> #[trigger] self.rows@[y]@.len() == self.width
        &&& self.view().dom().finite()
        &&& self.count == self.view().dom().len()
    }

    pub closed spec fn view(&self) -> Map<Pos, Pos> {
        Map::new(
            |p: Pos| in_grid(p, self.width as int, self.height as int) && self.rows@[p.1 as int]@[p.0 as int] is Some,
            |p: Pos| self.rows@[p.1 as int]@[p.0 as int]->Some_0,
        )
    }

    pub closed spec fn width(&self) -> int {
        self.width as int
    }

    pub closed spec fn height(&self) -> int {
        self.height as int
    }

    fn empty(width: usize, height: usize) -> (r: Self)
        ensures
            r.wf(),
            r.width() == width,
            r.height() == height,
            r.view() == Map::<Pos, Pos>::empty(),
    {
        let mut rows: Vec<Vec<Option<Pos>>> = Vec::new();
        let mut y: usize = 0;
        while y < height
            invariant
                y <= height,
                rows@.len() == y,
                forall|j: int| 0 <= j < y ==> #[trigger] rows@[j]@.len() == width,
                forall|p: Pos| p.1 < y && p.0 < width ==> #[trigger] rows@[p.1 as int]@[p.0 as int] is None,
            decreases height - y,
        {
            let mut row: Vec<Option<Pos>> = Vec::new();
            let mut x: usize = 0;
            while x < width
                invariant
                    x <= width,
                    row@.len() == x,
                    forall|i: int| 0 <= i < x ==> #[trigger] row@[i] is None,
                decreases width - x,
            {
                row.push(None);
                x = x + 1;
            }
            rows.push(row);
            y = y + 1;
        }
        let r = FirstSteps { width, height, rows, count: 0 };
        assert(r.view() =~= Map::<Pos, Pos>::empty());
        r
    }

    /// Records `s` as the first step towards the not yet recorded cell `p`.
    fn record(&mut self, p: Pos, s: Pos)
        requires
            old(self).wf(),
            in_grid(p, old(self).width(), old(self).height()),
            !old(self).view().contains_key(p),
            old(self).view().dom().len() < usize::MAX,
        ensures
            final(self).wf(),
            final(self).width() == old(self).width(),
            final(self).height() == old(self).height(),
            final(self).view() == old(self).view().insert(p, s),
    {
        broadcast use vstd::set::group_set_axioms;
        let ghost m0 = self.view();
        self.rows[p.1][p.0] = Some(s);
        self.count = self.count + 1;
        assert(self.view() =~= m0.insert(p, s));
    }

    /// Number of reachable cells.
    pub fn len(&self) -> (n: usize)
        requires
            self.wf(),
        ensures
            n == self.view().dom().len(),
    {
        self.count
    }

    pub fn contains_key(&self, p: &Pos) -> (r: bool)
        requires
            self.wf(),
        ensures
            r == self.view().contains_key(*p),
    {
        p.0 < self.width && p.1 < self.height && self.rows[p.1][p.0].is_some()
    }

    pub fn get(&self, p: &Pos) -> (r: Option<Pos>)
        requires
            self.wf(),
        ensures
            r == (if self.view().contains_key(*p) {
                Some(self.view()[*p])
            } else {
                None
            }),
    {
        if p.0 < self.width && p.1 < self.height {
            self.rows[p.1][p.0]
        } else {
            None
        }
    }
}

/// Breadth-first search from `from`; `passable` decides whether each cell can
/// be crossed. Returns, for each reachable cell, the first step to take from
/// `from` to reach it along a shortest path.
///
/// The result is stated over the answers the closure gave: every recorded cell
/// but `from` was answered `true`, every neighbour of a recorded cell that is
/// not recorded was answered `false`, and for any `ok` that agrees with the
/// closure the table is the first-step table of `ok`, ties between shortest
/// paths going to the first direction in the order left, right, up, down.
pub fn bfs_first_steps<F: Fn(Pos) -> bool>(
    from: Pos,
    width: usize,
    height: usize,
    passable: F,
) -> (r: FirstSteps)
    requires
        in_grid(from, width as int, height as int),
        width <= i32::MAX,
        height <= i32::MAX,
        forall|p: Pos| in_grid(p, width as int, height as int) ==> call_requires(passable, (p,)),
        answers_consistently(passable),
    ensures
        r.wf(),
        r.width() == width,
        r.height() == height,
        r.view().contains_key(from),
        r.view()[from] == from,
        forall|p: Pos| #[trigger] r.view().contains_key(p) && p != from ==> call_ensures(passable, (p,), true),
        forall|p: Pos, d: int|
            r.view().contains_key(p) && 0 <= d < 4 && (#[trigger] neighbor(p, d, width as int, height as int)) is Some
                && !r.view().contains_key(neighbor(p, d, width as int, height as int)->Some_0)
                ==> call_ensures(passable, (neighbor(p, d, width as int, height as int)->Some_0,), false),
        forall|ok: spec_fn(Pos) -> bool| #[trigger] agrees(passable, ok)
            ==> first_steps_from(r.view(), ok, width as int, height as int, from),
{
    let ghost w = width as int;
    let ghost h = height as int;
    let ghost ok0 = |p: Pos| call_ensures(passable, (p,), true);
    assert forall|p: Pos, b: bool| call_ensures(passable, (p,), b) implies b == ok0(p) by {
        if !b && ok0(p) {
            assert(call_ensures(passable, (p,), true));
        }
    }
    let r = search(from, width, height, passable, Ghost(ok0));
    proof {
        let m = r.view();
        assert(reach(ok0, w, h, from, 0, from));
        assert forall|p: Pos| #[trigger] m.contains_key(p) && p != from implies call_ensures(passable, (p,), true) by {
            let key = choose|key: Seq<int>| #[trigger] least_route(ok0, w, h, from, p, key) && key.len() >= 1
                && walk(ok0, w, h, from, key.take(1)) == Some(m[p]);
            lemma_walk_last(ok0, w, h, from, key);
        }
        assert forall|p: Pos, d: int|
            m.contains_key(p) && 0 <= d < 4 && (#[trigger] neighbor(p, d, w, h)) is Some
                && !m.contains_key(neighbor(p, d, w, h)->Some_0)
                implies call_ensures(passable, (neighbor(p, d, w, h)->Some_0,), false) by {
            let q = neighbor(p, d, w, h)->Some_0;
            if ok0(q) {
                lemma_neighbors(p, q, w, h);
                lemma_closed(m, ok0, w, h, from, p, q);
            }
        }
        assert forall|ok: spec_fn(Pos) -> bool| #[trigger] agrees(passable, ok)
            implies first_steps_from(m, ok, w, h, from) by {
            assert forall|p: Pos, d: int| m.contains_key(p) && 0 <= d < 4 && (#[trigger] neighbor(p, d, w, h)) is Some
                implies ok(neighbor(p, d, w, h)->Some_0) == ok0(neighbor(p, d, w, h)->Some_0) by {
                let q = neighbor(p, d, w, h)->Some_0;
                assert(call_ensures(passable, (q,), ok0(q)));
            }
            lemma_first_steps_agree(m, ok0, ok, w, h, from);
        }
    }
    r
}

/// A route of at least one step ends on a cell that `ok` accepts.
proof fn lemma_walk_last(ok: spec_fn(Pos) -> bool, w: int, h: int, src: Pos, s: Seq<int>)
    requires
        walk(ok, w, h, src, s) is Some,
        s.len() >= 1,
    ensures
        ok(walk(ok, w, h, src, s)->Some_0),
{
}

/// `ok` and `ok0` agree on every neighbour of a recorded cell.
spec fn agree_around(m: Map<Pos, Pos>, ok0: spec_fn(Pos) -> bool, ok: spec_fn(Pos) -> bool, w: int, h: int) -> bool {
    forall|p: Pos, d: int| m.contains_key(p) && 0 <= d < 4 && (#[trigger] neighbor(p, d, w, h)) is Some
        ==> ok(neighbor(p, d, w, h)->Some_0) == ok0(neighbor(p, d, w, h)->Some_0)
}

proof fn lemma_agree_adjacent(m: Map<Pos, Pos>, ok0: spec_fn(Pos) -> bool, ok: spec_fn(Pos) -> bool, w: int, h: int, p: Pos, q: Pos)
    requires
        agree_around(m, ok0, ok, w, h),
        m.contains_key(p),
        in_grid(q, w, h),
        adjacent(p, q),
        0 <= w <= usize::MAX,
        0 <= h <= usize::MAX,
    ensures
        ok(q) == ok0(q),
{
    lemma_neighbors(p, q, w, h);
    let d = choose|d: int| 0 <= d < 4 && #[trigger] neighbor(p, d, w, h) == Some(q);
    assert(neighbor(p, d, w, h) is Some);
}

/// An accepted neighbour of a recorded cell is recorded.
proof fn lemma_closed(m: Map<Pos, Pos>, ok0: spec_fn(Pos) -> bool, w: int, h: int, from: Pos, p: Pos, q: Pos)
    requires
        first_steps_from(m, ok0, w, h, from),
        m.contains_key(p),
        in_grid(q, w, h),
        adjacent(p, q),
        ok0(q),
    ensures
        m.contains_key(q),
{
    let n = choose|n: nat| #[trigger] reach(ok0, w, h, from, n, p);
    lemma_reach_step(ok0, w, h, from, n, p, q);
}

/// From a recorded cell, `ok` and `ok0` reach the same cells, all recorded.
proof fn lemma_reach_agree(
    m: Map<Pos, Pos>,
    ok0: spec_fn(Pos) -> bool,
    ok: spec_fn(Pos) -> bool,
    w: int,
    h: int,
    from: Pos,
    src: Pos,
    n: nat,
    p: Pos,
)
    requires
        first_steps_from(m, ok0, w, h, from),
        agree_around(m, ok0, ok, w, h),
        m.contains_key(src),
        0 <= w <= usize::MAX,
        0 <= h <= usize::MAX,
    ensures
        reach(ok0, w, h, src, n, p) ==> m.contains_key(p),
        reach(ok0, w, h, src, n, p) == reach(ok, w, h, src, n, p),
    decreases n,
{
    if n > 0 {
        let k = (n - 1) as nat;
        lemma_reach_agree(m, ok0, ok, w, h, from, src, k, p);
        if reach(ok0, w, h, src, n, p) && !reach(ok0, w, h, src, k, p) {
            let q = choose|q: Pos| #[trigger] adjacent(q, p) && reach(ok0, w, h, src, k, q);
            lemma_reach_agree(m, ok0, ok, w, h, from, src, k, q);
            lemma_closed(m, ok0, w, h, from, q, p);
            lemma_agree_adjacent(m, ok0, ok, w, h, q, p);
            assert(reach(ok, w, h, src, k, q));
        }
        if reach(ok, w, h, src, n, p) && !reach(ok, w, h, src, k, p) {
            let q = choose|q: Pos| #[trigger] adjacent(q, p) && reach(ok, w, h, src, k, q);
            lemma_reach_agree(m, ok0, ok, w, h, from, src, k, q);
            lemma_agree_adjacent(m, ok0, ok, w, h, q, p);
            assert(reach(ok0, w, h, src, k, q));
        }
    }
}

/// From `from`, `ok` and `ok0` follow every route alike, and stay on recorded cells.
proof fn lemma_walk_agree(
    m: Map<Pos, Pos>,
    ok0: spec_fn(Pos) -> bool,
    ok: spec_fn(Pos) -> bool,
    w: int,
    h: int,
    from: Pos,
    s: Seq<int>,
)
    requires
        first_steps_from(m, ok0, w, h, from),
        agree_around(m, ok0, ok, w, h),
        m.contains_key(from),
        0 <= w <= usize::MAX,
        0 <= h <= usize::MAX,
    ensures
        walk(ok0, w, h, from, s) == walk(ok, w, h, from, s),
        walk(ok0, w, h, from, s) is Some ==> m.contains_key(walk(ok0, w, h, from, s)->Some_0),
    decreases s.len(),
{
    if s.len() > 0 {
        let t = s.drop_last();
        let d = s.last();
        lemma_walk_agree(m, ok0, ok, w, h, from, t);
        if walk(ok0, w, h, from, t) is Some {
            let q = walk(ok0, w, h, from, t)->Some_0;
            if neighbor(q, d, w, h) is Some {
                let n = neighbor(q, d, w, h)->Some_0;
                assert(ok(n) == ok0(n));
                if ok0(n) {
                    assert(neighbor(q, d, w, h) == Some(n));
                    lemma_neighbors(q, n, w, h);
                    lemma_closed(m, ok0, w, h, from, q, n);
                }
            }
        }
    }
}

/// A first-step table of `ok0` is one of `ok` too, when the two agree on every
/// neighbour of a recorded cell.
proof fn lemma_first_steps_agree(m: Map<Pos, Pos>, ok0: spec_fn(Pos) -> bool, ok: spec_fn(Pos) -> bool, w: int, h: int, from: Pos)
    requires
        first_steps_from(m, ok0, w, h, from),
        in_grid(from, w, h),
        agree_around(m, ok0, ok, w, h),
        0 <= w <= usize::MAX,
        0 <= h <= usize::MAX,
    ensures
        first_steps_from(m, ok, w, h, from),
{
    assert(reach(ok0, w, h, from, 0, from));
    assert(m.contains_key(from));
    assert forall|p: Pos| #[trigger] m.contains_key(p) <==> in_grid(p, w, h) && exists|n: nat| #[trigger] reach(ok, w, h, from, n, p) by {
        if m.contains_key(p) {
            let n = choose|n: nat| #[trigger] reach(ok0, w, h, from, n, p);
            lemma_reach_agree(m, ok0, ok, w, h, from, from, n, p);
        }
        if in_grid(p, w, h) && exists|n: nat| #[trigger] reach(ok, w, h, from, n, p) {
            let n = choose|n: nat| #[trigger] reach(ok, w, h, from, n, p);
            lemma_reach_agree(m, ok0, ok, w, h, from, from, n, p);
        }
    }
    assert forall|p: Pos| #[trigger] m.contains_key(p) && p != from implies {
        &&& in_grid(m[p], w, h)
        &&& adjacent(from, m[p])
        &&& ok(m[p])
        &&& forall|n: nat| #[trigger] reach(ok, w, h, from, n, p) ==> n >= 1 && reach(ok, w, h, m[p], (n - 1) as nat, p)
        &&& leads(ok, w, h, from, p, m[p])
    } by {
        lemma_agree_adjacent(m, ok0, ok, w, h, from, m[p]);
        lemma_closed(m, ok0, w, h, from, from, m[p]);
        assert forall|n: nat| #[trigger] reach(ok, w, h, from, n, p) implies n >= 1 && reach(ok, w, h, m[p], (n - 1) as nat, p) by {
            lemma_reach_agree(m, ok0, ok, w, h, from, from, n, p);
            lemma_reach_agree(m, ok0, ok, w, h, from, m[p], (n - 1) as nat, p);
        }
        let key = choose|key: Seq<int>| #[trigger] least_route(ok0, w, h, from, p, key) && key.len() >= 1
            && walk(ok0, w, h, from, key.take(1)) == Some(m[p]);
        lemma_walk_agree(m, ok0, ok, w, h, from, key);
        lemma_walk_agree(m, ok0, ok, w, h, from, key.take(1));
        assert forall|s: Seq<int>| #[trigger] walk(ok, w, h, from, s) == Some(p) implies !shortlex_lt(s, key) by {
            lemma_walk_agree(m, ok0, ok, w, h, from, s);
        }
        assert(least_route(ok, w, h, from, p, key));
    }
}

/// Each queued cell is recorded with the first step queued beside it, and
/// every recorded cell was queued.
spec fn queued(m: Map<Pos, Pos>, queue: Seq<(Pos, Pos)>) -> bool {
    &&& forall|i: int| #![trigger queue[i]] 0 <= i < queue.len() ==> m.contains_key(queue[i].0) && m[queue[i].0] == queue[i].1
    &&& forall|p: Pos| #[trigger] m.contains_key(p) ==> exists|i: int| 0 <= i < queue.len() && #[trigger] queue[i].0 == p
}

/// Levels never decrease along the queue.
spec fn ordered(level: Map<Pos, nat>, queue: Seq<(Pos, Pos)>) -> bool {
    forall|i: int, j: int| #![trigger queue[i], queue[j]] 0 <= i < j < queue.len() ==> level[queue[i].0] <= level[queue[j].0]
}

/// No level exceeds `top`.
spec fn capped(level: Map<Pos, nat>, queue: Seq<(Pos, Pos)>, top: int) -> bool {
    forall|i: int| #![trigger queue[i]] 0 <= i < queue.len() ==> level[queue[i].0] <= top
}

/// Every recorded cell is reachable within its level, and its first step is a
/// neighbour of `from` from which it is reachable within one step less.
spec fn sound(ok: spec_fn(Pos) -> bool, w: int, h: int, from: Pos, m: Map<Pos, Pos>, level: Map<Pos, nat>) -> bool {
    forall|p: Pos| #[trigger] m.contains_key(p) ==> {
        &&& in_grid(p, w, h)
        &&& reach(ok, w, h, from, level[p], p)
        &&& p != from ==> {
            &&& level[p] >= 1
            &&& in_grid(m[p], w, h)
            &&& adjacent(from, m[p])
            &&& ok(m[p])
            &&& reach(ok, w, h, m[p], (level[p] - 1) as nat, p)
        }
    }
}

/// The first `k` queued cells have had their neighbours looked at: each
/// accepted neighbour is recorded, at most one level further.
spec fn expanded(ok: spec_fn(Pos) -> bool, w: int, h: int, m: Map<Pos, Pos>, level: Map<Pos, nat>, queue: Seq<(Pos, Pos)>, k: int) -> bool {
    forall|i: int, q: Pos| 0 <= i < k && in_grid(q, w, h) && ok(q) && #[trigger] adjacent(queue[i].0, q)
        ==> m.contains_key(q) && level[q] <= level[queue[i].0] + 1
}

/// Each recorded cell has a key: a route from `from` to it, as long as its
/// level, whose first cell is its recorded first step.
spec fn keyed(ok: spec_fn(Pos) -> bool, w: int, h: int, from: Pos, m: Map<Pos, Pos>, keys: Map<Pos, Seq<int>>, level: Map<Pos, nat>) -> bool {
    &&& keys.dom() == m.dom()
    &&& keys[from] == Seq::<int>::empty()
    &&& forall|p: Pos| #[trigger] m.contains_key(p) ==> {
        &&& walk(ok, w, h, from, keys[p]) == Some(p)
        &&& keys[p].len() == level[p]
        &&& p != from ==> keys[p].len() >= 1 && walk(ok, w, h, from, keys[p].take(1)) == Some(m[p])
    }
}

/// Keys increase along the queue.
spec fn key_ordered(keys: Map<Pos, Seq<int>>, queue: Seq<(Pos, Pos)>) -> bool {
    forall|i: int, j: int| #![trigger queue[i], queue[j]] 0 <= i < j < queue.len() ==> shortlex_lt(keys[queue[i].0], keys[queue[j].0])
}

/// Every queued key comes before `top`.
spec fn key_capped(keys: Map<Pos, Seq<int>>, queue: Seq<(Pos, Pos)>, top: Seq<int>) -> bool {
    forall|i: int| #![trigger queue[i]] 0 <= i < queue.len() ==> shortlex_lt(keys[queue[i].0], top)
}

/// For the first `k` queued cells, every neighbour was asked about, and each
/// accepted neighbour is recorded with a key no later than the route through
/// the queued cell.
spec fn expanded_lex<F: Fn(Pos) -> bool>(
    passable: F,
    ok: spec_fn(Pos) -> bool,
    w: int,
    h: int,
    m: Map<Pos, Pos>,
    keys: Map<Pos, Seq<int>>,
    queue: Seq<(Pos, Pos)>,
    k: int,
) -> bool {
    forall|i: int, d: int| 0 <= i < k && 0 <= d < 4 && (#[trigger] neighbor(queue[i].0, d, w, h)) is Some ==> {
        let q = neighbor(queue[i].0, d, w, h)->Some_0;
        &&& call_ensures(passable, (q,), ok(q))
        &&& ok(q) ==> m.contains_key(q) && !shortlex_lt(keys[queue[i].0].push(d), keys[q])
    }
}

/// The neighbours of `p` in the first `dir` directions were asked about, and
/// each accepted one is recorded, at most one level further and with a key no
/// later than the route through `p`.
spec fn looked_around<F: Fn(Pos) -> bool>(
    passable: F,
    ok: spec_fn(Pos) -> bool,
    w: int,
    h: int,
    m: Map<Pos, Pos>,
    keys: Map<Pos, Seq<int>>,
    level: Map<Pos, nat>,
    p: Pos,
    dir: int,
) -> bool {
    forall|d: int| 0 <= d < dir && (#[trigger] neighbor(p, d, w, h)) is Some ==> {
        let q = neighbor(p, d, w, h)->Some_0;
        &&& call_ensures(passable, (q,), ok(q))
        &&& ok(q) ==> m.contains_key(q) && level[q] <= level[p] + 1 && !shortlex_lt(keys[p].push(d), keys[q])
    }
}

/// A cell that is skipped (refused, already recorded, or off the grid) leaves
/// the keys as they are, and the cap moves to the next direction.
proof fn lemma_skip_key<F: Fn(Pos) -> bool>(
    passable: F,
    ok: spec_fn(Pos) -> bool,
    w: int,
    h: int,
    m: Map<Pos, Pos>,
    keys: Map<Pos, Seq<int>>,
    level: Map<Pos, nat>,
    queue: Seq<(Pos, Pos)>,
    p: Pos,
    dir: int,
)
    requires
        key_capped(keys, queue, keys[p].push(dir)),
    ensures
        key_capped(keys, queue, keys[p].push(dir + 1)),
{
    lemma_shortlex_push(keys[p], keys[p], dir, dir + 1);
    assert forall|i: int| #![trigger queue[i]] 0 <= i < queue.len() implies shortlex_lt(keys[queue[i].0], keys[p].push(dir + 1)) by {
        lemma_shortlex_order(keys[queue[i].0], keys[p].push(dir), keys[p].push(dir + 1));
    }
}

/// Recording a newly found neighbour `np` of `p`, with the key of `p` followed
/// by the direction taken, keeps the keys in order and the routes least.
proof fn lemma_record_key<F: Fn(Pos) -> bool>(
    passable: F,
    ok: spec_fn(Pos) -> bool,
    w: int,
    h: int,
    from: Pos,
    m0: Map<Pos, Pos>,
    m: Map<Pos, Pos>,
    k0: Map<Pos, Seq<int>>,
    keys: Map<Pos, Seq<int>>,
    l0: Map<Pos, nat>,
    level: Map<Pos, nat>,
    q0: Seq<(Pos, Pos)>,
    queue: Seq<(Pos, Pos)>,
    head: int,
    p: Pos,
    fs: Pos,
    np: Pos,
    new_fs: Pos,
    dir: int,
)
    requires
        0 <= dir < 4,
        0 <= head < q0.len(),
        q0[head] == (p, fs),
        neighbor(p, dir, w, h) == Some(np),
        ok(np),
        call_ensures(passable, (np,), true),
        !m0.contains_key(np),
        m0.contains_key(p),
        m0.contains_key(from),
        m == m0.insert(np, new_fs),
        new_fs == (if p == from { np } else { fs }),
        queue == q0.push((np, new_fs)),
        keys == k0.insert(np, k0[p].push(dir)),
        level == l0.insert(np, (l0[p] + 1) as nat),
        queued(m0, q0),
        keyed(ok, w, h, from, m0, k0, l0),
        key_ordered(k0, q0),
        key_capped(k0, q0, k0[p].push(dir)),
        expanded_lex(passable, ok, w, h, m0, k0, q0, head),
        looked_around(passable, ok, w, h, m0, k0, l0, p, dir),
    ensures
        keyed(ok, w, h, from, m, keys, level),
        key_ordered(keys, queue),
        key_capped(keys, queue, keys[p].push(dir + 1)),
        expanded_lex(passable, ok, w, h, m, keys, queue, head),
        looked_around(passable, ok, w, h, m, keys, level, p, dir + 1),
{
    let a = k0[p].push(dir);
    assert(p != np);
    assert(keys[p] == k0[p]);
    lemma_walk_push(ok, w, h, from, k0[p], dir);
    assert(keys.dom() =~= m.dom());
    assert forall|q: Pos| #[trigger] m.contains_key(q) implies {
        &&& walk(ok, w, h, from, keys[q]) == Some(q)
        &&& keys[q].len() == level[q]
        &&& q != from ==> keys[q].len() >= 1 && walk(ok, w, h, from, keys[q].take(1)) == Some(m[q])
    } by {
        if q == np {
            if p == from {
                assert(keys[np].take(1) =~= keys[np]);
            } else {
                assert(keys[np].take(1) =~= k0[p].take(1));
            }
        } else {
            assert(m0.contains_key(q));
        }
    }
    assert(keys[from] == k0[from]) by {
        assert(m0.contains_key(from));
    }
    lemma_shortlex_push(k0[p], k0[p], dir, dir + 1);
    assert forall|i: int, j: int| #![trigger queue[i], queue[j]] 0 <= i < j < queue.len() implies shortlex_lt(keys[queue[i].0], keys[queue[j].0]) by {
        assert(queue[i] == q0[i]);
        assert(m0.contains_key(q0[i].0));
        if j < q0.len() {
            assert(queue[j] == q0[j]);
            assert(m0.contains_key(q0[j].0));
        }
    }
    assert forall|i: int| #![trigger queue[i]] 0 <= i < queue.len() implies shortlex_lt(keys[queue[i].0], keys[p].push(dir + 1)) by {
        if i < q0.len() {
            assert(queue[i] == q0[i]);
            assert(m0.contains_key(q0[i].0));
            lemma_shortlex_order(keys[queue[i].0], a, a.drop_last().push(dir + 1));
            assert(a.drop_last() =~= k0[p]);
        }
    }
    assert forall|i: int, d: int| 0 <= i < head && 0 <= d < 4 && (#[trigger] neighbor(queue[i].0, d, w, h)) is Some implies {
        let q = neighbor(queue[i].0, d, w, h)->Some_0;
        &&& call_ensures(passable, (q,), ok(q))
        &&& ok(q) ==> m.contains_key(q) && !shortlex_lt(keys[queue[i].0].push(d), keys[q])
    } by {
        assert(queue[i] == q0[i]);
        assert(m0.contains_key(q0[i].0));
        assert(neighbor(q0[i].0, d, w, h) is Some);
    }
    assert forall|d: int| 0 <= d < dir + 1 && (#[trigger] neighbor(p, d, w, h)) is Some implies {
        let q = neighbor(p, d, w, h)->Some_0;
        &&& call_ensures(passable, (q,), ok(q))
        &&& ok(q) ==> m.contains_key(q) && level[q] <= level[p] + 1 && !shortlex_lt(keys[p].push(d), keys[q])
    } by {
        if d < dir {
            let q = neighbor(p, d, w, h)->Some_0;
            if ok(q) {
                assert(m0.contains_key(q));
            }
        } else {
            lemma_shortlex_order(a, a, a);
        }
    }
}

/// Once every queued cell has been expanded, each recorded key is the least
/// route to its cell, and no route leads outside the recorded cells.
proof fn lemma_least_routes<F: Fn(Pos) -> bool>(
    passable: F,
    ok: spec_fn(Pos) -> bool,
    w: int,
    h: int,
    from: Pos,
    m: Map<Pos, Pos>,
    keys: Map<Pos, Seq<int>>,
    level: Map<Pos, nat>,
    queue: Seq<(Pos, Pos)>,
    s: Seq<int>,
    p: Pos,
)
    requires
        m.contains_key(from),
        keyed(ok, w, h, from, m, keys, level),
        queued(m, queue),
        expanded_lex(passable, ok, w, h, m, keys, queue, queue.len() as int),
        walk(ok, w, h, from, s) == Some(p),
    ensures
        m.contains_key(p),
        !shortlex_lt(s, keys[p]),
    decreases s.len(),
{
    if s.len() == 0 {
        assert(keys[p] == Seq::<int>::empty());
    } else {
        let t = s.drop_last();
        let d = s.last();
        assert(t.push(d) =~= s);
        lemma_walk_push(ok, w, h, from, t, d);
        let q = walk(ok, w, h, from, t)->Some_0;
        lemma_least_routes(passable, ok, w, h, from, m, keys, level, queue, t, q);
        let i = choose|i: int| 0 <= i < queue.len() && #[trigger] queue[i].0 == q;
        assert(neighbor(queue[i].0, d, w, h) is Some);
        assert(neighbor(q, d, w, h) == Some(p));
        assert(m.contains_key(p) && !shortlex_lt(keys[q].push(d), keys[p]));
        lemma_shortlex_push(keys[q], t, d, d);
        lemma_shortlex_order(s, keys[q].push(d), keys[p]);
        lemma_shortlex_order(keys[q].push(d), s, keys[p]);
    }
}

/// The search itself, for a closure whose answers `ok` describes.
pub(crate) fn search<F: Fn(Pos) -> bool>(
    from: Pos,
    width: usize,
    height: usize,
    passable: F,
    Ghost(ok): Ghost<spec_fn(Pos) -> bool>,
) -> (r: FirstSteps)
    requires
        in_grid(from, width as int, height as int),
        width <= i32::MAX,
        height <= i32::MAX,
        forall|p: Pos| in_grid(p, width as int, height as int) ==> call_requires(passable, (p,)),
        forall|p: Pos, b: bool| call_ensures(passable, (p,), b) ==> b == ok(p),
    ensures
        r.wf(),
        r.width() == width,
        r.height() == height,
        first_steps_from(r.view(), ok, width as int, height as int, from),
        forall|p: Pos, d: int| r.view().contains_key(p) && 0 <= d < 4 && (#[trigger] neighbor(p, d, width as int, height as int)) is Some
            ==> call_ensures(passable, (neighbor(p, d, width as int, height as int)->Some_0,),
                ok(neighbor(p, d, width as int, height as int)->Some_0)),
{
    let ghost w = width as int;
    let ghost h = height as int;
    let mut steps = FirstSteps::empty(width, height);
    let mut queue: Vec<(Pos, Pos)> = Vec::new();
    let ghost mut level: Map<Pos, nat> = Map::empty();
    let ghost mut keys: Map<Pos, Seq<int>> = Map::empty();
    steps.record(from, from);
    queue.push((from, from));
    proof {
        level = level.insert(from, 0);
        keys = keys.insert(from, Seq::empty());
        assert(keys.dom() =~= steps.view().dom());
        assert(shortlex_lt(keys[from], keys[from].push(0)));
        lemma_grid_finite(width as nat, height as nat);
        assert(queue@[0] == (from, from));
        assert forall|p: Pos| #[trigger] steps.view().contains_key(p) implies exists|i: int| 0 <= i < queue@.len() && #[trigger] queue@[i].0 == p by {
            assert(queue@[0].0 == p);
        }
        assert(reach(ok, w, h, from, 0, from));
        assert(steps.view().dom().subset_of(grid_cells(w, h)));
        vstd::set_lib::lemma_len_subset(steps.view().dom(), grid_cells(w, h));
    }
    let mut head: usize = 0;
    while head < queue.len()
        invariant
            in_grid(from, w, h),
            w == width,
            h == height,
            width <= i32::MAX,
            height <= i32::MAX,
            forall|p: Pos| in_grid(p, w, h) ==> call_requires(passable, (p,)),
            forall|p: Pos, b: bool| call_ensures(passable, (p,), b) ==> b == ok(p),
            grid_cells(w, h).finite(),
            steps.wf(),
            steps.width() == width,
            steps.height() == height,
            head <= queue@.len(),
            queue@.len() > 0,
            queue@[0] == (from, from),
            queue@.len() == steps.view().dom().len(),
            queued(steps.view(), queue@),
            level.dom() == steps.view().dom(),
            level[from] == 0,
            ordered(level, queue@),
            head < queue@.len() ==> capped(level, queue@, level[queue@[head as int].0] + 1int),
            sound(ok, w, h, from, steps.view(), level),
            expanded(ok, w, h, steps.view(), level, queue@, head as int),
            queue@.len() <= grid_cells(w, h).len(),
            keyed(ok, w, h, from, steps.view(), keys, level),
            key_ordered(keys, queue@),
            head < queue@.len() ==> key_capped(keys, queue@, keys[queue@[head as int].0].push(0)),
            expanded_lex(passable, ok, w, h, steps.view(), keys, queue@, head as int),
        decreases grid_cells(w, h).len() - queue@.len(), queue@.len() - head,
    {
        let (p, fs) = queue[head];
        let ghost lp = level[p];
        let ghost m_start = steps.view();
        let ghost q_start = queue@;
        proof {
            assert(queue@[head as int] == (p, fs));
            assert(steps.view().contains_key(p));
        }
        let mut dir: usize = 0;
        while dir < 4
            invariant
                in_grid(from, w, h),
                w == width,
                h == height,
                width <= i32::MAX,
                height <= i32::MAX,
                forall|q: Pos| in_grid(q, w, h) ==> call_requires(passable, (q,)),
                forall|q: Pos, b: bool| call_ensures(passable, (q,), b) ==> b == ok(q),
                grid_cells(w, h).finite(),
                steps.wf(),
                steps.width() == width,
                steps.height() == height,
                head < q_start.len(),
                q_start.len() <= queue@.len(),
                forall|i: int| 0 <= i < q_start.len() ==> #[trigger] queue@[i] == q_start[i],
                queue@[head as int] == (p, fs),
                steps.view().contains_key(p),
                lp == level[p],
                queue@[0] == (from, from),
                queue@.len() == steps.view().dom().len(),
                m_start.dom().subset_of(steps.view().dom()),
                queued(steps.view(), queue@),
                level.dom() == steps.view().dom(),
                level[from] == 0,
                ordered(level, queue@),
                capped(level, queue@, lp + 1int),
                sound(ok, w, h, from, steps.view(), level),
                expanded(ok, w, h, steps.view(), level, queue@, head as int),
                dir <= 4,
                keyed(ok, w, h, from, steps.view(), keys, level),
                key_ordered(keys, queue@),
                key_capped(keys, queue@, keys[p].push(dir as int)),
                expanded_lex(passable, ok, w, h, steps.view(), keys, queue@, head as int),
                looked_around(passable, ok, w, h, steps.view(), keys, level, p, dir as int),
            decreases 4 - dir,
        {
            match neighbor_of(p, dir, width, height) {
                Some(np) => {
                    assert(in_grid(np, w, h));
                    let ans = passable(np);
                    let known = steps.contains_key(&np);
                    if ans && !known {
                        // The first step is the cell itself when leaving `from`,
                        // otherwise the one inherited from the cell we come from.
                        let new_fs = if p.0 == from.0 && p.1 == from.1 {
                            np
                        } else {
                            fs
                        };
                        let ghost m0 = steps.view();
                        let ghost q0 = queue@;
                        proof {
                            vstd::set_lib::lemma_len_subset(m0.dom(), grid_cells(w, h));
                            assert(adjacent(p, np));
                            lemma_reach_step(ok, w, h, from, lp, p, np);
                            if p != from {
                                assert(m0[p] == fs);
                                lemma_reach_step(ok, w, h, fs, (lp - 1) as nat, p, np);
                            } else {
                                assert(reach(ok, w, h, np, 0, np));
                            }
                        }
                        queue.push((np, new_fs));
                        assert(queue.len() == queue@.len());
                        steps.record(np, new_fs);
                        proof {
                            let l0 = level;
                            level = level.insert(np, (lp + 1) as nat);
                            assert(queue@[q0.len() as int] == (np, new_fs));
                            assert forall|q: Pos| #[trigger] steps.view().contains_key(q) implies exists|i: int|
                                0 <= i < queue@.len() && #[trigger] queue@[i].0 == q by {
                                if q == np {
                                    assert(queue@[q0.len() as int].0 == q);
                                } else {
                                    assert(m0.contains_key(q));
                                    let i = choose|i: int| 0 <= i < q0.len() && #[trigger] q0[i].0 == q;
                                    assert(queue@[i] == q0[i]);
                                }
                            }
                            assert forall|i: int| #![trigger queue@[i]] 0 <= i < queue@.len() implies steps.view().contains_key(queue@[i].0)
                                && steps.view()[queue@[i].0] == queue@[i].1 by {
                                if i < q0.len() {
                                    assert(queue@[i] == q0[i]);
                                    assert(m0.contains_key(q0[i].0));
                                }
                            }
                            assert(queued(steps.view(), queue@));
                            assert forall|i: int, j: int| #![trigger queue@[i], queue@[j]] 0 <= i < j < queue@.len() implies level[queue@[i].0] <= level[queue@[j].0] by {
                                if j < q0.len() {
                                    assert(queue@[i] == q0[i]);
                                    assert(queue@[j] == q0[j]);
                                    assert(q0[i].0 != np);
                                    assert(q0[j].0 != np);
                                } else {
                                    assert(queue@[i] == q0[i]);
                                    assert(q0[i].0 != np);
                                }
                            }
                            assert forall|i: int| #![trigger queue@[i]] 0 <= i < queue@.len() implies level[queue@[i].0] <= lp + 1 by {
                                if i < q0.len() {
                                    assert(queue@[i] == q0[i]);
                                    assert(q0[i].0 != np);
                                }
                            }
                            assert forall|i: int, q: Pos| 0 <= i < head && in_grid(q, w, h) && ok(q) && #[trigger] adjacent(queue@[i].0, q)
                                implies steps.view().contains_key(q) && level[q] <= level[queue@[i].0] + 1 by {
                                assert(queue@[i] == q0[i]);
                                assert(adjacent(q0[i].0, q));
                                assert(q0[i].0 != np);
                            }
                            assert(sound(ok, w, h, from, steps.view(), level));
                            assert(m0.contains_key(from)) by {
                                assert(q0[0] == (from, from));
                            }
                            let k0 = keys;
                            keys = keys.insert(np, k0[p].push(dir as int));
                            lemma_record_key(passable, ok, w, h, from, m0, steps.view(), k0, keys, l0, level, q0, queue@,
                                head as int, p, fs, np, new_fs, dir as int);
                        }
                    } else {
                        proof {
                            lemma_skip_key(passable, ok, w, h, steps.view(), keys, level, queue@, p, dir as int);
                            if ok(np) {
                                let i = choose|i: int| 0 <= i < queue@.len() && #[trigger] queue@[i].0 == np;
                                assert(level[queue@[i].0] <= lp + 1);
                                assert(shortlex_lt(keys[queue@[i].0], keys[p].push(dir as int)));
                                lemma_shortlex_order(keys[p].push(dir as int), keys[np], keys[p].push(dir as int));
                            }
                            assert(looked_around(passable, ok, w, h, steps.view(), keys, level, p, dir + 1));
                        }
                    }
                },
                None => {
                    proof {
                        lemma_skip_key(passable, ok, w, h, steps.view(), keys, level, queue@, p, dir as int);
                        assert(looked_around(passable, ok, w, h, steps.view(), keys, level, p, dir + 1));
                    }
                },
            }
            dir = dir + 1;
        }
        proof {
            assert forall|i: int, q: Pos| 0 <= i < head + 1 && in_grid(q, w, h) && ok(q) && #[trigger] adjacent(queue@[i].0, q)
                implies steps.view().contains_key(q) && level[q] <= level[queue@[i].0] + 1 by {
                if i == head {
                    lemma_neighbors(p, q, w, h);
                    let d = choose|d: int| 0 <= d < 4 && #[trigger] neighbor(p, d, w, h) == Some(q);
                    assert(neighbor(p, d, w, h) == Some(q) && ok(q));
                }
            }
            assert(expanded_lex(passable, ok, w, h, steps.view(), keys, queue@, head + 1)) by {
                assert forall|i: int, d: int| 0 <= i < head + 1 && 0 <= d < 4 && (#[trigger] neighbor(queue@[i].0, d, w, h)) is Some implies {
                    let q = neighbor(queue@[i].0, d, w, h)->Some_0;
                    &&& call_ensures(passable, (q,), ok(q))
                    &&& ok(q) ==> steps.view().contains_key(q) && !shortlex_lt(keys[queue@[i].0].push(d), keys[q])
                } by {
                    if i == head {
                        assert(neighbor(p, d, w, h) is Some);
                    }
                }
            }
            if head + 1 < queue@.len() {
                let nxt = keys[queue@[head + 1].0];
                assert(shortlex_lt(keys[queue@[head as int].0], nxt));
                lemma_shortlex_push(keys[p], nxt, 4, 0);
                assert forall|i: int| #![trigger queue@[i]] 0 <= i < queue@.len() implies shortlex_lt(keys[queue@[i].0], nxt.push(0)) by {
                    lemma_shortlex_order(keys[queue@[i].0], keys[p].push(4), nxt.push(0));
                }
            }
            if head + 1 < queue@.len() {
                assert(level[queue@[head as int].0] <= level[queue@[head + 1].0]);
                assert forall|i: int| #![trigger queue@[i]] 0 <= i < queue@.len() implies level[queue@[i].0] <= level[queue@[head + 1].0] + 1 by {
                    assert(level[queue@[i].0] <= lp + 1);
                }
            }
            assert(steps.view().dom().subset_of(grid_cells(w, h)));
            vstd::set_lib::lemma_len_subset(steps.view().dom(), grid_cells(w, h));
        }
        head = head + 1;
    }
    proof {
        let m = steps.view();
        assert(m.contains_key(from)) by {
            assert(queue@[0] == (from, from));
        }
        lemma_bfs_complete(ok, w, h, from, m, level, queue@);
        assert forall|p: Pos| #[trigger] m.contains_key(p) && p != from implies
            forall|n: nat| #[trigger] reach(ok, w, h, from, n, p) ==> n >= 1 && reach(ok, w, h, m[p], (n - 1) as nat, p) by {
            assert forall|n: nat| #[trigger] reach(ok, w, h, from, n, p) implies n >= 1 && reach(ok, w, h, m[p], (n - 1) as nat, p) by {
                lemma_reach_mono(ok, w, h, m[p], (level[p] - 1) as nat, (n - 1) as nat, p);
            }
        }
        assert forall|p: Pos| #[trigger] m.contains_key(p) <==> in_grid(p, w, h) && exists|n: nat| #[trigger]
            reach(ok, w, h, from, n, p) by {
            if m.contains_key(p) {
                assert(reach(ok, w, h, from, level[p], p));
            }
            if in_grid(p, w, h) && exists|n: nat| #[trigger] reach(ok, w, h, from, n, p) {
                let n = choose|n: nat| #[trigger] reach(ok, w, h, from, n, p);
                assert(reach(ok, w, h, from, n, p));
            }
        }
        assert(m[from] == from) by {
            assert(queue@[0] == (from, from));
        }
        assert forall|p: Pos| #[trigger] m.contains_key(p) && p != from implies leads(ok, w, h, from, p, m[p]) by {
            assert forall|s: Seq<int>| #[trigger] walk(ok, w, h, from, s) == Some(p) implies !shortlex_lt(s, keys[p]) by {
                lemma_least_routes(passable, ok, w, h, from, m, keys, level, queue@, s, p);
            }
            assert(least_route(ok, w, h, from, p, keys[p]));
        }
        assert forall|p: Pos, d: int| m.contains_key(p) && 0 <= d < 4 && (#[trigger] neighbor(p, d, w, h)) is Some
            implies call_ensures(passable, (neighbor(p, d, w, h)->Some_0,), ok(neighbor(p, d, w, h)->Some_0)) by {
            let i = choose|i: int| 0 <= i < queue@.len() && #[trigger] queue@[i].0 == p;
            assert(neighbor(queue@[i].0, d, w, h) is Some);
        }
    }
    steps
}

/// Once every queued cell has had its neighbours looked at, every cell
/// reachable in `n` steps is recorded, at a level of at most `n`.
proof fn lemma_bfs_complete(
    ok: spec_fn(Pos) -> bool,
    w: int,
    h: int,
    from: Pos,
    m: Map<Pos, Pos>,
    level: Map<Pos, nat>,
    queue: Seq<(Pos, Pos)>,
)
    requires
        m.contains_key(from),
        level[from] == 0,
        queued(m, queue),
        expanded(ok, w, h, m, level, queue, queue.len() as int),
    ensures
        forall|n: nat, p: Pos| #[trigger] reach(ok, w, h, from, n, p) ==> m.contains_key(p) && level[p] <= n,
{
    assert forall|n: nat, p: Pos| #[trigger] reach(ok, w, h, from, n, p) implies m.contains_key(p) && level[p] <= n by {
        lemma_bfs_complete_at(ok, w, h, from, m, level, queue, n, p);
    }
}

proof fn lemma_bfs_complete_at(
    ok: spec_fn(Pos) -> bool,
    w: int,
    h: int,
    from: Pos,
    m: Map<Pos, Pos>,
    level: Map<Pos, nat>,
    queue: Seq<(Pos, Pos)>,
    n: nat,
    p: Pos,
)
    requires
        m.contains_key(from),
        level[from] == 0,
        queued(m, queue),
        expanded(ok, w, h, m, level, queue, queue.len() as int),
        reach(ok, w, h, from, n, p),
    ensures
        m.contains_key(p) && level[p] <= n,
    decreases n,
{
    if n > 0 {
        let k = (n - 1) as nat;
        if reach(ok, w, h, from, k, p) {
            lemma_bfs_complete_at(ok, w, h, from, m, level, queue, k, p);
        } else {
            assert(in_grid(p, w, h) && ok(p) && exists|q: Pos| #[trigger] adjacent(q, p) && reach(ok, w, h, from, k, q));
            let q = choose|q: Pos| #[trigger] adjacent(q, p) && reach(ok, w, h, from, k, q);
            lemma_bfs_complete_at(ok, w, h, from, m, level, queue, k, q);
            let i = choose|i: int| 0 <= i < queue.len() && #[trigger] queue[i].0 == q;
            assert(adjacent(queue[i].0, p));
        }
    }
}

} // verus!

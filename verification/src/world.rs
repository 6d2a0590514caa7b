//! Shared world types.
//!
//! Two things are kept apart: the physical world ([`World`]), the one ground
//! truth that robots must update consistently (their real positions and the
//! resource stocks), and knowledge, which each robot keeps on its own mental
//! map and shares through messages ([`Report`] to the base, [`News`] from the
//! base to the robots).

use vstd::prelude::*;

verus! {

/// Coordinates `(x, y)` of a cell.
pub type Pos = (usize, usize);

#[derive(Clone, Copy, PartialEq, Eq, Structural, Debug)]
pub enum ResourceKind {
    Energy,
    Crystal,
}

#[derive(Clone, Copy, PartialEq, Eq, Structural, Debug)]
pub enum RobotKind {
    Scout,
    Collector,
}

/// What a robot knows of a cell. `Unknown` means never perceived.
#[derive(Clone, Copy, PartialEq, Eq, Structural, Debug)]
pub enum Cell {
    Unknown,
    Free,
    Obstacle,
}

/// Perceived cells (terrain) and perceived deposits: what travels between robots.
pub type SeenCells = Vec<(Pos, Cell)>;

pub type SeenResources = Vec<(Pos, ResourceKind)>;

pub type GoneResources = Vec<Pos>;

/// The cell lies on a `width` x `height` grid.
pub open spec fn in_grid(p: Pos, width: int, height: int) -> bool {
    p.0 < width && p.1 < height
}

/// The two cells share a side.
pub open spec fn adjacent(p: Pos, q: Pos) -> bool {
    ||| p.1 == q.1 && (p.0 + 1 == q.0 || q.0 + 1 == p.0)
    ||| p.0 == q.0 && (p.1 + 1 == q.1 || q.1 + 1 == p.1)
}

/// Manhattan distance between two cells.
pub open spec fn distance(a: Pos, b: Pos) -> int {
    (if a.0 >= b.0 { a.0 - b.0 } else { b.0 - a.0 }) + (if a.1 >= b.1 { a.1 - b.1 } else { b.1 - a.1 })
}

/// `p` lies in the square of radius `r` centred on `c`.
pub open spec fn within_square(p: Pos, c: Pos, r: int) -> bool {
    c.0 - r <= p.0 <= c.0 + r && c.1 - r <= p.1 <= c.1 + r
}

/// Row-major order: `p` comes before `q` when the grid is read row by row.
pub open spec fn before(p: Pos, q: Pos) -> bool {
    p.1 < q.1 || (p.1 == q.1 && p.0 < q.0)
}

/// Number of bindings of `m` whose kind is `k`.
pub open spec fn kind_count<A>(m: Map<Pos, (ResourceKind, A)>, k: ResourceKind) -> nat {
    m.dom().filter(of_kind(m, k)).len()
}

pub open spec fn of_kind<A>(m: Map<Pos, (ResourceKind, A)>, k: ResourceKind) -> spec_fn(Pos) -> bool {
    |p: Pos| m[p].0 == k
}

pub proof fn lemma_kind_count_empty<A>(k: ResourceKind)
    ensures
        kind_count(Map::<Pos, (ResourceKind, A)>::empty(), k) == 0,
{
    broadcast use vstd::set::group_set_axioms;
    let m = Map::<Pos, (ResourceKind, A)>::empty();
    assert(m.dom().filter(of_kind(m, k)) =~= Set::empty());
}

/// Binding a fresh cell adds one to the count of its kind and leaves the other
/// counts unchanged.
pub proof fn lemma_kind_count_insert<A>(m: Map<Pos, (ResourceKind, A)>, p: Pos, v: (ResourceKind, A), k: ResourceKind)
    requires
        m.dom().finite(),
        !m.contains_key(p),
    ensures
        kind_count(m.insert(p, v), k) == kind_count(m, k) + (if v.0 == k { 1int } else { 0int }),
{
    broadcast use vstd::set::group_set_axioms;
    let m2 = m.insert(p, v);
    let f1 = of_kind(m, k);
    let f2 = of_kind(m2, k);
    m.dom().lemma_len_filter(f1);
    if v.0 == k {
        assert(m2.dom().filter(f2) =~= m.dom().filter(f1).insert(p));
    } else {
        assert(m2.dom().filter(f2) =~= m.dom().filter(f1));
    }
}

/// Number of units of kind `k` in a finite set of deposits.
pub open spec fn units_of(m: Map<Pos, (ResourceKind, u32)>, k: ResourceKind) -> nat
    decreases m.dom().len(),
    when m.dom().finite()
{
    if m.dom().len() == 0 {
        0
    } else {
        let p = m.dom().choose();
        proof {
            broadcast use vstd::set::group_set_axioms;
            broadcast use vstd::map::group_map_axioms;
            assert(m.dom().contains(p));
            assert(m.remove(p).dom() == m.dom().remove(p));
        }
        (if m[p].0 == k { m[p].1 as nat } else { 0 }) + units_of(m.remove(p), k)
    }
}

/// The units of kind `k` of one deposit plus those of all the others.
pub proof fn lemma_units_split(m: Map<Pos, (ResourceKind, u32)>, p: Pos, k: ResourceKind)
    requires
        m.dom().finite(),
        m.contains_key(p),
    ensures
        units_of(m, k) == (if m[p].0 == k { m[p].1 as nat } else { 0 }) + units_of(m.remove(p), k),
    decreases m.dom().len(),
{
    broadcast use vstd::set::group_set_axioms;
    broadcast use vstd::map::group_map_axioms;
    assert(m.dom().len() != 0);
    let c = m.dom().choose();
    assert(m.dom().contains(c));
    if c != p {
        let mc = m.remove(c);
        let mp = m.remove(p);
        assert(mc.dom() == m.dom().remove(c));
        assert(mp.dom() == m.dom().remove(p));
        lemma_units_split(mc, p, k);
        lemma_units_split(mp, c, k);
        assert(mc.remove(p) =~= mp.remove(c));
        assert(mc[p] == m[p]);
        assert(mp[c] == m[c]);
    }
}

/// The map that a list of entries with pairwise distinct keys stands for.
pub open spec fn entries_map<V>(s: Seq<(Pos, V)>) -> Map<Pos, V>
    decreases s.len(),
{
    if s.len() == 0 {
        Map::empty()
    } else {
        entries_map(s.drop_last()).insert(s.last().0, s.last().1)
    }
}

/// No key occurs twice.
pub open spec fn distinct_keys<V>(s: Seq<(Pos, V)>) -> bool {
    forall|i: int, j: int| 0 <= i < j < s.len() ==> #[trigger] s[i].0 != #[trigger] s[j].0
}

/// With distinct keys, the map holds exactly the listed keys, each bound to its
/// listed value.
pub proof fn lemma_entries_map<V>(s: Seq<(Pos, V)>)
    requires
        distinct_keys(s),
    ensures
        forall|p: Pos|
            #[trigger] entries_map(s).contains_key(p) <==> exists|i: int|
                0 <= i < s.len() && #[trigger] s[i].0 == p,
        forall|i: int| 0 <= i < s.len() ==> #[trigger] entries_map(s)[s[i].0] == s[i].1,
    decreases s.len(),
{
    if s.len() > 0 {
        let t = s.drop_last();
        assert(distinct_keys(t));
        lemma_entries_map(t);
        assert forall|p: Pos| #[trigger]
            entries_map(s).contains_key(p) <==> exists|i: int|
                0 <= i < s.len() && #[trigger] s[i].0 == p by {
            if entries_map(s).contains_key(p) {
                if p == s.last().0 {
                    assert(s[s.len() - 1].0 == p);
                } else {
                    assert(entries_map(t).contains_key(p));
                    let i = choose|i: int| 0 <= i < t.len() && #[trigger] t[i].0 == p;
                    assert(s[i].0 == p);
                }
            }
            if exists|i: int| 0 <= i < s.len() && #[trigger] s[i].0 == p {
                let i = choose|i: int| 0 <= i < s.len() && #[trigger] s[i].0 == p;
                if i < s.len() - 1 {
                    assert(t[i].0 == p);
                    assert(entries_map(t).contains_key(p));
                }
            }
        }
        assert forall|i: int| 0 <= i < s.len() implies #[trigger] entries_map(s)[s[i].0]
            == s[i].1 by {
            if i < s.len() - 1 {
                assert(t[i] == s[i]);
                assert(entries_map(t)[t[i].0] == t[i].1);
                assert(s[i].0 != s[s.len() - 1].0);
            }
        }
    }
}

pub proof fn lemma_entries_map_finite<V>(s: Seq<(Pos, V)>)
    ensures
        entries_map(s).dom().finite(),
    decreases s.len(),
{
    if s.len() > 0 {
        lemma_entries_map_finite(s.drop_last());
    }
}

/// A finite map keyed by cell, kept as a list of entries whose keys are pairwise
/// distinct.
pub struct PosMap<V> {
    entries: Vec<(Pos, V)>,
}

impl<V: Copy> PosMap<V> {
    pub closed spec fn wf(&self) -> bool {
        distinct_keys(self.entries@)
    }

    pub closed spec fn view(&self) -> Map<Pos, V> {
        entries_map(self.entries@)
    }

    pub proof fn lemma_finite(&self)
        ensures
            self.view().dom().finite(),
    {
        lemma_entries_map_finite(self.entries@);
    }

    /// The keys, in the order in which the map lists them.
    pub closed spec fn key_seq(&self) -> Seq<Pos> {
        self.entries@.map_values(|e: (Pos, V)| e.0)
    }

    pub proof fn lemma_key_seq(&self)
        requires
            self.wf(),
        ensures
            forall|p: Pos| #[trigger] self.view().contains_key(p) <==> self.key_seq().contains(p),
            self.key_seq().no_duplicates(),
    {
        lemma_entries_map(self.entries@);
        assert forall|p: Pos| #[trigger] self.view().contains_key(p) <==> self.key_seq().contains(
            p,
        ) by {
            if self.view().contains_key(p) {
                let i = choose|i: int|
                    0 <= i < self.entries@.len() && #[trigger] self.entries@[i].0 == p;
                assert(self.key_seq()[i] == p);
            }
            if self.key_seq().contains(p) {
                let i = choose|i: int| 0 <= i < self.key_seq().len() && self.key_seq()[i] == p;
                assert(self.entries@[i].0 == p);
            }
        }
    }

    pub fn new() -> (m: Self)
        ensures
            m.wf(),
            m.view() == Map::<Pos, V>::empty(),
    {
        PosMap { entries: Vec::new() }
    }

    /// Index of the entry with key `p`, if any.
    fn find(&self, p: Pos) -> (r: Option<usize>)
        requires
            self.wf(),
        ensures
            match r {
                Some(i) => i < self.entries@.len() && self.entries@[i as int].0 == p,
                None => forall|i: int| 0 <= i < self.entries@.len() ==> self.entries@[i].0 != p,
            },
    {
        let mut i: usize = 0;
        while i < self.entries.len()
            invariant
                i <= self.entries@.len(),
                forall|j: int| 0 <= j < i ==> self.entries@[j].0 != p,
            decreases self.entries@.len() - i,
        {
            let e = self.entries[i].0;
            if e.0 == p.0 && e.1 == p.1 {
                return Some(i);
            }
            i = i + 1;
        }
        None
    }

    pub fn get(&self, p: &Pos) -> (r: Option<V>)
        requires
            self.wf(),
        ensures
            r == (if self.view().contains_key(*p) {
                Some(self.view()[*p])
            } else {
                None
            }),
    {
        proof {
            lemma_entries_map(self.entries@);
        }
        match self.find(*p) {
            Some(i) => Some(self.entries[i].1),
            None => None,
        }
    }

    pub fn contains_key(&self, p: &Pos) -> (r: bool)
        requires
            self.wf(),
        ensures
            r == self.view().contains_key(*p),
    {
        proof {
            lemma_entries_map(self.entries@);
        }
        self.find(*p).is_some()
    }

    /// Binds `p` to `v`, replacing any earlier binding of `p`.
    pub fn insert(&mut self, p: Pos, v: V)
        requires
            old(self).wf(),
        ensures
            final(self).wf(),
            final(self).view() == old(self).view().insert(p, v),
    {
        let ghost s0 = self.entries@;
        proof {
            lemma_entries_map(s0);
        }
        match self.find(p) {
            Some(i) => {
                self.entries.set(i, (p, v));
                let ghost s1 = self.entries@;
                assert(s1 == s0.update(i as int, (p, v)));
                assert(distinct_keys(s1)) by {
                    assert forall|a: int, b: int| 0 <= a < b < s1.len() implies #[trigger] s1[a].0
                        != #[trigger] s1[b].0 by {
                        assert(s0[a].0 != s0[b].0);
                    }
                }
                proof {
                    lemma_entries_map(s1);
                }
                assert(entries_map(s1) =~= entries_map(s0).insert(p, v)) by {
                    assert forall|q: Pos| #[trigger]
                        entries_map(s1).contains_key(q) implies entries_map(s0).insert(
                        p,
                        v,
                    ).contains_key(q) by {
                        let j = choose|j: int| 0 <= j < s1.len() && #[trigger] s1[j].0 == q;
                        if j != i {
                            assert(s0[j].0 == q);
                        }
                    }
                    assert forall|q: Pos| #[trigger]
                        entries_map(s0).insert(p, v).contains_key(q) implies entries_map(
                        s1,
                    ).contains_key(q) && entries_map(s1)[q] == entries_map(s0).insert(p, v)[q] by {
                        if q == p {
                            assert(s1[i as int].0 == q);
                        } else {
                            let j = choose|j: int| 0 <= j < s0.len() && #[trigger] s0[j].0 == q;
                            assert(s1[j] == s0[j]);
                        }
                    }
                }
            },
            None => {
                self.entries.push((p, v));
                let ghost s1 = self.entries@;
                assert(s1.drop_last() =~= s0);
                assert(distinct_keys(s1)) by {
                    assert forall|a: int, b: int| 0 <= a < b < s1.len() implies #[trigger] s1[a].0
                        != #[trigger] s1[b].0 by {
                        if b < s0.len() {
                            assert(s0[a].0 != s0[b].0);
                        }
                    }
                }
            },
        }
    }

    /// Removes the binding of `p`, if any.
    pub fn remove(&mut self, p: &Pos)
        requires
            old(self).wf(),
        ensures
            final(self).wf(),
            final(self).view() == old(self).view().remove(*p),
    {
        let ghost s0 = self.entries@;
        proof {
            lemma_entries_map(s0);
        }
        match self.find(*p) {
            Some(i) => {
                self.entries.remove(i);
                let ghost s1 = self.entries@;
                assert(s1 == s0.remove(i as int));
                assert(distinct_keys(s1)) by {
                    assert forall|a: int, b: int| 0 <= a < b < s1.len() implies #[trigger] s1[a].0
                        != #[trigger] s1[b].0 by {
                        if a < i {
                            if b < i {
                                assert(s0[a].0 != s0[b].0);
                            } else {
                                assert(s0[a].0 != s0[b + 1].0);
                            }
                        } else {
                            assert(s0[a + 1].0 != s0[b + 1].0);
                        }
                    }
                }
                proof {
                    lemma_entries_map(s1);
                }
                assert(entries_map(s1) =~= entries_map(s0).remove(*p)) by {
                    assert forall|q: Pos| #[trigger]
                        entries_map(s1).contains_key(q) implies entries_map(s0).remove(
                        *p,
                    ).contains_key(q) by {
                        let j = choose|j: int| 0 <= j < s1.len() && #[trigger] s1[j].0 == q;
                        if j < i {
                            assert(s0[j].0 == q);
                            assert(s0[j].0 != s0[i as int].0);
                        } else {
                            assert(s0[j + 1].0 == q);
                            assert(s0[j + 1].0 != s0[i as int].0);
                        }
                    }
                    assert forall|q: Pos| #[trigger]
                        entries_map(s0).remove(*p).contains_key(q) implies entries_map(
                        s1,
                    ).contains_key(q) && entries_map(s1)[q] == entries_map(s0).remove(*p)[q] by {
                        let j = choose|j: int| 0 <= j < s0.len() && #[trigger] s0[j].0 == q;
                        assert(j != i);
                        if j < i {
                            assert(s1[j] == s0[j]);
                        } else {
                            assert(s1[j - 1] == s0[j]);
                        }
                    }
                }
            },
            None => {
                assert(entries_map(s0) =~= entries_map(s0).remove(*p));
            },
        }
    }

    /// The keys, each once.
    pub fn keys(&self) -> (ks: Vec<Pos>)
        requires
            self.wf(),
        ensures
            ks@ == self.key_seq(),
            ks@.no_duplicates(),
            forall|p: Pos| #[trigger] self.view().contains_key(p) <==> ks@.contains(p),
    {
        proof {
            self.lemma_key_seq();
        }
        let mut ks: Vec<Pos> = Vec::new();
        let mut i: usize = 0;
        while i < self.entries.len()
            invariant
                i <= self.entries@.len(),
                ks@ =~= self.key_seq().take(i as int),
            decreases self.entries@.len() - i,
        {
            ks.push(self.entries[i].0);
            i = i + 1;
        }
        assert(self.key_seq().take(self.entries@.len() as int) =~= self.key_seq());
        ks
    }
}

/// The physical world shared by the robots. Deliberately minimal: no knowledge,
/// only the reality that several robots must update consistently.
pub struct World {
    /// Real position of each robot (the index is the robot's id).
    pub positions: Vec<Pos>,
    /// Remaining deposits: cell -> (kind, quantity).
    pub resources: PosMap<(ResourceKind, u32)>,
}

impl World {
    /// A world where `count` robots all stand on `base`, with the given deposits.
    pub fn all_at(base: Pos, count: usize, resources: PosMap<(ResourceKind, u32)>) -> (w: World)
        ensures
            w.positions@ == Seq::new(count as nat, |i: int| base),
            w.resources == resources,
    {
        let mut positions: Vec<Pos> = Vec::new();
        let mut i: usize = 0;
        while i < count
            invariant
                i <= count,
                positions@ == Seq::new(i as nat, |j: int| base),
            decreases count - i,
        {
            positions.push(base);
            i = i + 1;
            assert(positions@ =~= Seq::new(i as nat, |j: int| base));
        }
        World { positions, resources }
    }
}

/// The terrain of the simulation is this wide and this high.
pub const MAP_WIDTH: usize = 80;

pub const MAP_HEIGHT: usize = 25;

/// The robots of the simulation: 3 scouts, then 2 collectors.
pub fn crew() -> (kinds: Vec<RobotKind>)
    ensures
        kinds@ == seq![RobotKind::Scout, RobotKind::Scout, RobotKind::Scout, RobotKind::Collector, RobotKind::Collector],
{
    let mut kinds: Vec<RobotKind> = Vec::new();
    kinds.push(RobotKind::Scout);
    kinds.push(RobotKind::Scout);
    kinds.push(RobotKind::Scout);
    kinds.push(RobotKind::Collector);
    kinds.push(RobotKind::Collector);
    assert(kinds@ =~= seq![RobotKind::Scout, RobotKind::Scout, RobotKind::Scout, RobotKind::Collector, RobotKind::Collector]);
    kinds
}

/// Message from a robot to the base.
pub enum Report {
    /// Cells and deposits that the robot has just discovered.
    Seen { cells: SeenCells, resources: SeenResources, gone_resources: GoneResources },
    /// One unit was dropped at the base.
    Delivered(ResourceKind),
}

/// Message from the base to the robots: the freshly aggregated knowledge,
/// broadcast so that each robot benefits from the others' discoveries.
#[derive(Clone)]
pub struct News {
    pub cells: SeenCells,
    pub resources: SeenResources,
    pub gone_resources: GoneResources,
}

} // verus!

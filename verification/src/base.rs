//! The role of the BASE as a communication hub: it takes in the robots'
//! reports, aggregates the common knowledge, counts the deliveries, and
//! decides what fresh knowledge to broadcast back to every robot.

use crate::knowledge::{lemma_with_cells_append, with_cells, with_deposits, without_deposits, Knowledge};
use crate::world::{Cell, News, Pos, Report, ResourceKind, World};
use vstd::prelude::*;

verus! {

/// Takes in one report: what was seen goes on the board (cells, then
/// deposits, then deposits gone) and into the `fresh` knowledge to broadcast;
/// a delivery adds one to the count of its kind (energy first, crystal second).
pub fn receive_report(board: &mut Knowledge, totals: &mut (u32, u32), report: Report, fresh: &mut News)
    requires
        old(board).resources.wf(),
        report matches Report::Seen { cells, .. } ==> forall|i: int|
            0 <= i < cells@.len() ==> old(board).covers(#[trigger] cells@[i].0),
        report == Report::Delivered(ResourceKind::Energy) ==> old(totals).0 < u32::MAX,
        report == Report::Delivered(ResourceKind::Crystal) ==> old(totals).1 < u32::MAX,
    ensures
        final(board).resources.wf(),
        final(board).cells@.len() == old(board).cells@.len(),
        forall|y: int| 0 <= y < old(board).cells@.len() ==> #[trigger] final(board).cells@[y]@.len() == old(board).cells@[y]@.len(),
        match report {
            Report::Seen { cells, resources, gone_resources } => {
                &&& final(board).grid() == with_cells(old(board).grid(), cells@)
                &&& final(board).resources.view() == without_deposits(
                    with_deposits(old(board).resources.view(), resources@),
                    gone_resources@,
                )
                &&& *final(totals) == *old(totals)
                &&& final(fresh).cells@ == old(fresh).cells@ + cells@
                &&& final(fresh).resources@ == old(fresh).resources@ + resources@
                &&& final(fresh).gone_resources@ == old(fresh).gone_resources@ + gone_resources@
            },
            Report::Delivered(kind) => {
                &&& final(board).cells == old(board).cells
                &&& final(board).resources == old(board).resources
                &&& *final(totals) == (match kind {
                    ResourceKind::Energy => ((old(totals).0 + 1) as u32, old(totals).1),
                    ResourceKind::Crystal => (old(totals).0, (old(totals).1 + 1) as u32),
                })
                &&& final(fresh).cells@ == old(fresh).cells@
                &&& final(fresh).resources@ == old(fresh).resources@
                &&& final(fresh).gone_resources@ == old(fresh).gone_resources@
            },
        },
{
    match report {
        Report::Seen { cells, resources, gone_resources } => {
            board.note_cells_in_order(&cells);
            board.note_resources_in_order(&resources);
            board.forget_resources_in_order(&gone_resources);
            append(&mut fresh.cells, &cells);
            append(&mut fresh.resources, &resources);
            append(&mut fresh.gone_resources, &gone_resources);
        },
        Report::Delivered(kind) => match kind {
            ResourceKind::Energy => {
                totals.0 = totals.0 + 1;
            },
            ResourceKind::Crystal => {
                totals.1 = totals.1 + 1;
            },
        },
    }
}

/// How many of `reports` are deliveries of kind `k`.
pub open spec fn deliveries(reports: Seq<Report>, k: ResourceKind) -> nat
    decreases reports.len(),
{
    if reports.len() == 0 {
        0
    } else {
        deliveries(reports.drop_last(), k) + (if reports.last() == Report::Delivered(k) { 1nat } else { 0nat })
    }
}

/// The cells seen in `reports`, one report after the other.
pub open spec fn seen_cells(reports: Seq<Report>) -> Seq<(Pos, Cell)>
    decreases reports.len(),
{
    if reports.len() == 0 {
        Seq::empty()
    } else {
        seen_cells(reports.drop_last()) + match reports.last() {
            Report::Seen { cells, .. } => cells@,
            Report::Delivered(_) => Seq::empty(),
        }
    }
}

/// The deposits spotted in `reports`, one report after the other.
pub open spec fn seen_deposits(reports: Seq<Report>) -> Seq<(Pos, ResourceKind)>
    decreases reports.len(),
{
    if reports.len() == 0 {
        Seq::empty()
    } else {
        seen_deposits(reports.drop_last()) + match reports.last() {
            Report::Seen { resources, .. } => resources@,
            Report::Delivered(_) => Seq::empty(),
        }
    }
}

/// The deposits found gone in `reports`, one report after the other.
pub open spec fn seen_gone(reports: Seq<Report>) -> Seq<Pos>
    decreases reports.len(),
{
    if reports.len() == 0 {
        Seq::empty()
    } else {
        seen_gone(reports.drop_last()) + match reports.last() {
            Report::Seen { gone_resources, .. } => gone_resources@,
            Report::Delivered(_) => Seq::empty(),
        }
    }
}

/// The deposits on the board after taking in `reports` in turn.
pub open spec fn board_deposits(m: Map<Pos, ResourceKind>, reports: Seq<Report>) -> Map<Pos, ResourceKind>
    decreases reports.len(),
{
    if reports.len() == 0 {
        m
    } else {
        let before = board_deposits(m, reports.drop_last());
        match reports.last() {
            Report::Seen { resources, gone_resources, .. } => without_deposits(
                with_deposits(before, resources@),
                gone_resources@,
            ),
            Report::Delivered(_) => before,
        }
    }
}

/// Every cell that a report says it saw lies on the board.
pub open spec fn on_board(board: &Knowledge, reports: Seq<Report>) -> bool {
    forall|i: int| 0 <= i < reports.len() ==> fits_board(board, #[trigger] reports[i])
}

/// Every cell that the report says it saw lies on the board.
pub open spec fn fits_board(board: &Knowledge, report: Report) -> bool {
    report matches Report::Seen { cells, .. } ==> forall|j: int| 0 <= j < cells@.len() ==> board.covers(#[trigger] cells@[j].0)
}

/// Takes in a batch of reports in the order they came: the board takes in
/// what was seen, report after report; the fresh knowledge gathers it; each
/// delivery adds one to the count of its kind, and nothing else changes the
/// counts.
pub fn receive_reports(board: &mut Knowledge, totals: &mut (u32, u32), reports: Vec<Report>, fresh: &mut News)
    requires
        old(board).resources.wf(),
        on_board(old(board), reports@),
        old(totals).0 + deliveries(reports@, ResourceKind::Energy) <= u32::MAX,
        old(totals).1 + deliveries(reports@, ResourceKind::Crystal) <= u32::MAX,
    ensures
        final(board).resources.wf(),
        final(board).cells@.len() == old(board).cells@.len(),
        forall|y: int| 0 <= y < old(board).cells@.len() ==> #[trigger] final(board).cells@[y]@.len() == old(board).cells@[y]@.len(),
        final(board).grid() == with_cells(old(board).grid(), seen_cells(reports@)),
        final(board).resources.view() == board_deposits(old(board).resources.view(), reports@),
        final(totals).0 == old(totals).0 + deliveries(reports@, ResourceKind::Energy),
        final(totals).1 == old(totals).1 + deliveries(reports@, ResourceKind::Crystal),
        final(fresh).cells@ == old(fresh).cells@ + seen_cells(reports@),
        final(fresh).resources@ == old(fresh).resources@ + seen_deposits(reports@),
        final(fresh).gone_resources@ == old(fresh).gone_resources@ + seen_gone(reports@),
{
    let ghost all = reports@;
    let ghost b0 = *board;
    let ghost t0 = *totals;
    let ghost f0 = *fresh;
    assert(all.len() == reports.len());
    let mut rest = reports;
    let mut i: usize = 0;
    proof {
        assert(all.take(0) =~= Seq::<Report>::empty());
        assert(with_cells(b0.grid(), Seq::empty()) == b0.grid());
        assert(f0.cells@ + Seq::<(Pos, Cell)>::empty() =~= f0.cells@);
        assert(f0.resources@ + Seq::<(Pos, ResourceKind)>::empty() =~= f0.resources@);
        assert(f0.gone_resources@ + Seq::<Pos>::empty() =~= f0.gone_resources@);
        assert(all.skip(0) =~= all);
    }
    while rest.len() > 0
        invariant
            i <= all.len(),
            all.len() <= usize::MAX,
            rest@ == all.skip(i as int),
            board.resources.wf(),
            board.cells@.len() == b0.cells@.len(),
            forall|y: int| 0 <= y < b0.cells@.len() ==> #[trigger] board.cells@[y]@.len() == b0.cells@[y]@.len(),
            on_board(&b0, all),
            t0.0 + deliveries(all, ResourceKind::Energy) <= u32::MAX,
            t0.1 + deliveries(all, ResourceKind::Crystal) <= u32::MAX,
            board.grid() == with_cells(b0.grid(), seen_cells(all.take(i as int))),
            board.resources.view() == board_deposits(b0.resources.view(), all.take(i as int)),
            totals.0 == t0.0 + deliveries(all.take(i as int), ResourceKind::Energy),
            totals.1 == t0.1 + deliveries(all.take(i as int), ResourceKind::Crystal),
            fresh.cells@ == f0.cells@ + seen_cells(all.take(i as int)),
            fresh.resources@ == f0.resources@ + seen_deposits(all.take(i as int)),
            fresh.gone_resources@ == f0.gone_resources@ + seen_gone(all.take(i as int)),
        decreases rest@.len(),
    {
        assert(rest@.len() == all.len() - i);
        let report = rest.remove(0);
        let ghost pre = all.take(i as int);
        let ghost next = all.take(i + 1);
        proof {
            assert(report == all[i as int]);
            assert(next.drop_last() =~= pre);
            assert(next.last() == report);
            lemma_deliveries_prefix(all, i + 1, ResourceKind::Energy);
            lemma_deliveries_prefix(all, i + 1, ResourceKind::Crystal);
            assert(fits_board(&b0, all[i as int]));
        }
        let ghost rep = report;
        receive_report(board, totals, report, fresh);
        proof {
            match rep {
                Report::Seen { cells, resources, gone_resources } => {
                    lemma_with_cells_append(b0.grid(), seen_cells(pre), cells@);
                    assert(seen_cells(next) == seen_cells(pre) + cells@);
                    assert(f0.cells@ + seen_cells(next) =~= f0.cells@ + seen_cells(pre) + cells@);
                    assert(seen_deposits(next) == seen_deposits(pre) + resources@);
                    assert(f0.resources@ + seen_deposits(next) =~= f0.resources@ + seen_deposits(pre) + resources@);
                    assert(seen_gone(next) == seen_gone(pre) + gone_resources@);
                    assert(f0.gone_resources@ + seen_gone(next) =~= f0.gone_resources@ + seen_gone(pre) + gone_resources@);
                },
                Report::Delivered(_) => {
                    assert(seen_cells(next) =~= seen_cells(pre));
                    assert(seen_deposits(next) =~= seen_deposits(pre));
                    assert(seen_gone(next) =~= seen_gone(pre));
                },
            }
            assert(rest@ =~= all.skip(i + 1));
        }
        i = i + 1;
    }
    proof {
        assert(all.take(i as int) =~= all);
    }
}

/// The deliveries among the first `n` reports never exceed those among all of them.
proof fn lemma_deliveries_prefix(all: Seq<Report>, n: int, k: ResourceKind)
    requires
        0 <= n <= all.len(),
    ensures
        deliveries(all.take(n), k) <= deliveries(all, k),
    decreases all.len() - n,
{
    if n < all.len() {
        lemma_deliveries_prefix(all, n + 1, k);
        assert(all.take(n + 1).drop_last() =~= all.take(n));
    } else {
        assert(all.take(n) =~= all);
    }
}

/// Copies the entries of `extra` at the end of `v`.
fn append<T: Copy>(v: &mut Vec<T>, extra: &Vec<T>)
    ensures
        final(v)@ == old(v)@ + extra@,
{
    let ghost v0 = v@;
    let mut i: usize = 0;
    while i < extra.len()
        invariant
            i <= extra@.len(),
            v@ == v0 + extra@.take(i as int),
        decreases extra@.len() - i,
    {
        v.push(extra[i]);
        assert(extra@.take(i + 1) =~= extra@.take(i as int).push(extra@[i as int]));
        i = i + 1;
    }
    assert(extra@.take(extra@.len() as int) =~= extra@);
}

/// The fresh knowledge is broadcast only when there is some.
pub fn news_to_share(fresh: News) -> (r: Option<News>)
    ensures
        match r {
            Some(n) => (fresh.cells@.len() > 0 || fresh.resources@.len() > 0 || fresh.gone_resources@.len() > 0)
                && n == fresh,
            None => fresh.cells@.len() == 0 && fresh.resources@.len() == 0 && fresh.gone_resources@.len() == 0,
        },
{
    if fresh.cells.len() > 0 || fresh.resources.len() > 0 || fresh.gone_resources.len() > 0 {
        Some(fresh)
    } else {
        None
    }
}

/// The deposits on the board that are still present in the world, each once:
/// what the display shows.
pub fn visible_resources(board: &Knowledge, world: &World) -> (r: Vec<(Pos, ResourceKind)>)
    requires
        board.resources.wf(),
        world.resources.wf(),
    ensures
        forall|i: int| 0 <= i < r@.len() ==> board.resources.view().contains_key(#[trigger] r@[i].0)
            && board.resources.view()[r@[i].0] == r@[i].1 && world.resources.view().contains_key(r@[i].0),
        forall|p: Pos| board.resources.view().contains_key(p) && world.resources.view().contains_key(p) ==> exists|i: int|
            0 <= i < r@.len() && #[trigger] r@[i].0 == p,
        forall|i: int, j: int| 0 <= i < j < r@.len() ==> #[trigger] r@[i].0 != #[trigger] r@[j].0,
{
    let keys = board.resources.keys();
    let mut out: Vec<(Pos, ResourceKind)> = Vec::new();
    // `idx[k]` is the index in `keys` of the entry `out[k]`.
    let ghost mut idx: Seq<int> = Seq::empty();
    let mut i: usize = 0;
    while i < keys.len()
        invariant
            i <= keys@.len(),
            board.resources.wf(),
            world.resources.wf(),
            keys@.no_duplicates(),
            forall|p: Pos| #[trigger] board.resources.view().contains_key(p) <==> keys@.contains(p),
            idx.len() == out@.len(),
            forall|k: int| #![trigger out@[k]] #![trigger idx[k]] 0 <= k < out@.len() ==> 0 <= idx[k] < i && out@[k].0 == keys@[idx[k]]
                && board.resources.view().contains_key(out@[k].0)
                && board.resources.view()[out@[k].0] == out@[k].1 && world.resources.view().contains_key(out@[k].0),
            forall|a: int, b: int| 0 <= a < b < idx.len() ==> #[trigger] idx[a] < #[trigger] idx[b],
            forall|j: int| 0 <= j < i && world.resources.view().contains_key(#[trigger] keys@[j]) ==> exists|k: int|
                0 <= k < idx.len() && #[trigger] idx[k] == j,
        decreases keys@.len() - i,
    {
        let p = keys[i];
        let ghost o0 = out@;
        let ghost idx0 = idx;
        assert(keys@.contains(keys@[i as int]));
        if world.resources.contains_key(&p) {
            match board.resources.get(&p) {
                Some(kind) => {
                    out.push((p, kind));
                    proof {
                        idx = idx.push(i as int);
                        assert forall|a: int, b: int| 0 <= a < b < idx.len() implies #[trigger] idx[a] < #[trigger] idx[b] by {
                            if b == idx0.len() {
                                assert(idx[a] == idx0[a]);
                                assert(o0[a] == out@[a]);
                                assert(idx0[a] < i);
                            } else {
                                assert(idx[a] == idx0[a]);
                                assert(idx[b] == idx0[b]);
                            }
                        }
                    }
                },
                None => {},
            }
        }
        proof {
            assert forall|k: int| #![trigger out@[k]] #![trigger idx[k]] 0 <= k < out@.len() implies 0 <= idx[k] < i + 1 && out@[k].0 == keys@[idx[k]]
                && board.resources.view().contains_key(out@[k].0)
                && board.resources.view()[out@[k].0] == out@[k].1 && world.resources.view().contains_key(out@[k].0) by {
                if k < o0.len() {
                    assert(out@[k] == o0[k]);
                    assert(idx[k] == idx0[k]);
                    assert(0 <= idx0[k] < i && o0[k].0 == keys@[idx0[k]]);
                } else {
                    assert(idx[k] == i);
                }
            }
            assert forall|j: int| 0 <= j < i + 1 && world.resources.view().contains_key(#[trigger] keys@[j]) implies exists|k: int|
                0 <= k < idx.len() && #[trigger] idx[k] == j by {
                if j < i {
                    let k = choose|k: int| 0 <= k < idx0.len() && #[trigger] idx0[k] == j;
                    assert(idx[k] == idx0[k]);
                } else {
                    assert(idx[idx0.len() as int] == j);
                }
            }
        }
        i = i + 1;
    }
    proof {
        assert forall|p: Pos| board.resources.view().contains_key(p) && world.resources.view().contains_key(p) implies exists|k: int|
            0 <= k < out@.len() && #[trigger] out@[k].0 == p by {
            let j = choose|j: int| 0 <= j < keys@.len() && keys@[j] == p;
            assert(world.resources.view().contains_key(keys@[j]));
            let k = choose|k: int| 0 <= k < idx.len() && #[trigger] idx[k] == j;
            assert(out@[k].0 == keys@[idx[k]]);
        }
        assert forall|a: int, b: int| 0 <= a < b < out@.len() implies #[trigger] out@[a].0 != #[trigger] out@[b].0 by {
            assert(idx[a] < idx[b]);
            assert(out@[a].0 == keys@[idx[a]]);
            assert(out@[b].0 == keys@[idx[b]]);
        }
    }
    out
}

} // verus!

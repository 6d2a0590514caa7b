use std::collections::HashSet;

use resource_sim::base::{news_to_share, receive_reports};
use resource_sim::knowledge::Knowledge;
use resource_sim::map::Terrain;
use resource_sim::robot::{absorb_news, collector_tick, report, scout_step};
use resource_sim::world::{crew, Cell, News, Report, ResourceKind, RobotKind, World};

fn units_left(world: &World) -> u64 {
    world
        .resources
        .keys()
        .iter()
        .map(|p| world.resources.get(p).unwrap().1 as u64)
        .sum()
}

/// Runs the simulation one robot after the other, the base relaying the
/// knowledge between ticks, and checks that it makes progress: knowledge
/// circulates, robots explore, no two robots ever end up on one cell once
/// they have spread out, and every unit taken is either carried or delivered.
#[test]
fn the_simulation_shares_knowledge_delivers_and_avoids_collisions() {
    let mut rng = rand::thread_rng();
    let rough = vec![vec![false; 20]; 10];
    let (map, resources) = Terrain::new(20, 10, &rough, &mut rng);
    let kinds = crew();
    assert_eq!(kinds.len(), 5);
    let mut world = World::all_at(map.base, kinds.len(), resources);
    assert_eq!(world.positions, vec![map.base; 5]);
    let initial_units = units_left(&world);
    let mut minds: Vec<Knowledge> = kinds.iter().map(|_| Knowledge::with_base_seen(&map)).collect();
    let mut inboxes: Vec<Vec<News>> = kinds.iter().map(|_| Vec::new()).collect();
    let mut carrying: Vec<Option<ResourceKind>> = vec![None; kinds.len()];
    let mut board = Knowledge::with_base_seen(&map);
    let mut totals = (0u32, 0u32);
    let mut visited: HashSet<(usize, usize)> = HashSet::new();
    let mut apart_since: Option<usize> = None;

    for tick in 0..1500 {
        let mut outbox: Vec<Report> = Vec::new();
        for id in 0..kinds.len() {
            for news in inboxes[id].drain(..) {
                absorb_news(&mut minds[id], &news);
            }
            match kinds[id] {
                RobotKind::Scout => {
                    let (cells, res) = scout_step(id, &map, &mut world, &mut minds[id], &mut rng);
                    outbox.extend(report(cells, res, vec![], None));
                }
                RobotKind::Collector => {
                    let (cells, res, gone, delivered) =
                        collector_tick(id, &map, &mut world, &mut minds[id], &mut carrying[id], &mut rng);
                    outbox.extend(report(cells, res, gone, delivered));
                }
            }
        }
        let mut fresh = News { cells: vec![], resources: vec![], gone_resources: vec![] };
        receive_reports(&mut board, &mut totals, outbox, &mut fresh);
        if let Some(news) = news_to_share(fresh) {
            for inbox in inboxes.iter_mut() {
                inbox.push(news.clone());
            }
        }
        visited.extend(world.positions.iter().copied());
        let unique: HashSet<_> = world.positions.iter().collect();
        if unique.len() == world.positions.len() {
            if apart_since.is_none() {
                apart_since = Some(tick);
            }
        } else {
            assert!(apart_since.is_none(), "collision after the robots had spread out: {:?}", world.positions);
        }
        let carried = carrying.iter().filter(|c| c.is_some()).count() as u64;
        assert_eq!(units_left(&world) + carried + totals.0 as u64 + totals.1 as u64, initial_units);
    }

    let known = board.cells.iter().flatten().filter(|c| **c != Cell::Unknown).count();
    assert!(known > 9, "the base should have aggregated discoveries (known = {known})");
    assert!(visited.len() > kinds.len(), "the robots should move");
    assert!(apart_since.is_some(), "the robots should spread out");
    assert!(totals.0 + totals.1 > 0, "the collectors should deliver");
}

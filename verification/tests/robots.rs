use resource_sim::knowledge::Knowledge;
use resource_sim::map::{Terrain, Tile};
use resource_sim::robot::{
    absorb_news, collector_act, collector_move, collector_tick, manhattan, others, perceive, plan_step,
    report, scout_step,
};
use resource_sim::world::{Cell, News, PosMap, Report, ResourceKind, World};

/// An open 5x5 terrain with the base in the centre.
fn open_terrain() -> Terrain {
    let mut tiles = vec![vec![Tile::Empty; 5]; 5];
    tiles[2][2] = Tile::Base;
    Terrain { width: 5, height: 5, tiles, base: (2, 2) }
}

fn world_with(positions: Vec<(usize, usize)>, deposits: &[((usize, usize), ResourceKind, u32)]) -> World {
    let mut resources = PosMap::new();
    for &(p, k, q) in deposits {
        resources.insert(p, (k, q));
    }
    World { positions, resources }
}

#[test]
fn others_leaves_out_the_robot_itself() {
    let positions = vec![(0, 0), (1, 1), (2, 2)];
    assert_eq!(others(&positions, 1), vec![(0, 0), (2, 2)]);
    assert_eq!(others(&positions, 0), vec![(1, 1), (2, 2)]);
    assert_eq!(others(&positions, 7), positions);
}

#[test]
fn manhattan_adds_the_two_gaps() {
    assert_eq!(manhattan((1, 5), (4, 1)), 7);
    assert_eq!(manhattan((4, 1), (1, 5)), 7);
    assert_eq!(manhattan((3, 3), (3, 3)), 0);
}

#[test]
fn perceive_reports_only_what_is_new() {
    let map = open_terrain();
    let world = world_with(vec![(0, 0)], &[((1, 1), ResourceKind::Crystal, 60), ((4, 4), ResourceKind::Energy, 60)]);
    let mut mind = Knowledge::new(5, 5);
    mind.note_cell((0, 0), Cell::Free);
    let (cells, res) = perceive((0, 0), &map, &world, 1, &mut mind);
    // (0,0) was already known as free.
    assert_eq!(cells, vec![((1, 0), Cell::Free), ((0, 1), Cell::Free), ((1, 1), Cell::Free)]);
    assert_eq!(res, vec![((1, 1), ResourceKind::Crystal)]);
    assert_eq!(mind.resources.get(&(1, 1)), Some(ResourceKind::Crystal));
    assert!(!mind.resources.contains_key(&(4, 4)));
    // Looking again from the same place teaches nothing.
    let (cells, res) = perceive((0, 0), &map, &world, 1, &mut mind);
    assert!(cells.is_empty());
    assert!(res.is_empty());
}

#[test]
fn report_sends_what_was_seen_then_the_delivery() {
    let msgs = report(vec![((1, 1), Cell::Free)], vec![], vec![], Some(ResourceKind::Energy));
    assert_eq!(msgs.len(), 2);
    match &msgs[0] {
        Report::Seen { cells, resources, gone_resources } => {
            assert_eq!(cells, &vec![((1, 1), Cell::Free)]);
            assert!(resources.is_empty());
            assert!(gone_resources.is_empty());
        }
        _ => panic!("the first message should be what was seen"),
    }
    assert!(matches!(msgs[1], Report::Delivered(ResourceKind::Energy)));
    assert!(report(vec![], vec![], vec![], None).is_empty());
    let only = report(vec![], vec![((2, 0), ResourceKind::Crystal)], vec![], None);
    assert_eq!(only.len(), 1);
}

#[test]
fn absorb_news_takes_in_cells_and_deposits() {
    let mut mind = Knowledge::new(3, 3);
    let news = News {
        cells: vec![((0, 0), Cell::Obstacle), ((1, 0), Cell::Free), ((0, 0), Cell::Free)],
        resources: vec![((2, 2), ResourceKind::Energy)],
        gone_resources: vec![],
    };
    absorb_news(&mut mind, &news);
    // The later entry for the same cell wins.
    assert_eq!(mind.cells[0][0], Cell::Free);
    assert_eq!(mind.cells[0][1], Cell::Free);
    assert_eq!(mind.cells[2][2], Cell::Unknown);
    assert_eq!(mind.resources.get(&(2, 2)), Some(ResourceKind::Energy));
}

#[test]
fn plan_step_heads_home_when_carrying() {
    let map = open_terrain();
    let mind = Knowledge::with_base_seen(&map);
    let mut rng = rand::thread_rng();
    // From (2,0), the base (2,2) is straight down.
    assert_eq!(plan_step((2, 0), (2, 2), true, &mind, &map, &mut rng), (2, 1));
    // From (0,2), straight right.
    assert_eq!(plan_step((0, 2), (2, 2), true, &mind, &map, &mut rng), (1, 2));
}

#[test]
fn plan_step_goes_to_the_nearest_known_deposit() {
    let map = open_terrain();
    let mut mind = Knowledge::new(5, 5);
    mind.note_resource((4, 0), ResourceKind::Energy);
    mind.note_resource((0, 1), ResourceKind::Crystal);
    let mut rng = rand::thread_rng();
    // From (0,3): (0,1) is at distance 2, (4,0) at 7.
    assert_eq!(plan_step((0, 3), (2, 2), false, &mind, &map, &mut rng), (0, 2));
}

#[test]
fn plan_step_avoids_known_walls() {
    let map = open_terrain();
    let mut mind = Knowledge::new(5, 5);
    // A known wall between (0,0) and the deposit at (2,0).
    mind.note_cell((1, 0), Cell::Obstacle);
    mind.note_resource((2, 0), ResourceKind::Energy);
    let mut rng = rand::thread_rng();
    assert_eq!(plan_step((0, 0), (2, 2), false, &mind, &map, &mut rng), (0, 1));
    // Boxed in by known walls: it stays.
    let mut boxed = Knowledge::new(5, 5);
    boxed.note_cell((1, 0), Cell::Obstacle);
    boxed.note_cell((0, 1), Cell::Obstacle);
    assert_eq!(plan_step((0, 0), (2, 2), false, &boxed, &map, &mut rng), (0, 0));
}

#[test]
fn scout_step_moves_onto_a_free_unoccupied_neighbour() {
    let map = open_terrain();
    let mut world = world_with(vec![(0, 0), (1, 0)], &[((0, 1), ResourceKind::Energy, 80)]);
    let mut mind = Knowledge::new(5, 5);
    let mut rng = rand::thread_rng();
    let (cells, res) = scout_step(0, &map, &mut world, &mut mind, &mut rng);
    // The only free neighbour of (0,0) is (0,1): (1,0) is occupied.
    assert_eq!(world.positions, vec![(0, 1), (1, 0)]);
    assert_eq!(cells.len(), 9);
    assert_eq!(res, vec![((0, 1), ResourceKind::Energy)]);
    // A scout never picks anything up.
    assert_eq!(world.resources.get(&(0, 1)), Some((ResourceKind::Energy, 80)));
}

#[test]
fn collector_picks_up_one_unit_then_unloads_at_the_base() {
    let map = open_terrain();
    let mut world = world_with(vec![(1, 2)], &[((1, 2), ResourceKind::Crystal, 2)]);
    let mut mind = Knowledge::with_base_seen(&map);
    let mut carrying = None;

    let (pos, _, _, _, delivered, acted) = collector_act(0, &map, &mut world, &mut mind, &mut carrying);
    assert_eq!(pos, (1, 2));
    assert!(acted);
    assert_eq!(delivered, None);
    assert_eq!(carrying, Some(ResourceKind::Crystal));
    assert_eq!(world.resources.get(&(1, 2)), Some((ResourceKind::Crystal, 1)));

    // Not at the base yet: nothing happens.
    let (_, _, _, _, delivered, acted) = collector_act(0, &map, &mut world, &mut mind, &mut carrying);
    assert!(!acted);
    assert_eq!(delivered, None);

    let mut rng = rand::thread_rng();
    collector_move(0, (2, 2), &map, &mut world, &mut rng);
    assert_eq!(world.positions, vec![(2, 2)]);
    let (_, _, _, _, delivered, acted) = collector_act(0, &map, &mut world, &mut mind, &mut carrying);
    assert!(acted);
    assert_eq!(delivered, Some(ResourceKind::Crystal));
    assert_eq!(carrying, None);
}

#[test]
fn collector_takes_the_last_unit_and_the_deposit_goes() {
    let map = open_terrain();
    let mut world = world_with(vec![(0, 0)], &[((0, 0), ResourceKind::Energy, 1)]);
    let mut mind = Knowledge::new(5, 5);
    let mut carrying = None;
    let (_, _, res, _, _, acted) = collector_act(0, &map, &mut world, &mut mind, &mut carrying);
    assert!(acted);
    assert_eq!(res, vec![((0, 0), ResourceKind::Energy)]);
    assert!(!world.resources.contains_key(&(0, 0)));
    assert_eq!(carrying, Some(ResourceKind::Energy));
}

#[test]
fn collector_forgets_an_exhausted_deposit() {
    let map = open_terrain();
    let mut world = world_with(vec![(0, 0)], &[]);
    let mut mind = Knowledge::new(5, 5);
    mind.note_resource((0, 0), ResourceKind::Energy);
    let mut carrying = None;
    let (_, _, _, _, delivered, acted) = collector_act(0, &map, &mut world, &mut mind, &mut carrying);
    assert!(!acted);
    assert_eq!(delivered, None);
    assert!(!mind.resources.contains_key(&(0, 0)));
}

#[test]
fn collector_reports_a_known_deposit_found_gone() {
    let map = open_terrain();
    let mut world = world_with(vec![(0, 0)], &[]);
    let mut mind = Knowledge::new(5, 5);
    mind.note_resource((0, 0), ResourceKind::Energy);
    let mut carrying = None;
    let (_, _, _, gone, _, _) = collector_act(0, &map, &mut world, &mut mind, &mut carrying);
    assert_eq!(gone, vec![(0, 0)]);
    let msgs = report(vec![], vec![], gone, None);
    assert_eq!(msgs.len(), 1);
    match &msgs[0] {
        Report::Seen { gone_resources, .. } => assert_eq!(gone_resources, &vec![(0, 0)]),
        _ => panic!("the message should list the deposit gone"),
    }
    // Nothing known there: nothing to report.
    let (_, _, _, gone, _, _) = collector_act(0, &map, &mut world, &mut mind, &mut carrying);
    assert!(gone.is_empty());
}

#[test]
fn absorb_news_forgets_deposits_found_gone() {
    let mut mind = Knowledge::new(3, 3);
    mind.note_resource((1, 1), ResourceKind::Crystal);
    mind.note_resource((2, 2), ResourceKind::Energy);
    let news = News {
        cells: vec![],
        resources: vec![((0, 2), ResourceKind::Energy)],
        gone_resources: vec![(1, 1)],
    };
    absorb_news(&mut mind, &news);
    assert!(!mind.resources.contains_key(&(1, 1)));
    assert_eq!(mind.resources.get(&(2, 2)), Some(ResourceKind::Energy));
    assert_eq!(mind.resources.get(&(0, 2)), Some(ResourceKind::Energy));
}

#[test]
fn collector_move_steps_aside_when_the_target_is_taken() {
    let map = open_terrain();
    let mut world = world_with(vec![(0, 0), (1, 0)], &[]);
    let mut rng = rand::thread_rng();
    // (1,0) is occupied: the only other free neighbour is (0,1).
    collector_move(0, (1, 0), &map, &mut world, &mut rng);
    assert_eq!(world.positions, vec![(0, 1), (1, 0)]);
    // A walled target is refused too.
    let mut walled = open_terrain();
    walled.tiles[0][1] = Tile::Obstacle;
    let mut world = world_with(vec![(0, 0)], &[]);
    collector_move(0, (1, 0), &walled, &mut world, &mut rng);
    assert_eq!(world.positions, vec![(0, 1)]);
}

#[test]
fn plan_step_takes_the_first_direction_among_shortest_paths() {
    let map = open_terrain();
    let mind = Knowledge::with_base_seen(&map);
    let mut rng = rand::thread_rng();
    // Both (1,0) and (0,1) begin a shortest path to (2,2): right comes before down.
    assert_eq!(plan_step((0, 0), (2, 2), true, &mind, &map, &mut rng), (1, 0));
    // From (4,4), left comes before up.
    assert_eq!(plan_step((4, 4), (2, 2), true, &mind, &map, &mut rng), (3, 4));
}

#[test]
fn collector_tick_moves_only_when_it_does_not_act() {
    let map = open_terrain();
    let mut world = world_with(vec![(2, 0), (4, 4)], &[((2, 0), ResourceKind::Energy, 3)]);
    let mut mind = Knowledge::with_base_seen(&map);
    let mut carrying = None;
    let mut rng = rand::thread_rng();
    // Picks up one unit and stays.
    let (_, _, _, delivered) = collector_tick(0, &map, &mut world, &mut mind, &mut carrying, &mut rng);
    assert_eq!(delivered, None);
    assert_eq!(carrying, Some(ResourceKind::Energy));
    assert_eq!(world.positions, vec![(2, 0), (4, 4)]);
    assert_eq!(world.resources.get(&(2, 0)), Some((ResourceKind::Energy, 2)));
    // Then heads for the base, straight down.
    collector_tick(0, &map, &mut world, &mut mind, &mut carrying, &mut rng);
    assert_eq!(world.positions, vec![(2, 1), (4, 4)]);
    collector_tick(0, &map, &mut world, &mut mind, &mut carrying, &mut rng);
    assert_eq!(world.positions, vec![(2, 2), (4, 4)]);
    // Unloads at the base, without moving.
    let (_, _, _, delivered) = collector_tick(0, &map, &mut world, &mut mind, &mut carrying, &mut rng);
    assert_eq!(delivered, Some(ResourceKind::Energy));
    assert_eq!(carrying, None);
    assert_eq!(world.positions, vec![(2, 2), (4, 4)]);
}

#[test]
fn collector_tick_forgets_an_empty_deposit_and_moves_on() {
    let map = open_terrain();
    let mut world = world_with(vec![(0, 0)], &[]);
    let mut mind = Knowledge::with_base_seen(&map);
    mind.note_resource((0, 0), ResourceKind::Crystal);
    let mut carrying = None;
    let mut rng = rand::thread_rng();
    let (_, _, gone, delivered) = collector_tick(0, &map, &mut world, &mut mind, &mut carrying, &mut rng);
    assert_eq!(gone, vec![(0, 0)]);
    assert_eq!(delivered, None);
    assert_eq!(carrying, None);
    assert!(!mind.resources.contains_key(&(0, 0)));
    // With nothing to aim at it takes a random step.
    assert_ne!(world.positions[0], (0, 0));
}

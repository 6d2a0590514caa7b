use resource_sim::base::{news_to_share, receive_report, receive_reports, visible_resources};
use resource_sim::robot::absorb_news;
use resource_sim::display::{glyph_grid, Glyph};
use resource_sim::knowledge::Knowledge;
use resource_sim::map::{Terrain, Tile};
use resource_sim::world::{Cell, News, PosMap, Report, ResourceKind, RobotKind, World};

fn empty_news() -> News {
    News { cells: vec![], resources: vec![], gone_resources: vec![] }
}

#[test]
fn the_base_aggregates_reports_and_counts_deliveries() {
    let mut board = Knowledge::new(3, 3);
    let mut totals = (0u32, 0u32);
    let mut fresh = empty_news();
    receive_report(
        &mut board,
        &mut totals,
        Report::Seen {
            cells: vec![((1, 1), Cell::Obstacle)],
            resources: vec![((2, 0), ResourceKind::Energy), ((0, 2), ResourceKind::Crystal)],
            gone_resources: vec![(0, 2)],
        },
        &mut fresh,
    );
    receive_report(&mut board, &mut totals, Report::Delivered(ResourceKind::Energy), &mut fresh);
    receive_report(&mut board, &mut totals, Report::Delivered(ResourceKind::Crystal), &mut fresh);
    receive_report(&mut board, &mut totals, Report::Delivered(ResourceKind::Energy), &mut fresh);
    assert_eq!(totals, (2, 1));
    assert_eq!(board.cells[1][1], Cell::Obstacle);
    assert_eq!(board.resources.get(&(2, 0)), Some(ResourceKind::Energy));
    assert!(!board.resources.contains_key(&(0, 2)));
    assert_eq!(fresh.cells, vec![((1, 1), Cell::Obstacle)]);
    assert_eq!(fresh.resources.len(), 2);
    assert_eq!(fresh.gone_resources, vec![(0, 2)]);
    let news = news_to_share(fresh).expect("something new to share");
    assert_eq!(news.cells.len(), 1);
    assert!(news_to_share(empty_news()).is_none());
}

#[test]
fn only_deposits_still_present_are_shown() {
    let mut board = Knowledge::new(3, 3);
    board.note_resource((0, 0), ResourceKind::Energy);
    board.note_resource((1, 1), ResourceKind::Crystal);
    let mut resources = PosMap::new();
    resources.insert((1, 1), (ResourceKind::Crystal, 5));
    resources.insert((2, 2), (ResourceKind::Energy, 5));
    let world = World { positions: vec![], resources };
    assert_eq!(visible_resources(&board, &world), vec![((1, 1), ResourceKind::Crystal)]);
}

#[test]
fn the_screen_puts_robots_over_deposits_over_terrain() {
    let mut tiles = vec![vec![Tile::Empty; 3]; 2];
    tiles[1][1] = Tile::Base;
    let map = Terrain { width: 3, height: 2, tiles, base: (1, 1) };
    let cells = vec![
        vec![Cell::Unknown, Cell::Obstacle, Cell::Free],
        vec![Cell::Free, Cell::Free, Cell::Free],
    ];
    let resources = vec![((2, 0), ResourceKind::Energy), ((0, 1), ResourceKind::Crystal)];
    let positions = vec![(0, 1), (2, 1), (2, 1)];
    let kinds = vec![RobotKind::Scout, RobotKind::Scout, RobotKind::Collector];
    let grid = glyph_grid(&map, &cells, &resources, &positions, &kinds);
    assert_eq!(
        grid,
        vec![
            vec![Glyph::Hidden, Glyph::Obstacle, Glyph::Energy],
            vec![Glyph::Scout, Glyph::Base, Glyph::Collector],
        ]
    );
}

#[test]
fn a_robot_absorbing_the_news_learns_what_the_base_learned() {
    let mut board = Knowledge::new(3, 3);
    let mut mind = Knowledge::new(3, 3);
    let mut totals = (0u32, 0u32);
    let mut fresh = empty_news();
    receive_report(
        &mut board,
        &mut totals,
        Report::Seen { cells: vec![((0, 0), Cell::Free), ((1, 0), Cell::Obstacle)], resources: vec![], gone_resources: vec![] },
        &mut fresh,
    );
    receive_report(
        &mut board,
        &mut totals,
        Report::Seen {
            cells: vec![((1, 0), Cell::Free), ((2, 2), Cell::Obstacle)],
            resources: vec![((0, 0), ResourceKind::Energy)],
            gone_resources: vec![],
        },
        &mut fresh,
    );
    let news = news_to_share(fresh).unwrap();
    absorb_news(&mut mind, &news);
    assert_eq!(mind.cells, board.cells);
    assert_eq!(mind.cells[0][1], Cell::Free);
    assert_eq!(mind.resources.get(&(0, 0)), Some(ResourceKind::Energy));
}

#[test]
fn a_batch_of_reports_counts_each_delivery_once() {
    let mut board = Knowledge::new(3, 3);
    let mut totals = (4u32, 7u32);
    let mut fresh = empty_news();
    let batch = vec![
        Report::Delivered(ResourceKind::Crystal),
        Report::Seen {
            cells: vec![((0, 0), Cell::Free)],
            resources: vec![((1, 0), ResourceKind::Energy)],
            gone_resources: vec![],
        },
        Report::Delivered(ResourceKind::Energy),
        Report::Seen { cells: vec![((0, 0), Cell::Obstacle)], resources: vec![], gone_resources: vec![(1, 0)] },
        Report::Delivered(ResourceKind::Crystal),
    ];
    receive_reports(&mut board, &mut totals, batch, &mut fresh);
    assert_eq!(totals, (5, 9));
    // Later reports win, in the order they came.
    assert_eq!(board.cells[0][0], Cell::Obstacle);
    assert!(!board.resources.contains_key(&(1, 0)));
    assert_eq!(fresh.cells, vec![((0, 0), Cell::Free), ((0, 0), Cell::Obstacle)]);
    assert_eq!(fresh.resources, vec![((1, 0), ResourceKind::Energy)]);
    assert_eq!(fresh.gone_resources, vec![(1, 0)]);
    // Sightings alone leave the counts as they are.
    let mut fresh = empty_news();
    receive_reports(
        &mut board,
        &mut totals,
        vec![Report::Seen { cells: vec![((2, 2), Cell::Free)], resources: vec![], gone_resources: vec![] }],
        &mut fresh,
    );
    assert_eq!(totals, (5, 9));
}

use resource_sim::knowledge::{around, Knowledge};
use resource_sim::map::{Terrain, Tile};
use resource_sim::world::{Cell, ResourceKind};

fn small_terrain() -> Terrain {
    // 4x3, base at (2,1), an obstacle at (0,0).
    let mut tiles = vec![vec![Tile::Empty; 4]; 3];
    tiles[0][0] = Tile::Obstacle;
    tiles[1][2] = Tile::Base;
    Terrain { width: 4, height: 3, tiles, base: (2, 1) }
}

#[test]
fn la_connaissance_part_inconnue_puis_se_met_a_jour() {
    let mut k = Knowledge::new(4, 4);
    assert!(k.passable((2, 2))); // inconnu = supposé franchissable
    k.note_cell((2, 2), Cell::Obstacle);
    assert!(!k.passable((2, 2)));

    k.note_resource((1, 1), ResourceKind::Energy);
    assert!(k.resources.contains_key(&(1, 1)));
    k.forget_resource(&(1, 1));
    assert!(!k.resources.contains_key(&(1, 1)));
}

#[test]
fn around_lists_the_square_row_by_row_inside_the_map() {
    let map = small_terrain();
    let seen = around((0, 0), &map, 1);
    assert_eq!(
        seen,
        vec![
            ((0, 0), Cell::Obstacle),
            ((1, 0), Cell::Free),
            ((0, 1), Cell::Free),
            ((1, 1), Cell::Free),
        ]
    );
    let all = around((2, 1), &map, 5);
    assert_eq!(all.len(), 12);
    assert_eq!(all[0], ((0, 0), Cell::Obstacle));
    assert_eq!(all[11], ((3, 2), Cell::Free));
    // The base is a free cell.
    assert!(all.contains(&((2, 1), Cell::Free)));
    assert!(around((1, 1), &map, -1).is_empty());
    assert_eq!(around((1, 1), &map, 0), vec![((1, 1), Cell::Free)]);
}

#[test]
fn with_base_seen_knows_exactly_the_square_around_the_base() {
    let map = small_terrain();
    let k = Knowledge::with_base_seen(&map);
    let known: usize = k.cells.iter().flatten().filter(|c| **c != Cell::Unknown).count();
    assert_eq!(known, 9);
    assert_eq!(k.cells[0][0], Cell::Unknown);
    assert_eq!(k.cells[1][1], Cell::Free);
    assert_eq!(k.cells[2][3], Cell::Free);
    assert_eq!(k.cells[0][1], Cell::Free);
    assert!(!k.resources.contains_key(&(2, 1)));
}

#[test]
fn noting_the_same_deposit_twice_keeps_the_last_kind() {
    let mut k = Knowledge::new(2, 2);
    k.note_resource((0, 1), ResourceKind::Energy);
    k.note_resource((0, 1), ResourceKind::Crystal);
    assert_eq!(k.resources.get(&(0, 1)), Some(ResourceKind::Crystal));
    assert_eq!(k.resources.keys(), vec![(0, 1)]);
    // Forgetting an unknown deposit changes nothing.
    k.forget_resource(&(1, 1));
    assert_eq!(k.resources.keys(), vec![(0, 1)]);
}

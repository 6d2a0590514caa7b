use resource_sim::map::{place_deposits, Terrain, Tile};
use resource_sim::world::ResourceKind;

fn count_kind(keys: &[(usize, usize)], res: &resource_sim::world::PosMap<(ResourceKind, u32)>, kind: ResourceKind) -> usize {
    keys.iter().filter(|p| res.get(p).map(|(k, _)| k) == Some(kind)).count()
}

#[test]
fn the_terrain_clears_the_base_and_scatters_deposits() {
    let mut rng = rand::thread_rng();
    let mut rough = vec![vec![false; 80]; 25];
    rough[12][40] = true;
    rough[11][39] = true;
    rough[0][0] = true;
    let (map, res) = Terrain::new(80, 25, &rough, &mut rng);
    assert_eq!((map.width, map.height), (80, 25));
    assert_eq!(map.base, (40, 12));
    assert_eq!(map.tiles[12][40], Tile::Base);
    // The 3x3 square around the base is cleared.
    assert_eq!(map.tiles[11][39], Tile::Empty);
    assert_eq!(map.tiles[0][0], Tile::Obstacle);
    assert!(map.passable((40, 12)));
    assert!(!map.passable((0, 0)));
    let keys = res.keys();
    let energy = count_kind(&keys, &res, ResourceKind::Energy);
    let crystal = count_kind(&keys, &res, ResourceKind::Crystal);
    assert!((5..=10).contains(&energy));
    assert!((5..=10).contains(&crystal));
    for p in &keys {
        assert_eq!(map.tiles[p.1][p.0], Tile::Empty);
        let (_, q) = res.get(p).unwrap();
        assert!((50..=200).contains(&q));
    }
}

#[test]
fn with_few_empty_tiles_every_one_gets_a_deposit() {
    let mut rng = rand::thread_rng();
    let rough = vec![vec![true; 3]; 3];
    let (map, res) = Terrain::new(3, 3, &rough, &mut rng);
    // Everything but the base is cleared: 8 empty tiles.
    assert_eq!(map.tiles[1][1], Tile::Base);
    let keys = res.keys();
    assert_eq!(keys.len(), 8);
    let energy = count_kind(&keys, &res, ResourceKind::Energy);
    assert!((5..=8).contains(&energy));
    assert!(!keys.contains(&(1, 1)));
}

#[test]
fn outside_the_base_square_the_roughness_decides() {
    let mut rng = rand::thread_rng();
    let mut rough = vec![vec![false; 7]; 7];
    rough[0][6] = true;
    rough[2][2] = true;
    let (map, _) = Terrain::new(7, 7, &rough, &mut rng);
    assert_eq!(map.base, (3, 3));
    assert_eq!(map.tiles[0][6], Tile::Obstacle);
    // (2,2) lies in the square around the base: cleared.
    assert_eq!(map.tiles[2][2], Tile::Empty);
}

#[test]
fn deposits_are_laid_from_the_end_of_the_shuffled_tiles() {
    let empty = vec![(0, 0), (1, 0), (2, 0), (3, 0), (4, 0), (5, 0)];
    let amounts = vec![50, 60, 70, 80];
    let res = place_deposits(empty, 1, 3, &amounts);
    assert_eq!(res.keys().len(), 4);
    assert_eq!(res.get(&(5, 0)), Some((ResourceKind::Energy, 50)));
    assert_eq!(res.get(&(4, 0)), Some((ResourceKind::Crystal, 60)));
    assert_eq!(res.get(&(3, 0)), Some((ResourceKind::Crystal, 70)));
    assert_eq!(res.get(&(2, 0)), Some((ResourceKind::Crystal, 80)));
    assert_eq!(res.get(&(1, 0)), None);
    // Too few tiles: energy first, crystal gets what is left.
    let res = place_deposits(vec![(0, 0), (1, 0), (2, 0)], 2, 5, &vec![100, 110, 120]);
    assert_eq!(res.get(&(2, 0)), Some((ResourceKind::Energy, 100)));
    assert_eq!(res.get(&(1, 0)), Some((ResourceKind::Energy, 110)));
    assert_eq!(res.get(&(0, 0)), Some((ResourceKind::Crystal, 120)));
}

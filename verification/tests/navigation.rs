use resource_sim::pathfinding::{bfs_first_steps, first_free_in_order, random_step};

#[test]
fn bfs_atteint_la_grille_ouverte_et_contourne_les_murs() {
    // Grille 3x3 entièrement ouverte : toutes les cases sont atteignables.
    let steps = bfs_first_steps((0, 0), 3, 3, |_| true);
    assert_eq!(steps.len(), 9);
    assert!(steps.contains_key(&(2, 2)));

    // On mure les deux seuls accès de (2,2) : elle devient inatteignable.
    let steps = bfs_first_steps((0, 0), 3, 3, |p| p != (1, 2) && p != (2, 1));
    assert!(!steps.contains_key(&(2, 2)));
}

#[test]
fn random_step_reste_sur_place_si_tout_est_bloque() {
    let mut rng = rand::thread_rng();
    // Aucune voisine libre -> on reste sur place.
    assert_eq!(random_step((1, 1), 3, 3, |_| false, &mut rng), (1, 1));
    // Une seule voisine libre -> on y va.
    assert_eq!(random_step((1, 1), 3, 3, |c| c == (1, 0), &mut rng), (1, 0));
}

#[test]
fn bfs_first_step_of_the_origin_is_the_origin() {
    let steps = bfs_first_steps((1, 1), 3, 3, |_| true);
    assert_eq!(steps.get(&(1, 1)), Some((1, 1)));
    // Each neighbour is its own first step.
    assert_eq!(steps.get(&(0, 1)), Some((0, 1)));
    assert_eq!(steps.get(&(2, 1)), Some((2, 1)));
    assert_eq!(steps.get(&(1, 0)), Some((1, 0)));
    assert_eq!(steps.get(&(1, 2)), Some((1, 2)));
}

#[test]
fn bfs_first_step_follows_the_only_corridor() {
    // 4x3 grid; row 1 is walled except at x = 3: from (0,0) the way to (0,2)
    // goes right along row 0, down through (3,1), and back along row 2.
    let steps = bfs_first_steps((0, 0), 4, 3, |p| p.1 != 1 || p.0 == 3);
    assert_eq!(steps.get(&(0, 2)), Some((1, 0)));
    assert_eq!(steps.get(&(3, 1)), Some((1, 0)));
    assert!(!steps.contains_key(&(0, 1)));
    assert_eq!(steps.len(), 9);
    // Outside the grid nothing is recorded.
    assert_eq!(steps.get(&(7, 7)), None);
}

#[test]
fn bfs_first_step_ties_take_the_first_direction() {
    // From (1,1) to (0,0): left is tried before up, so the step is (0,1).
    let steps = bfs_first_steps((1, 1), 3, 3, |_| true);
    assert_eq!(steps.get(&(0, 0)), Some((0, 1)));
    // To (2,2): right before down.
    assert_eq!(steps.get(&(2, 2)), Some((2, 1)));
}

#[test]
fn bfs_from_an_enclosed_cell_reaches_only_itself() {
    let steps = bfs_first_steps((1, 1), 3, 3, |p| p == (1, 1));
    assert_eq!(steps.len(), 1);
    assert_eq!(steps.get(&(1, 1)), Some((1, 1)));
}

#[test]
fn random_step_only_goes_to_a_free_neighbour() {
    let mut rng = rand::thread_rng();
    for _ in 0..50 {
        let r = random_step((1, 1), 3, 3, |c| c == (2, 1) || c == (1, 2), &mut rng);
        assert!(r == (2, 1) || r == (1, 2));
    }
    // A corner cell has only two neighbours on the grid.
    for _ in 0..50 {
        let r = random_step((0, 0), 3, 3, |_| true, &mut rng);
        assert!(r == (1, 0) || r == (0, 1));
    }
    // Off-grid neighbours are never proposed.
    assert_eq!(random_step((0, 0), 1, 1, |_| true, &mut rng), (0, 0));
}

#[test]
fn first_free_in_order_takes_the_first_free_neighbour_of_the_order() {
    // From (1,1) on a 3x3 grid: down (3) is walled, then right (1) is free.
    let r = first_free_in_order((1, 1), 3, 3, |p| p != (1, 2), &vec![3, 1, 0, 2]);
    assert_eq!(r, (2, 1));
    // The order decides: up first.
    let r = first_free_in_order((1, 1), 3, 3, |p| p != (1, 2), &vec![2, 3, 1, 0]);
    assert_eq!(r, (1, 0));
    // From the corner (0,0), left and up leave the grid and are skipped.
    let r = first_free_in_order((0, 0), 3, 3, |_| true, &vec![0, 2, 3, 1]);
    assert_eq!(r, (0, 1));
    // Nothing free: stays.
    let r = first_free_in_order((1, 1), 3, 3, |_| false, &vec![0, 1, 2, 3]);
    assert_eq!(r, (1, 1));
}

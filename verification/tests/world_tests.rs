use fast_game_of_life::World;

fn sorted_cells(world: &World) -> Vec<(i64, i64)> {
    let mut cells = world.live_cells();
    cells.sort();
    cells
}

#[test]
fn wraps_the_world_api() {
    let mut world = World::new();
    world.load_pattern(0, 0, "***");
    world.step();

    assert!(world.is_alive(1, -1));
    assert!(world.is_alive(1, 0));
    assert!(world.is_alive(1, 1));
    let flat: Vec<f64> = world
        .live_cells()
        .iter()
        .flat_map(|&(x, y)| [x as f64, y as f64])
        .collect();
    assert_eq!(flat.len(), 6);
}

#[test]
fn new_world_is_empty() {
    let world = World::new();
    assert!(world.live_cells().is_empty());
    assert!(!world.is_alive(0, 0));
    assert!(world.can_step());
}

#[test]
fn set_cell_then_is_alive() {
    let mut world = World::new();
    world.set_cell(5, -7, true);
    assert!(world.is_alive(5, -7));
    assert!(!world.is_alive(5, -6));
    assert!(!world.is_alive(4, -7));
    world.set_cell(5, -7, false);
    assert!(!world.is_alive(5, -7));
    assert!(world.live_cells().is_empty());
}

#[test]
fn set_cell_across_chunk_borders() {
    let mut world = World::new();
    for &(x, y) in &[(31, 31), (32, 31), (31, 32), (-1, -1), (-32, 0), (-33, 64)] {
        world.set_cell(x, y, true);
    }
    assert_eq!(
        sorted_cells(&world),
        vec![(-33, 64), (-32, 0), (-1, -1), (31, 31), (31, 32), (32, 31)]
    );
}

#[test]
fn clear_kills_everything() {
    let mut world = World::new();
    world.load_pattern(-10, 3, "**\n**");
    world.clear();
    assert!(world.live_cells().is_empty());
}

#[test]
fn load_pattern_places_stars() {
    let mut world = World::new();
    world.load_pattern(-6, -6, ".*.\n..*\n***\n");
    assert_eq!(
        sorted_cells(&world),
        vec![(-6, -4), (-5, -6), (-5, -4), (-4, -5), (-4, -4)]
    );
}

#[test]
fn load_pattern_ignores_carriage_returns() {
    let mut world = World::new();
    world.load_pattern(0, 0, "*.\r\n.*\r\n");
    assert_eq!(sorted_cells(&world), vec![(0, 0), (1, 1)]);
}

#[test]
fn blinker_oscillates() {
    let mut world = World::new();
    world.load_pattern(0, 0, "***");
    world.step();
    assert_eq!(sorted_cells(&world), vec![(1, -1), (1, 0), (1, 1)]);
    world.step();
    assert_eq!(sorted_cells(&world), vec![(0, 0), (1, 0), (2, 0)]);
}

#[test]
fn blinker_across_chunk_corner() {
    let mut world = World::new();
    world.load_pattern(-1, -1, "***");
    world.step();
    assert_eq!(sorted_cells(&world), vec![(0, -2), (0, -1), (0, 0)]);
}

#[test]
fn block_is_still() {
    let mut world = World::new();
    world.load_pattern(31, 31, "**\n**");
    world.step();
    assert_eq!(sorted_cells(&world), vec![(31, 31), (31, 32), (32, 31), (32, 32)]);
}

#[test]
fn lonely_cell_dies() {
    let mut world = World::new();
    world.set_cell(100, 100, true);
    world.step();
    assert!(world.live_cells().is_empty());
}

#[test]
fn glider_moves_diagonally() {
    let mut world = World::new();
    world.load_pattern(30, 30, ".*.\n..*\n***");
    for _ in 0..4 {
        world.step();
    }
    assert_eq!(
        sorted_cells(&world),
        vec![(31, 33), (32, 31), (32, 33), (33, 32), (33, 33)]
    );
}

#[test]
fn wrapped_coordinates_alias() {
    let span: i64 = 1 << 37;
    let mut world = World::new();
    world.set_cell(3 + span, -2 - span, true);
    assert!(world.is_alive(3, -2));
    assert_eq!(sorted_cells(&world), vec![(3, -2)]);
}

#[test]
fn can_step_refuses_the_edge_of_the_chunk_range() {
    let mut world = World::new();
    let max_cell: i64 = i32::MAX as i64 * 32 + 31;
    world.set_cell(max_cell, 0, true);
    assert!(!world.can_step());
    world.clear();
    world.set_cell(max_cell - 32, 0, false);
    assert!(world.can_step());
    world.set_cell(max_cell - 32, 0, true);
    assert!(!world.can_step());
}

#[test]
fn add_and_get_chunk() {
    let mut world = World::new();
    world.add_chunk(1, -1, fast_game_of_life::Chunk::from_string("*"));
    assert!(world.is_alive(32, -32));
    assert_eq!(world.get_chunk(1, -1).map(|c| c.get_first_row()), Some(1u32 << 31));
    assert!(world.get_chunk(0, 0).is_none());
}

#[test]
fn try_step_steps_inside_the_range() {
    let mut world = World::new();
    world.load_pattern(-1, -1, "***");
    assert!(world.try_step());
    assert_eq!(sorted_cells(&world), vec![(0, -2), (0, -1), (0, 0)]);
    assert!(world.try_step());
    assert_eq!(sorted_cells(&world), vec![(-1, -1), (0, -1), (1, -1)]);
}

#[test]
fn try_step_leaves_the_edge_alone() {
    let mut world = World::new();
    let max_cell: i64 = i32::MAX as i64 * 32 + 31;
    world.set_cell(max_cell, 0, true);
    world.set_cell(max_cell - 1, 0, true);
    world.set_cell(max_cell - 2, 0, true);
    assert!(!world.try_step());
    assert_eq!(
        sorted_cells(&world),
        vec![(max_cell - 2, 0), (max_cell - 1, 0), (max_cell, 0)]
    );
}

#[test]
fn step_does_not_depend_on_chunk_borders() {
    let glider = ".*.\n..*\n***";
    let (dx, dy) = (45i64, -70i64);
    let mut a = World::new();
    let mut b = World::new();
    a.load_pattern(29, 29, glider);
    b.load_pattern(29 + dx, 29 + dy, glider);
    for _ in 0..8 {
        a.step();
        b.step();
        let moved: Vec<(i64, i64)> =
            sorted_cells(&a).into_iter().map(|(x, y)| (x + dx, y + dy)).collect();
        assert_eq!(sorted_cells(&b), moved);
    }
}

#[test]
fn last_set_cell_wins() {
    let mut world = World::new();
    let ops = [
        (0, 0, true),
        (33, -1, true),
        (0, 0, false),
        (-40, 7, true),
        (33, -1, false),
        (33, -1, true),
        (5, 5, false),
    ];
    for &(x, y, v) in &ops {
        world.set_cell(x, y, v);
    }
    assert!(!world.is_alive(0, 0));
    assert!(world.is_alive(33, -1));
    assert!(world.is_alive(-40, 7));
    assert!(!world.is_alive(5, 5));
    assert!(!world.is_alive(1, 1));
    assert_eq!(sorted_cells(&world), vec![(-40, 7), (33, -1)]);
}

#[test]
fn live_cells_lists_each_chunk_row_by_row() {
    let mut world = World::new();
    for &(x, y) in &[(40, 3), (5, 1), (33, 3), (2, 1), (3, 0), (33, 0)] {
        world.set_cell(x, y, true);
    }
    let cells = world.live_cells();
    let first: Vec<(i64, i64)> = vec![(3, 0), (2, 1), (5, 1)];
    let second: Vec<(i64, i64)> = vec![(33, 0), (33, 3), (40, 3)];
    let expected_a: Vec<(i64, i64)> = first.iter().chain(second.iter()).cloned().collect();
    let expected_b: Vec<(i64, i64)> = second.iter().chain(first.iter()).cloned().collect();
    assert!(cells == expected_a || cells == expected_b);
}

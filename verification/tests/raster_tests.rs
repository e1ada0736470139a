use fast_game_of_life::raster::{rasterize_world, BORDER_COLOR, BUF_H, BUF_W, LIVE_COLOR};
use fast_game_of_life::{Chunk, World};

#[test]
fn empty_world_is_black() {
    let world = World::new();
    let mut buf = vec![7u32; BUF_W * BUF_H + 5];
    rasterize_world(&world, &mut buf, -2, -2);
    assert!(buf.iter().all(|&p| p == 0));
}

#[test]
fn stored_chunk_gets_border_and_cells() {
    let mut world = World::new();
    world.add_chunk(0, 0, Chunk::from_string("*\n.*"));
    let mut buf = vec![0u32; BUF_W * BUF_H];
    rasterize_world(&world, &mut buf, -2, -2);
    // chunk (0, 0) is view column 2, view row 2 from the bottom
    let base_x = 2 * 96;
    let base_y = (7 - 2) * 96;
    let at = |x: usize, y: usize| buf[y * BUF_W + x];
    assert_eq!(at(base_x, base_y), BORDER_COLOR);
    assert_eq!(at(base_x + 95, base_y + 40), BORDER_COLOR);
    assert_eq!(at(base_x + 1, base_y + 1), LIVE_COLOR);
    assert_eq!(at(base_x + 2, base_y + 2), LIVE_COLOR);
    assert_eq!(at(base_x + 3, base_y + 3), LIVE_COLOR);
    assert_eq!(at(base_x + 4, base_y + 4), LIVE_COLOR);
    assert_eq!(at(base_x + 5, base_y + 5), LIVE_COLOR);
    assert_eq!(at(base_x + 6, base_y + 6), 0);
    assert_eq!(at(base_x - 1, base_y + 10), 0);
    let lit = buf.iter().filter(|&&p| p == LIVE_COLOR).count();
    assert_eq!(lit, 4 + 9);
    let border = buf.iter().filter(|&&p| p == BORDER_COLOR).count();
    assert_eq!(border, 4 * 95);
}

#[test]
fn empty_stored_chunk_still_gets_a_border() {
    let mut world = World::new();
    world.set_cell(-64, 0, false);
    let mut buf = vec![0u32; BUF_W * BUF_H];
    rasterize_world(&world, &mut buf, -2, -2);
    assert_eq!(buf.iter().filter(|&&p| p == BORDER_COLOR).count(), 4 * 95);
    assert_eq!(buf[(7 - 2) * 96 * BUF_W], BORDER_COLOR);
}

#[test]
fn short_buffer_is_enough_without_chunks() {
    let world = World::new();
    let mut buf: Vec<u32> = vec![9, 9, 9];
    rasterize_world(&world, &mut buf, 0, 0);
    assert_eq!(buf, vec![0, 0, 0]);
}

use fast_game_of_life::Chunk;

#[test]
fn new_chunk_is_empty() {
    let chunk = Chunk::new();
    for i in 0..32 {
        assert_eq!(chunk.get_row(i), 0);
    }
    assert_eq!(chunk.iter().count(), 32);
}

#[test]
fn rows_past_the_end_read_as_empty() {
    let mut chunk = Chunk::new();
    chunk.set_row(40, 7);
    assert_eq!(chunk.get_row(40), 0);
    assert_eq!(chunk.iter().filter(|&&r| r != 0).count(), 0);
}

#[test]
fn set_row_then_get_row() {
    let mut chunk = Chunk::new();
    chunk.set_row(0, 0xdead_beef);
    chunk.set_row(31, 5);
    chunk.set_row(7, 1);
    assert_eq!(chunk.get_row(0), 0xdead_beef);
    assert_eq!(chunk.get_first_row(), 0xdead_beef);
    assert_eq!(chunk.get_last_row(), 5);
    assert_eq!(chunk.get_row(7), 1);
    assert_eq!(chunk.get_row(8), 0);
    let rows: Vec<u32> = chunk.iter().copied().collect();
    assert_eq!(rows[0], 0xdead_beef);
    assert_eq!(rows[31], 5);
}

#[test]
fn from_string_reads_stars() {
    let chunk = Chunk::from_string("*.*\n.*\n\n..*");
    assert_eq!(chunk.get_row(0), (1 << 31) | (1 << 29));
    assert_eq!(chunk.get_row(1), 1 << 30);
    assert_eq!(chunk.get_row(2), 0);
    assert_eq!(chunk.get_row(3), 1 << 29);
}

#[test]
fn from_string_ignores_columns_past_32() {
    let line = format!("{}*", ".".repeat(32));
    let chunk = Chunk::from_string(&line);
    assert_eq!(chunk.get_row(0), 0);
    let line = format!("{}*", ".".repeat(31));
    let chunk = Chunk::from_string(&line);
    assert_eq!(chunk.get_row(0), 1);
}

#[test]
fn to_string_compact_draws_half_blocks() {
    let chunk = Chunk::from_string("**.\n*.*");
    let text = chunk.to_string_compact();
    let lines: Vec<&str> = text.split('\n').collect();
    assert_eq!(lines.len(), 17);
    assert_eq!(lines[0], format!("█▀▄{}", " ".repeat(29)));
    assert_eq!(lines[1], " ".repeat(32));
    assert_eq!(lines[16], "");
}

#[test]
fn to_string_list_compact_matches_lines() {
    let chunk = Chunk::from_string("\n\n*\n.*");
    let list = chunk.to_string_list_compact();
    let text = chunk.to_string_compact();
    for (i, line) in text.split('\n').take(16).enumerate() {
        assert_eq!(list[i], line);
    }
    assert_eq!(list[1], format!("▀▄{}", " ".repeat(30)));
}

#[test]
fn star_grid_reads_back() {
    let mut chunk = Chunk::new();
    let rows: [u32; 6] = [0x8000_0001, 0xdead_beef, 0xffff_ffff, 0x1234_5678, 1, 0x8000_0000];
    for (i, &v) in rows.iter().enumerate() {
        chunk.set_row(i * 6 + 1, v);
    }
    let text = (0..32)
        .map(|r| {
            (0..32)
                .map(|k| if (chunk.get_row(r) >> (31 - k)) & 1 == 1 { '*' } else { '.' })
                .collect::<String>()
        })
        .collect::<Vec<String>>()
        .join("\n");
    let read = Chunk::from_string(&text);
    for r in 0..32 {
        assert_eq!(read.get_row(r), chunk.get_row(r));
    }
}

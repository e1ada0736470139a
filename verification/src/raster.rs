use vstd::prelude::*;

use crate::chunk::cell_of;
use crate::world::{key_of, World};

verus! {

/// Zoom: one cell is drawn as `CELL_SIZE` x `CELL_SIZE` pixels.
pub const CELL_SIZE: usize = 3;

/// Cells along a side of a chunk.
pub const CHUNK_DIM: usize = 32;

/// Chunks shown side by side.
pub const VIEW_CHUNKS_X: usize = 8;

/// Chunks shown one above the other.
pub const VIEW_CHUNKS_Y: usize = 8;

/// Width of the frame in pixels.
pub const BUF_W: usize = VIEW_CHUNKS_X * CHUNK_DIM * CELL_SIZE;

/// Height of the frame in pixels.
pub const BUF_H: usize = VIEW_CHUNKS_Y * CHUNK_DIM * CELL_SIZE;

/// Colour of the frame drawn around each stored chunk.
pub const BORDER_COLOR: u32 = 0x00333333;

/// Colour of a live cell.
pub const LIVE_COLOR: u32 = 0x00FFFFFF;

/// Side of a chunk in pixels.
pub open spec fn chunk_px() -> int {
    (CHUNK_DIM * CELL_SIZE) as int
}

/// Pixel (`ix`, `iy`) of the square that draws a stored chunk with rows `rows`:
/// its outermost pixels are the border, the rest shows its live cells.
pub open spec fn chunk_pixel(rows: Seq<u32>, ix: int, iy: int) -> u32 {
    if ix == 0 || ix == chunk_px() - 1 || iy == 0 || iy == chunk_px() - 1 {
        BORDER_COLOR
    } else if cell_of(rows, ix / CELL_SIZE as int, iy / CELL_SIZE as int) {
        LIVE_COLOR
    } else {
        0
    }
}

/// Pixel (`x`, `y`) of the frame that shows the 8x8 chunks from chunk
/// (`ocx`, `ocy`) on: chunk columns run to the right, chunk rows upwards (the
/// chunk row `ocy` is the bottom one), cells within a chunk downwards.
pub open spec fn frame_pixel(m: Map<u64, Seq<u32>>, ocx: int, ocy: int, x: int, y: int) -> u32 {
    let cx = ocx + x / chunk_px();
    let cy = ocy + (VIEW_CHUNKS_Y - 1) - y / chunk_px();
    if m.contains_key(key_of(cx, cy)) {
        chunk_pixel(m[key_of(cx, cy)], x % chunk_px(), y % chunk_px())
    } else {
        0
    }
}

/// Whether a buffer of `len` pixels holds every pixel of the frame that is not
/// black: the pixels that drawing writes.
pub open spec fn frame_fits(len: int, m: Map<u64, Seq<u32>>, ocx: int, ocy: int) -> bool {
    forall|x: int, y: int|
        0 <= x < 768 && 0 <= y < 768 && #[trigger] frame_pixel(m, ocx, ocy, x, y) != 0 ==> y * 768
            + x < len
}

/// Whether (`a0`, `a1`, `a2`, `a3`) comes before (`b0`, `b1`, `b2`, `b3`) in
/// lexicographic order.
pub open spec fn lex_before(a0: int, a1: int, a2: int, a3: int, b0: int, b1: int, b2: int, b3: int) -> bool {
    a0 < b0 || (a0 == b0 && (a1 < b1 || (a1 == b1 && (a2 < b2 || (a2 == b2 && a3 < b3)))))
}

/// Whether the border pass, after `i` of its rounds, has drawn pixel (`ix`, `iy`).
pub open spec fn border_drawn(ix: int, iy: int, i: int) -> bool {
    ((iy == 0 || iy == chunk_px() - 1) && ix < i) || ((ix == 0 || ix == chunk_px() - 1) && iy < i)
}

/// Pixel (`ix`, `iy`) of a chunk's square while it is being drawn: cells are
/// drawn row `r`, column `c`, pixel row `dy`, pixel column `dx` at a time, then
/// `bi` rounds of the border.
pub open spec fn stage_pixel(rows: Seq<u32>, ix: int, iy: int, r: int, c: int, dy: int, dx: int, bi: int) -> u32 {
    if border_drawn(ix, iy, bi) {
        BORDER_COLOR
    } else if cell_of(rows, ix / 3, iy / 3) && lex_before(iy / 3, ix / 3, iy % 3, ix % 3, r, c, dy, dx) {
        LIVE_COLOR
    } else {
        0
    }
}

/// Pixel (`x`, `y`) of the frame while the chunk in view column `kx`, view row
/// `ky` (counted from the bottom) is being drawn at the given stage.
pub open spec fn frame_state(
    m: Map<u64, Seq<u32>>,
    ocx: int,
    ocy: int,
    ky: int,
    kx: int,
    r: int,
    c: int,
    dy: int,
    dx: int,
    bi: int,
    x: int,
    y: int,
) -> u32 {
    let bx = x / chunk_px();
    let by = (VIEW_CHUNKS_Y - 1) - y / chunk_px();
    let k = key_of(ocx + kx, ocy + ky);
    if by < ky || (by == ky && bx < kx) {
        frame_pixel(m, ocx, ocy, x, y)
    } else if by == ky && bx == kx && m.contains_key(k) {
        stage_pixel(m[k], x % chunk_px(), y % chunk_px(), r, c, dy, dx, bi)
    } else {
        0
    }
}

/// The whole buffer `b` shows the frame at the given stage, and is black past the frame.
pub open spec fn buf_state(
    b: Seq<u32>,
    m: Map<u64, Seq<u32>>,
    ocx: int,
    ocy: int,
    ky: int,
    kx: int,
    r: int,
    c: int,
    dy: int,
    dx: int,
    bi: int,
) -> bool {
    forall|p: int|
        0 <= p < b.len() ==> #[trigger] b[p] == if p < BUF_W * BUF_H {
            frame_state(m, ocx, ocy, ky, kx, r, c, dy, dx, bi, p % BUF_W as int, p / BUF_W as int)
        } else {
            0
        }
}

/// Where pixel (`ix`, `iy`) of the square of view column `kx`, view row `ky`
/// lands in the buffer.
proof fn lemma_pixel_index(kx: int, ky: int, ix: int, iy: int)
    requires
        0 <= kx < 8,
        0 <= ky < 8,
        0 <= ix < 96,
        0 <= iy < 96,
    ensures
        ({
            let x = kx * 96 + ix;
            let y = (7 - ky) * 96 + iy;
            let p = y * 768 + x;
            &&& 0 <= p < 768 * 768
            &&& p % 768 == x
            &&& p / 768 == y
            &&& x / 96 == kx
            &&& x % 96 == ix
            &&& y / 96 == 7 - ky
            &&& y % 96 == iy
        }),
{
    let x = kx * 96 + ix;
    let y = (7 - ky) * 96 + iy;
    vstd::arithmetic::div_mod::lemma_fundamental_div_mod_converse(x, 96, kx, ix);
    vstd::arithmetic::div_mod::lemma_fundamental_div_mod_converse(y, 96, 7 - ky, iy);
    vstd::arithmetic::div_mod::lemma_fundamental_div_mod_converse(y * 768 + x, 768, y, x);
}

/// A pixel of the frame, split into its square and its place there.
proof fn lemma_pixel_split(p: int)
    requires
        0 <= p < 768 * 768,
    ensures
        ({
            let x = p % 768;
            let y = p / 768;
            &&& 0 <= x < 768
            &&& 0 <= y < 768
            &&& p == y * 768 + x
            &&& 0 <= x / 96 < 8
            &&& 0 <= y / 96 < 8
            &&& 0 <= x % 96 < 96
            &&& 0 <= y % 96 < 96
            &&& x == (x / 96) * 96 + x % 96
            &&& y == (y / 96) * 96 + y % 96
        }),
{
    vstd::arithmetic::div_mod::lemma_fundamental_div_mod(p, 768);
    vstd::arithmetic::div_mod::lemma_fundamental_div_mod(p % 768, 96);
    vstd::arithmetic::div_mod::lemma_fundamental_div_mod(p / 768, 96);
    vstd::arithmetic::div_mod::lemma_div_pos_is_pos(p, 768);
}

/// A buffer that shows one stage shows any other stage with the same pixels.
proof fn lemma_buf_same(
    b: Seq<u32>,
    m: Map<u64, Seq<u32>>,
    ocx: int,
    ocy: int,
    s1: (int, int, int, int, int, int, int),
    s2: (int, int, int, int, int, int, int),
)
    requires
        buf_state(b, m, ocx, ocy, s1.0, s1.1, s1.2, s1.3, s1.4, s1.5, s1.6),
        forall|x: int, y: int|
            0 <= x < 768 && 0 <= y < 768 ==> #[trigger] frame_state(
                m,
                ocx,
                ocy,
                s1.0,
                s1.1,
                s1.2,
                s1.3,
                s1.4,
                s1.5,
                s1.6,
                x,
                y,
            ) == frame_state(m, ocx, ocy, s2.0, s2.1, s2.2, s2.3, s2.4, s2.5, s2.6, x, y),
    ensures
        buf_state(b, m, ocx, ocy, s2.0, s2.1, s2.2, s2.3, s2.4, s2.5, s2.6),
{
    lemma_frame_size();
    assert forall|p: int| 0 <= p < b.len() implies #[trigger] b[p] == if p < BUF_W * BUF_H {
        frame_state(m, ocx, ocy, s2.0, s2.1, s2.2, s2.3, s2.4, s2.5, s2.6, p % BUF_W as int, p / BUF_W as int)
    } else {
        0
    } by {
        if p < BUF_W * BUF_H {
            lemma_pixel_split(p);
        }
    }
}

/// Moving on within the square of a stored chunk changes no pixel when every
/// pixel of that square looks the same at both stages.
proof fn lemma_stage_same(
    b: Seq<u32>,
    m: Map<u64, Seq<u32>>,
    ocx: int,
    ocy: int,
    ky: int,
    kx: int,
    s1: (int, int, int, int, int),
    s2: (int, int, int, int, int),
)
    requires
        0 <= kx < 8,
        0 <= ky < 8,
        buf_state(b, m, ocx, ocy, ky, kx, s1.0, s1.1, s1.2, s1.3, s1.4),
        forall|ix: int, iy: int|
            0 <= ix < 96 && 0 <= iy < 96 ==> #[trigger] stage_pixel(
                m[key_of(ocx + kx, ocy + ky)],
                ix,
                iy,
                s1.0,
                s1.1,
                s1.2,
                s1.3,
                s1.4,
            ) == stage_pixel(m[key_of(ocx + kx, ocy + ky)], ix, iy, s2.0, s2.1, s2.2, s2.3, s2.4),
    ensures
        buf_state(b, m, ocx, ocy, ky, kx, s2.0, s2.1, s2.2, s2.3, s2.4),
{
    lemma_frame_size();
    assert forall|x: int, y: int| 0 <= x < 768 && 0 <= y < 768 implies #[trigger] frame_state(
        m,
        ocx,
        ocy,
        ky,
        kx,
        s1.0,
        s1.1,
        s1.2,
        s1.3,
        s1.4,
        x,
        y,
    ) == frame_state(m, ocx, ocy, ky, kx, s2.0, s2.1, s2.2, s2.3, s2.4, x, y) by {
        vstd::arithmetic::div_mod::lemma_fundamental_div_mod(x, 96);
        vstd::arithmetic::div_mod::lemma_fundamental_div_mod(y, 96);
    }
    lemma_buf_same(b, m, ocx, ocy, (ky, kx, s1.0, s1.1, s1.2, s1.3, s1.4), (ky, kx, s2.0, s2.1, s2.2, s2.3, s2.4));
}

/// The pixel at place (`ix`, `iy`) of a square, split into cell and place in the cell.
proof fn lemma_cell_split(ix: int, iy: int)
    requires
        0 <= ix < 96,
        0 <= iy < 96,
    ensures
        0 <= ix / 3 < 32,
        0 <= iy / 3 < 32,
        0 <= ix % 3 < 3,
        0 <= iy % 3 < 3,
        ix == (ix / 3) * 3 + ix % 3,
        iy == (iy / 3) * 3 + iy % 3,
{
    vstd::arithmetic::div_mod::lemma_fundamental_div_mod(ix, 3);
    vstd::arithmetic::div_mod::lemma_fundamental_div_mod(iy, 3);
}

/// Drawing pixel (`dx`, `dy`) of the live cell at row `r`, column `c`.
proof fn lemma_cell_write(
    b: Seq<u32>,
    m: Map<u64, Seq<u32>>,
    ocx: int,
    ocy: int,
    ky: int,
    kx: int,
    r: int,
    c: int,
    dy: int,
    dx: int,
)
    requires
        0 <= kx < 8,
        0 <= ky < 8,
        0 <= r < 32,
        0 <= c < 32,
        0 <= dy < 3,
        0 <= dx < 3,
        frame_fits(b.len() as int, m, ocx, ocy),
        m.contains_key(key_of(ocx + kx, ocy + ky)),
        cell_of(m[key_of(ocx + kx, ocy + ky)], c, r),
        buf_state(b, m, ocx, ocy, ky, kx, r, c, dy, dx, 0),
    ensures
        ((7 - ky) * 96 + r * 3 + dy) * 768 + kx * 96 + c * 3 + dx < b.len(),
        buf_state(
            b.update(((7 - ky) * 96 + r * 3 + dy) * 768 + kx * 96 + c * 3 + dx, LIVE_COLOR),
            m,
            ocx,
            ocy,
            ky,
            kx,
            r,
            c,
            dy,
            dx + 1,
            0,
        ),
{
    lemma_frame_size();
    let p0 = ((7 - ky) * 96 + r * 3 + dy) * 768 + kx * 96 + c * 3 + dx;
    let b2 = b.update(p0, LIVE_COLOR);
    lemma_pixel_index(kx, ky, c * 3 + dx, r * 3 + dy);
    lemma_cell_split(c * 3 + dx, r * 3 + dy);
    vstd::arithmetic::div_mod::lemma_fundamental_div_mod_converse(c * 3 + dx, 3, c, dx);
    vstd::arithmetic::div_mod::lemma_fundamental_div_mod_converse(r * 3 + dy, 3, r, dy);
    assert(frame_pixel(m, ocx, ocy, kx * 96 + c * 3 + dx, (7 - ky) * 96 + r * 3 + dy) != 0);
    assert forall|p: int| 0 <= p < b2.len() implies #[trigger] b2[p] == if p < BUF_W * BUF_H {
        frame_state(m, ocx, ocy, ky, kx, r, c, dy, dx + 1, 0, p % BUF_W as int, p / BUF_W as int)
    } else {
        0
    } by {
        if p < BUF_W * BUF_H {
            lemma_pixel_split(p);
            let x = p % 768;
            let y = p / 768;
            lemma_cell_split(x % 96, y % 96);
            if p != p0 {
                assert(b2[p] == b[p]);
            }
        }
    }
}

/// Skipping a dead cell changes no pixel.
proof fn lemma_dead_cell(b: Seq<u32>, m: Map<u64, Seq<u32>>, ocx: int, ocy: int, ky: int, kx: int, r: int, c: int)
    requires
        0 <= kx < 8,
        0 <= ky < 8,
        !cell_of(m[key_of(ocx + kx, ocy + ky)], c, r),
        buf_state(b, m, ocx, ocy, ky, kx, r, c, 0, 0, 0),
    ensures
        buf_state(b, m, ocx, ocy, ky, kx, r, c + 1, 0, 0, 0),
{
    assert forall|ix: int, iy: int| 0 <= ix < 96 && 0 <= iy < 96 implies #[trigger] stage_pixel(
        m[key_of(ocx + kx, ocy + ky)],
        ix,
        iy,
        r,
        c,
        0,
        0,
        0,
    ) == stage_pixel(m[key_of(ocx + kx, ocy + ky)], ix, iy, r, c + 1, 0, 0, 0) by {
        lemma_cell_split(ix, iy);
    }
    lemma_stage_same(b, m, ocx, ocy, ky, kx, (r, c, 0, 0, 0), (r, c + 1, 0, 0, 0));
}

/// One round of the border pass: the pixel `bi` of the top and bottom rows and
/// of the left and right columns of the square.
proof fn lemma_border_round(b: Seq<u32>, m: Map<u64, Seq<u32>>, ocx: int, ocy: int, ky: int, kx: int, bi: int)
    requires
        0 <= kx < 8,
        0 <= ky < 8,
        0 <= bi < 96,
        frame_fits(b.len() as int, m, ocx, ocy),
        m.contains_key(key_of(ocx + kx, ocy + ky)),
        buf_state(b, m, ocx, ocy, ky, kx, 32, 0, 0, 0, bi),
    ensures
        ({
            let px0 = kx * 96;
            let py0 = (7 - ky) * 96;
            &&& py0 * 768 + px0 + bi < b.len()
            &&& (py0 + 95) * 768 + px0 + bi < b.len()
            &&& (py0 + bi) * 768 + px0 < b.len()
            &&& (py0 + bi) * 768 + px0 + 95 < b.len()
        }),
        ({
            let px0 = kx * 96;
            let py0 = (7 - ky) * 96;
            buf_state(
                b.update(py0 * 768 + px0 + bi, BORDER_COLOR).update(
                    (py0 + 95) * 768 + px0 + bi,
                    BORDER_COLOR,
                ).update((py0 + bi) * 768 + px0, BORDER_COLOR).update(
                    (py0 + bi) * 768 + px0 + 95,
                    BORDER_COLOR,
                ),
                m,
                ocx,
                ocy,
                ky,
                kx,
                32,
                0,
                0,
                0,
                bi + 1,
            )
        }),
{
    lemma_frame_size();
    let px0 = kx * 96;
    let py0 = (7 - ky) * 96;
    let q1 = py0 * 768 + px0 + bi;
    let q2 = (py0 + 95) * 768 + px0 + bi;
    let q3 = (py0 + bi) * 768 + px0;
    let q4 = (py0 + bi) * 768 + px0 + 95;
    let b2 = b.update(q1, BORDER_COLOR).update(q2, BORDER_COLOR).update(q3, BORDER_COLOR).update(
        q4,
        BORDER_COLOR,
    );
    lemma_pixel_index(kx, ky, bi, 0);
    lemma_pixel_index(kx, ky, bi, 95);
    lemma_pixel_index(kx, ky, 0, bi);
    lemma_pixel_index(kx, ky, 95, bi);
    assert(frame_pixel(m, ocx, ocy, px0 + bi, py0) != 0);
    assert(frame_pixel(m, ocx, ocy, px0 + bi, py0 + 95) != 0);
    assert(frame_pixel(m, ocx, ocy, px0, py0 + bi) != 0);
    assert(frame_pixel(m, ocx, ocy, px0 + 95, py0 + bi) != 0);
    assert forall|p: int| 0 <= p < b2.len() implies #[trigger] b2[p] == if p < BUF_W * BUF_H {
        frame_state(m, ocx, ocy, ky, kx, 32, 0, 0, 0, bi + 1, p % BUF_W as int, p / BUF_W as int)
    } else {
        0
    } by {
        if p < BUF_W * BUF_H {
            lemma_pixel_split(p);
            if p != q1 && p != q2 && p != q3 && p != q4 {
                assert(b2[p] == b[p]);
            }
        }
    }
}

/// Leaving a square, drawn in full or left black for a missing chunk, for the next one.
proof fn lemma_next_square(b: Seq<u32>, m: Map<u64, Seq<u32>>, ocx: int, ocy: int, ky: int, kx: int, r: int, bi: int)
    requires
        0 <= kx < 8,
        0 <= ky < 8,
        (r == 32 && bi == 96) || (r == 0 && bi == 0 && !m.contains_key(key_of(ocx + kx, ocy + ky))),
        buf_state(b, m, ocx, ocy, ky, kx, r, 0, 0, 0, bi),
    ensures
        buf_state(b, m, ocx, ocy, ky, kx + 1, 0, 0, 0, 0, 0),
{
    lemma_frame_size();
    assert forall|x: int, y: int| 0 <= x < 768 && 0 <= y < 768 implies #[trigger] frame_state(
        m,
        ocx,
        ocy,
        ky,
        kx,
        r,
        0,
        0,
        0,
        bi,
        x,
        y,
    ) == frame_state(m, ocx, ocy, ky, kx + 1, 0, 0, 0, 0, 0, x, y) by {
        vstd::arithmetic::div_mod::lemma_fundamental_div_mod(x, 96);
        vstd::arithmetic::div_mod::lemma_fundamental_div_mod(y, 96);
        lemma_cell_split(x % 96, y % 96);
    }
    lemma_buf_same(b, m, ocx, ocy, (ky, kx, r, 0, 0, 0, bi), (ky, kx + 1, 0, 0, 0, 0, 0));
}

/// Leaving a full row of squares for the row above.
proof fn lemma_next_square_row(b: Seq<u32>, m: Map<u64, Seq<u32>>, ocx: int, ocy: int, ky: int)
    requires
        0 <= ky < 8,
        buf_state(b, m, ocx, ocy, ky, 8, 0, 0, 0, 0, 0),
    ensures
        buf_state(b, m, ocx, ocy, ky + 1, 0, 0, 0, 0, 0, 0),
{
    lemma_frame_size();
    assert forall|x: int, y: int| 0 <= x < 768 && 0 <= y < 768 implies #[trigger] frame_state(
        m,
        ocx,
        ocy,
        ky,
        8,
        0,
        0,
        0,
        0,
        0,
        x,
        y,
    ) == frame_state(m, ocx, ocy, ky + 1, 0, 0, 0, 0, 0, 0, x, y) by {
        vstd::arithmetic::div_mod::lemma_fundamental_div_mod(x, 96);
        vstd::arithmetic::div_mod::lemma_fundamental_div_mod(y, 96);
        lemma_cell_split(x % 96, y % 96);
    }
    lemma_buf_same(b, m, ocx, ocy, (ky, 8, 0, 0, 0, 0, 0), (ky + 1, 0, 0, 0, 0, 0, 0));
}

/// The sizes of the frame.
pub proof fn lemma_frame_size()
    ensures
        BUF_W == 768,
        BUF_H == 768,
        chunk_px() == 96,
{
}

fn set_pixel(buf: &mut [u32], x: isize, y: isize, color: u32)
    requires
        (0 <= x < BUF_W && 0 <= y < BUF_H) ==> y * BUF_W + x < old(buf)@.len(),
    ensures
        final(buf)@ == if 0 <= x < BUF_W && 0 <= y < BUF_H {
            old(buf)@.update(y * BUF_W + x, color)
        } else {
            old(buf)@
        },
{
    proof {
        lemma_frame_size();
    }
    if x >= 0 && x < BUF_W as isize && y >= 0 && y < BUF_H as isize {
        buf[(y as usize) * BUF_W + (x as usize)] = color;
    }
}


/// Draws the 8x8 chunks from chunk (`origin_cx`, `origin_cy`) on into the
/// frame `buf` (row by row, `BUF_W` pixels each) as `frame_pixel` says; pixels
/// past the frame are cleared.
pub fn rasterize_world(world: &World, buf: &mut [u32], origin_cx: i32, origin_cy: i32)
    requires
        frame_fits(old(buf)@.len() as int, world.contents(), origin_cx as int, origin_cy as int),
        origin_cx <= i32::MAX - VIEW_CHUNKS_X,
        origin_cy <= i32::MAX - VIEW_CHUNKS_Y,
    ensures
        final(buf)@.len() == old(buf)@.len(),
        forall|p: int|
            0 <= p < final(buf)@.len() ==> #[trigger] final(buf)@[p] == if p < BUF_W * BUF_H {
                frame_pixel(world.contents(), origin_cx as int, origin_cy as int, p % BUF_W as int, p / BUF_W as int)
            } else {
                0
            },
{
    let ghost m = world.contents();
    let ghost ocx = origin_cx as int;
    let ghost ocy = origin_cy as int;
    let ghost n = buf@.len();
    proof {
        lemma_frame_size();
    }
    // black background
    let len = buf.len();
    for i in 0..len
        invariant
            buf@.len() == len,
            n == len,
            forall|j: int| 0 <= j < i ==> buf@[j] == 0u32,
    {
        buf[i] = 0x00000000;
    }
    proof {
        assert forall|p: int| 0 <= p < buf@.len() implies #[trigger] buf@[p] == if p < BUF_W * BUF_H {
            frame_state(m, ocx, ocy, 0, 0, 0, 0, 0, 0, 0, p % BUF_W as int, p / BUF_W as int)
        } else {
            0
        } by {
            if p < BUF_W * BUF_H {
                lemma_pixel_split(p);
                lemma_cell_split((p % 768) % 96, (p / 768) % 96);
            }
        }
    }
    for cy in origin_cy..origin_cy + VIEW_CHUNKS_Y as i32
        invariant
            buf@.len() == n,
            frame_fits(n as int, m, ocx, ocy),
            m == world.contents(),
            ocx == origin_cx,
            ocy == origin_cy,
            origin_cx <= i32::MAX - VIEW_CHUNKS_X,
            origin_cy <= cy <= origin_cy + 8,
            buf_state(buf@, m, ocx, ocy, cy - ocy, 0, 0, 0, 0, 0, 0),
    {
        for cx in origin_cx..origin_cx + VIEW_CHUNKS_X as i32
            invariant
                buf@.len() == n,
                frame_fits(n as int, m, ocx, ocy),
                m == world.contents(),
                ocx == origin_cx,
                ocy == origin_cy,
                origin_cy <= cy < origin_cy + 8,
                origin_cx <= cx <= origin_cx + 8,
                buf_state(buf@, m, ocx, ocy, cy - ocy, cx - ocx, 0, 0, 0, 0, 0),
        {
            let ghost ky = cy - ocy;
            let ghost kx = cx - ocx;
            if let Some(chunk) = world.get_chunk(cx, cy) {
                let ghost rows = chunk@;
                let base_px = ((cx - origin_cx) as usize * CHUNK_DIM * CELL_SIZE) as isize;
                let base_py = ((VIEW_CHUNKS_Y - 1 - (cy - origin_cy) as usize) * CHUNK_DIM * CELL_SIZE) as isize;
                for row in 0..CHUNK_DIM
                    invariant
                        buf@.len() == n,
                        frame_fits(n as int, m, ocx, ocy),
                        0 <= kx < 8,
                        0 <= ky < 8,
                        base_px == kx * 96,
                        base_py == (7 - ky) * 96,
                        m.contains_key(key_of(ocx + kx, ocy + ky)),
                        m[key_of(ocx + kx, ocy + ky)] == chunk@,
                        buf_state(buf@, m, ocx, ocy, ky, kx, row as int, 0, 0, 0, 0),
                {
                    let bits = chunk.get_row(row);
                    // bit 31 holds the leftmost column
                    for col in 0..CHUNK_DIM
                        invariant
                            buf@.len() == n,
                            frame_fits(n as int, m, ocx, ocy),
                            0 <= kx < 8,
                            0 <= ky < 8,
                            0 <= row < 32,
                            bits == chunk@[row as int],
                            base_px == kx * 96,
                            base_py == (7 - ky) * 96,
                            m.contains_key(key_of(ocx + kx, ocy + ky)),
                            m[key_of(ocx + kx, ocy + ky)] == chunk@,
                            buf_state(buf@, m, ocx, ocy, ky, kx, row as int, col as int, 0, 0, 0),
                    {
                        let alive = (bits >> ((31 - col) as u32)) & 1;
                        proof {
                            crate::bits::lemma_lane_bits(bits, (31 - col) as u32);
                        }
                        if alive == 0 {
                            proof {
                                lemma_dead_cell(buf@, m, ocx, ocy, ky, kx, row as int, col as int);
                            }
                        } else {
                            let px = base_px + (col * CELL_SIZE) as isize;
                            let py = base_py + (row * CELL_SIZE) as isize;
                            // Fill CELL_SIZE x CELL_SIZE block
                            for dy in 0..CELL_SIZE as isize
                                invariant
                                    buf@.len() == n,
                                    frame_fits(n as int, m, ocx, ocy),
                                    0 <= kx < 8,
                                    0 <= ky < 8,
                                    0 <= row < 32,
                                    0 <= col < 32,
                                    px == kx * 96 + col * 3,
                                    py == (7 - ky) * 96 + row * 3,
                                    m.contains_key(key_of(ocx + kx, ocy + ky)),
                                    cell_of(m[key_of(ocx + kx, ocy + ky)], col as int, row as int),
                                    buf_state(buf@, m, ocx, ocy, ky, kx, row as int, col as int, dy as int, 0, 0),
                            {
                                for dx in 0..CELL_SIZE as isize
                                    invariant
                                        buf@.len() == n,
                                        frame_fits(n as int, m, ocx, ocy),
                                        0 <= kx < 8,
                                        0 <= ky < 8,
                                        0 <= row < 32,
                                        0 <= col < 32,
                                        0 <= dy < 3,
                                        px == kx * 96 + col * 3,
                                        py == (7 - ky) * 96 + row * 3,
                                        m.contains_key(key_of(ocx + kx, ocy + ky)),
                                        cell_of(m[key_of(ocx + kx, ocy + ky)], col as int, row as int),
                                        buf_state(buf@, m, ocx, ocy, ky, kx, row as int, col as int, dy as int, dx as int, 0),
                                {
                                    let x = px + dx;
                                    let y = py + dy;
                                    proof {
                                        lemma_cell_write(buf@, m, ocx, ocy, ky, kx, row as int, col as int, dy as int, dx as int);
                                    }
                                    if x >= 0 && x < BUF_W as isize && y >= 0 && y < BUF_H as isize {
                                        buf[(y as usize) * BUF_W + (x as usize)] = 0x00FFFFFF;
                                    }
                                }
                                proof {
                                    lemma_stage_same(buf@, m, ocx, ocy, ky, kx, (row as int, col as int, dy as int, 3, 0), (row as int, col as int, dy + 1, 0, 0));
                                }
                            }
                            proof {
                                lemma_stage_same(buf@, m, ocx, ocy, ky, kx, (row as int, col as int, 3, 0, 0), (row as int, col + 1, 0, 0, 0));
                            }
                        }
                    }
                    proof {
                        lemma_stage_same(buf@, m, ocx, ocy, ky, kx, (row as int, 32, 0, 0, 0), (row + 1, 0, 0, 0, 0));
                    }
                }
                // Draw chunk borders
                let chunk_px = (CHUNK_DIM * CELL_SIZE) as isize;
                for i in 0..chunk_px
                    invariant
                        buf@.len() == n,
                        frame_fits(n as int, m, ocx, ocy),
                        0 <= kx < 8,
                        0 <= ky < 8,
                        chunk_px == 96,
                        base_px == kx * 96,
                        base_py == (7 - ky) * 96,
                        m.contains_key(key_of(ocx + kx, ocy + ky)),
                        buf_state(buf@, m, ocx, ocy, ky, kx, 32, 0, 0, 0, i as int),
                {
                    proof {
                        lemma_border_round(buf@, m, ocx, ocy, ky, kx, i as int);
                    }
                    set_pixel(buf, base_px + i, base_py, BORDER_COLOR); // bottom
                    set_pixel(buf, base_px + i, base_py + chunk_px - 1, BORDER_COLOR); // top
                    set_pixel(buf, base_px, base_py + i, BORDER_COLOR); // left
                    set_pixel(buf, base_px + chunk_px - 1, base_py + i, BORDER_COLOR); // right
                }
                proof {
                    lemma_next_square(buf@, m, ocx, ocy, ky, kx, 32, 96);
                }
            } else {
                proof {
                    lemma_next_square(buf@, m, ocx, ocy, ky, kx, 0, 0);
                }
            }
        }
        proof {
            lemma_next_square_row(buf@, m, ocx, ocy, cy - ocy);
        }
    }
    proof {
        assert forall|p: int| 0 <= p < buf@.len() implies #[trigger] buf@[p] == if p < BUF_W * BUF_H {
            frame_pixel(m, ocx, ocy, p % BUF_W as int, p / BUF_W as int)
        } else {
            0
        } by {
            if p < BUF_W * BUF_H {
                lemma_pixel_split(p);
            }
        }
    }
}

} // verus!

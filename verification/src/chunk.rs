use vstd::prelude::*;
use vstd::string::StringExecFns;

use crate::bits::{bit, lemma_bit_set, lemma_bits_determine};
use crate::pattern::{col_of, lemma_line_col_bounds, line_of, star_at};

verus! {

/// A 32x32 block of cells. Row `i` is packed into one `u32`, whose bit 31
/// holds column 0 (the leftmost cell) and bit 0 column 31.
#[derive(Debug)]
pub struct Chunk {
    rows: [u32; 32],
}

impl View for Chunk {
    type V = Seq<u32>;

    /// The 32 packed rows, from the top row down.
    closed spec fn view(&self) -> Seq<u32> {
        self.rows@
    }
}

/// A chunk always holds exactly 32 rows.
pub broadcast proof fn lemma_chunk_len(c: &Chunk)
    ensures
        #[trigger] c@.len() == 32,
{
}

/// The rows of an empty chunk.
pub open spec fn empty_rows() -> Seq<u32> {
    Seq::new(32, |i: int| 0u32)
}

/// Whether the cell at column `col` of row `row` is alive in `rows`.
pub open spec fn cell_of(rows: Seq<u32>, col: int, row: int) -> bool {
    bit(rows[row], (31 - col) as u32)
}

/// The character that draws an upper and a lower cell in one text cell.
pub open spec fn half_block(upper: bool, lower: bool) -> char {
    if upper {
        if lower {
            '█'
        } else {
            '▀'
        }
    } else {
        if lower {
            '▄'
        } else {
            ' '
        }
    }
}

/// One line of the compact drawing: rows `upper` and `lower` drawn together,
/// column 0 first.
pub open spec fn pair_line(upper: u32, lower: u32) -> Seq<char> {
    Seq::new(32, |c: int| half_block(bit(upper, (31 - c) as u32), bit(lower, (31 - c) as u32)))
}

/// The first `n` lines of the compact drawing of `rows`, each ended by a line break.
pub open spec fn compact_text(rows: Seq<u32>, n: int) -> Seq<char>
    decreases n,
{
    if n <= 0 {
        Seq::empty()
    } else {
        compact_text(rows, n - 1) + pair_line(rows[2 * (n - 1)], rows[2 * (n - 1) + 1]).push('\n')
    }
}

/// A row that has been set reads back as set, and no other row changes.
pub proof fn law_set_row_read_back(rows: Seq<u32>, i: int, v: u32)
    requires
        rows.len() == 32,
        0 <= i < 32,
    ensures
        rows.update(i, v)[i] == v,
        forall|k: int| 0 <= k < 32 && k != i ==> #[trigger] rows.update(i, v)[k] == rows[k],
{
}

/// The compact drawing is its sixteen lines (those of `to_string_list_compact`)
/// each followed by a line break: line `i` takes characters `33 * i` to
/// `33 * i + 31`, and character `33 * i + 32` is the break.
pub proof fn law_compact_text_lines(rows: Seq<u32>, n: int)
    requires
        0 <= n,
    ensures
        compact_text(rows, n).len() == 33 * n,
        forall|i: int|
            0 <= i < n ==> #[trigger] compact_text(rows, n).subrange(33 * i, 33 * i + 32) == pair_line(
                rows[2 * i],
                rows[2 * i + 1],
            ) && compact_text(rows, n)[33 * i + 32] == '\n',
    decreases n,
{
    if n > 0 {
        law_compact_text_lines(rows, n - 1);
        let prev = compact_text(rows, n - 1);
        let line = pair_line(rows[2 * (n - 1)], rows[2 * (n - 1) + 1]).push('\n');
        assert forall|i: int| 0 <= i < n implies #[trigger] compact_text(rows, n).subrange(
            33 * i,
            33 * i + 32,
        ) == pair_line(rows[2 * i], rows[2 * i + 1]) && compact_text(rows, n)[33 * i + 32] == '\n' by {
            if i < n - 1 {
                assert(compact_text(rows, n).subrange(33 * i, 33 * i + 32) =~= prev.subrange(
                    33 * i,
                    33 * i + 32,
                ));
                assert(compact_text(rows, n)[33 * i + 32] == prev[33 * i + 32]);
            } else {
                assert(compact_text(rows, n).subrange(33 * i, 33 * i + 32) =~= pair_line(
                    rows[2 * i],
                    rows[2 * i + 1],
                ));
            }
        }
    }
}

/// The chunk `rows` written as text: 32 lines of 32 characters, `*` for a live
/// cell and `.` for a dead one, column 0 first, the lines joined by line breaks.
pub open spec fn star_grid(rows: Seq<u32>) -> Seq<char> {
    Seq::new(
        1055nat,
        |p: int|
            if p % 33 == 32 {
                '\n'
            } else if cell_of(rows, p % 33, p / 33) {
                '*'
            } else {
                '.'
            },
    )
}

/// Character `p` of a star grid stands on line `p / 33`, at column `p % 33`.
proof fn lemma_star_grid_place(rows: Seq<u32>, p: int)
    requires
        0 <= p <= 32 * 33 - 1,
    ensures
        line_of(star_grid(rows), p) == p / 33,
        col_of(star_grid(rows), p) == p % 33,
    decreases p,
{
    if p > 0 {
        let q = p - 1;
        lemma_star_grid_place(rows, q);
        vstd::arithmetic::div_mod::lemma_fundamental_div_mod(q, 33);
        if q % 33 == 32 {
            vstd::arithmetic::div_mod::lemma_fundamental_div_mod_converse(p, 33, q / 33 + 1, 0);
        } else {
            vstd::arithmetic::div_mod::lemma_fundamental_div_mod_converse(p, 33, q / 33, q % 33 + 1);
        }
    }
}

/// The star grid of a chunk is text that `Chunk::from_string` accepts, and it
/// shows a star exactly where the chunk holds a live cell.
pub proof fn lemma_star_grid_stars(rows: Seq<u32>)
    ensures
        star_grid(rows).len() <= usize::MAX,
        forall|p: int|
            0 <= p < star_grid(rows).len() && star_grid(rows)[p] == '*' && col_of(star_grid(rows), p) < 32
                ==> line_of(star_grid(rows), p) < 32,
        forall|r: int, c: int|
            0 <= r < 32 && 0 <= c < 32 ==> #[trigger] star_at(star_grid(rows), c, r) == cell_of(rows, c, r),
{
    let s = star_grid(rows);
    assert forall|p: int|
        0 <= p < s.len() && s[p] == '*' && col_of(s, p) < 32 implies line_of(s, p) < 32 by {
        lemma_star_grid_place(rows, p);
    }
    assert forall|r: int, c: int| 0 <= r < 32 && 0 <= c < 32 implies #[trigger] star_at(s, c, r) == cell_of(
        rows,
        c,
        r,
    ) by {
        let p0 = 33 * r + c;
        vstd::arithmetic::div_mod::lemma_fundamental_div_mod_converse(p0, 33, r, c);
        lemma_star_grid_place(rows, p0);
        if star_at(s, c, r) {
            let p = choose|p: int|
                0 <= p < s.len() && s[p] == '*' && #[trigger] col_of(s, p) == c && line_of(s, p) == r;
            lemma_star_grid_place(rows, p);
            vstd::arithmetic::div_mod::lemma_fundamental_div_mod(p, 33);
            assert(p == p0);
        }
        if cell_of(rows, c, r) {
            assert(s[p0] == '*');
            assert(col_of(s, p0) == c);
        }
    }
}

/// Reading back the star grid of a chunk restores the chunk: rows that hold a
/// live cell exactly where the star grid of `rows` shows a star (what
/// `Chunk::from_string` makes of that text) are `rows`.
pub proof fn law_star_grid_reads_back(rows: Seq<u32>, read: Seq<u32>)
    requires
        rows.len() == 32,
        read.len() == 32,
        forall|r: int, c: int|
            0 <= r < 32 && 0 <= c < 32 ==> cell_of(read, c, r) == star_at(star_grid(rows), c, r),
    ensures
        read == rows,
{
    lemma_star_grid_stars(rows);
    assert forall|r: int| 0 <= r < 32 implies read[r] == rows[r] by {
        assert forall|j: u32| j < 32 implies bit(read[r], j) == bit(rows[r], j) by {
            let c = 31 - j as int;
            assert((31 - c) as u32 == j);
            assert(cell_of(read, c, r) == star_at(star_grid(rows), c, r));
            assert(star_at(star_grid(rows), c, r) == cell_of(rows, c, r));
        }
        lemma_bits_determine(read[r], rows[r]);
    }
    assert(read =~= rows);
}

/// The compact drawing of a chunk shows every one of its 32 columns: line `i`
/// has 32 characters and a line break, and its character `c` is `█` where the
/// cells at column `c` of rows `2i` and `2i + 1` are both alive, `▀` where only
/// the upper one is, `▄` where only the lower one is, and a space where
/// neither is. The lines of `to_string_list_compact` are the same.
pub proof fn law_compact_drawing_shows_every_cell(rows: Seq<u32>, i: int, c: int)
    requires
        rows.len() == 32,
        0 <= i < 16,
        0 <= c < 32,
    ensures
        pair_line(rows[2 * i], rows[2 * i + 1]).len() == 32,
        compact_text(rows, 16)[33 * i + c] == pair_line(rows[2 * i], rows[2 * i + 1])[c],
        compact_text(rows, 16)[33 * i + 32] == '\n',
        pair_line(rows[2 * i], rows[2 * i + 1])[c] == '█' <==> cell_of(rows, c, 2 * i) && cell_of(
            rows,
            c,
            2 * i + 1,
        ),
        pair_line(rows[2 * i], rows[2 * i + 1])[c] == '▀' <==> cell_of(rows, c, 2 * i) && !cell_of(
            rows,
            c,
            2 * i + 1,
        ),
        pair_line(rows[2 * i], rows[2 * i + 1])[c] == '▄' <==> !cell_of(rows, c, 2 * i) && cell_of(
            rows,
            c,
            2 * i + 1,
        ),
        pair_line(rows[2 * i], rows[2 * i + 1])[c] == ' ' <==> !cell_of(rows, c, 2 * i) && !cell_of(
            rows,
            c,
            2 * i + 1,
        ),
{
    law_compact_text_lines(rows, 16);
    let text = compact_text(rows, 16);
    assert(text.subrange(33 * i, 33 * i + 32)[c] == text[33 * i + c]);
}

/// Rows `upper` and `lower` drawn together in half blocks, column 0 first.
fn compact_line(upper: u32, lower: u32) -> (line: String)
    ensures
        line@ == pair_line(upper, lower),
{
    let mut line = String::new();
    for col in 0..32u32
        invariant
            line@ == pair_line(upper, lower).take(col as int),
    {
        let j = 31 - col;
        let upper_value = upper >> j & 1;
        let lower_value = lower >> j & 1;
        proof {
            crate::bits::lemma_lane_bits(upper, j);
            crate::bits::lemma_lane_bits(lower, j);
            reveal_strlit("█");
            reveal_strlit("▀");
            reveal_strlit("▄");
            reveal_strlit(" ");
        }
        if upper_value == 1 {
            if lower_value == 1 {
                line.append("█");
            } else {
                line.append("▀");
            }
        } else {
            if lower_value == 1 {
                line.append("▄");
            } else {
                line.append(" ");
            }
        }
        proof {
            assert(pair_line(upper, lower).take(col + 1) =~= pair_line(upper, lower).take(col as int).push(
                pair_line(upper, lower)[col as int],
            ));
        }
    }
    assert(pair_line(upper, lower).take(32) =~= pair_line(upper, lower));
    line
}

impl Chunk {
    /// An empty chunk: every cell is dead.
    pub fn new() -> (c: Chunk)
        ensures
            c@ == empty_rows(),
    {
        let c = Chunk { rows: [0; 32] };
        assert(c@ =~= empty_rows());
        c
    }

    /// Row `i`; an index above 32 gives an empty row, while index 32 lies
    /// past the rows and is not accepted.
    pub fn get_row(&self, i: usize) -> (r: u32)
        requires
            i != 32,
        ensures
            r == if i > 32 {
                0u32
            } else {
                self@[i as int]
            },
    {
        if i > 32 {
            0
        } else {
            let val = self.rows[i];
            val
        }
    }

    /// The top row.
    pub fn get_first_row(&self) -> (r: u32)
        ensures
            r == self@[0],
    {
        self.rows[0]
    }

    /// The bottom row.
    pub fn get_last_row(&self) -> (r: u32)
        ensures
            r == self@[31],
    {
        self.rows[31]
    }

    /// An iterator over the 32 rows, from the top row down.
    pub fn iter(&self) -> (r: std::slice::Iter<'_, u32>)
        ensures
            vstd::std_specs::slice::into_iter_elts(r) == self@,
            vstd::std_specs::iter::IteratorSpec::decrease(&r) is Some,
            vstd::std_specs::iter::IteratorSpec::initial_value_relation(&r, &r),
    {
        let r = self.rows.iter();
        r
    }

    /// The chunk drawn with half blocks: sixteen lines, line `i` drawing rows
    /// `2i` (upper half) and `2i + 1` (lower half), each ended by a line break.
    pub fn to_string_compact(&self) -> (r: String)
        ensures
            r@ == compact_text(self@, 16),
    {
        let mut str = String::new();
        let rows = &self.rows;
        for i in 0..16usize
            invariant
                rows@ == self@,
                str@ == compact_text(self@, i as int),
        {
            let line = compact_line(rows[i * 2], rows[i * 2 + 1]);
            str.append(line.as_str());
            proof {
                reveal_strlit("\n");
            }
            str.append("\n");
        }
        str
    }

    /// The sixteen lines of `to_string_compact`, without line breaks.
    pub fn to_string_list_compact(&self) -> (list: [String; 16])
        ensures
            forall|i: int|
                0 <= i < 16 ==> (#[trigger] list@[i])@ == pair_line(self@[2 * i], self@[2 * i + 1]),
    {
        let mut list: [String; 16] = [
            String::new(), String::new(), String::new(), String::new(),
            String::new(), String::new(), String::new(), String::new(),
            String::new(), String::new(), String::new(), String::new(),
            String::new(), String::new(), String::new(), String::new(),
        ];
        let rows = &self.rows;
        for i in 0..16usize
            invariant
                rows@ == self@,
                forall|i2: int|
                    0 <= i2 < i ==> (#[trigger] list@[i2])@ == pair_line(self@[2 * i2], self@[2 * i2 + 1]),
        {
            list[i] = compact_line(rows[i * 2], rows[i * 2 + 1]);
        }
        list
    }

    /// A chunk read from text: line `r`, column `c` (`c` < 32) is alive where the
    /// text holds a `*`; other characters, and columns from 32 on, are dead.
    pub fn from_string(string: &str) -> (chunk: Chunk)
        requires
            string@.len() <= usize::MAX,
            forall|p: int|
                0 <= p < string@.len() && string@[p] == '*' && col_of(string@, p) < 32 ==> line_of(
                    string@,
                    p,
                ) < 32,
        ensures
            forall|r: int, c: int|
                0 <= r < 32 && 0 <= c < 32 ==> cell_of(chunk@, c, r) == star_at(string@, c, r),
    {
        let mut chunk = Chunk::new();
        let mut r: usize = 0;
        let mut c: usize = 0;
        proof {
            assert forall|i: int, cc: int| 0 <= i < 32 && 0 <= cc < 32 implies !#[trigger] cell_of(
                chunk@,
                cc,
                i,
            ) by {
                crate::bits::lemma_no_bit_of_zero((31 - cc) as u32);
            }
        }
        for sym in it: string.chars()
            invariant
                it.seq() == string@,
                string@.len() <= usize::MAX,
                forall|p: int|
                    0 <= p < string@.len() && string@[p] == '*' && col_of(string@, p) < 32 ==> line_of(
                        string@,
                        p,
                    ) < 32,
                r == line_of(string@, it.index()),
                c == col_of(string@, it.index()),
                forall|i: int, cc: int|
                    0 <= i < 32 && 0 <= cc < 32 ==> #[trigger] cell_of(chunk@, cc, i) == exists|p: int|
                        0 <= p < it.index() && string@[p] == '*' && col_of(string@, p) == cc
                            && line_of(string@, p) == i,
        {
            let ghost p = it.index();
            let ghost before = chunk@;
            proof {
                lemma_line_col_bounds(string@, p);
                assert(string@[p] == sym);
            }
            if sym == '\n' {
                r += 1;
                c = 0;
            } else {
                if sym == '*' && c < 32 {
                    let mask: u32 = 1 << (31 - c);
                    chunk.rows[r] |= mask;
                }
                c += 1;
            }
            proof {
                assert forall|i: int, cc: int| 0 <= i < 32 && 0 <= cc < 32 implies #[trigger] cell_of(
                    chunk@,
                    cc,
                    i,
                ) == exists|q: int|
                    0 <= q < p + 1 && string@[q] == '*' && col_of(string@, q) == cc && line_of(
                        string@,
                        q,
                    ) == i by {
                    let here = string@[p] == '*' && col_of(string@, p) == cc && line_of(string@, p) == i;
                    let old_exists = exists|q: int|
                        0 <= q < p && string@[q] == '*' && col_of(string@, q) == cc && line_of(
                            string@,
                            q,
                        ) == i;
                    let new_exists = exists|q: int|
                        0 <= q < p + 1 && string@[q] == '*' && col_of(string@, q) == cc && line_of(
                            string@,
                            q,
                        ) == i;
                    assert(cell_of(before, cc, i) == old_exists);
                    if old_exists {
                        let q = choose|q: int|
                            0 <= q < p && string@[q] == '*' && col_of(string@, q) == cc && line_of(
                                string@,
                                q,
                            ) == i;
                        assert(0 <= q < p + 1);
                    }
                    if new_exists {
                        let q = choose|q: int|
                            0 <= q < p + 1 && string@[q] == '*' && col_of(string@, q) == cc && line_of(
                                string@,
                                q,
                            ) == i;
                        if q < p {
                            assert(old_exists);
                        } else {
                            assert(here);
                        }
                    }
                    assert(new_exists == (old_exists || here));
                    if sym == '*' && col_of(string@, p) < 32 {
                        let rr = line_of(string@, p);
                        assert(chunk@ == before.update(rr, before[rr] | (1u32 << (31 - col_of(string@, p)) as u32)));
                        lemma_bit_set(before[rr], (31 - col_of(string@, p)) as u32, (31 - cc) as u32);
                    } else {
                        assert(chunk@ == before);
                        assert(!here);
                    }
                }
            }
        }
        chunk
    }

    /// Replaces row `i`; an index above 32 changes nothing, while index 32
    /// lies past the rows and is not accepted.
    pub fn set_row(&mut self, i: usize, v: u32)
        requires
            i != 32,
        ensures
            final(self)@ == if i > 32 {
                old(self)@
            } else {
                old(self)@.update(i as int, v)
            },
    {
        if i > 32 {
            return;
        }
        self.rows[i] = v;
    }
}

} // verus!

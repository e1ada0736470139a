use vstd::prelude::*;

use crate::life::{max_cell, min_cell};

verus! {

/// The smallest cell coordinate that a chunk coordinate (an `i32`) can hold.
pub const MIN_CELL_COORDINATE: i64 = -68_719_476_736;

/// The largest cell coordinate that a chunk coordinate (an `i32`) can hold.
pub const MAX_CELL_COORDINATE: i64 = 68_719_476_735;

/// Why a pattern cannot be placed.
#[derive(Debug, PartialEq, Eq)]
pub enum ExtentError {
    /// The last coordinate of the pattern does not fit in an `i64`.
    Overflow,
    /// The last coordinate of the pattern lies past `MAX_CELL_COORDINATE`.
    ExceedsMax,
}

/// The coordinates that a chunk coordinate can hold.
pub proof fn lemma_cell_coordinate_bounds()
    ensures
        MIN_CELL_COORDINATE == min_cell(),
        MAX_CELL_COORDINATE == max_cell(),
{
}

/// The length of each line of `s` among its first `n` characters, split as
/// `str::lines` does: a line ends at `\n`, one `\r` right before that `\n` is
/// not counted; returns the lengths of the ended lines, the length of the line
/// under way, and whether its last character is `\r`.
pub open spec fn line_scan(s: Seq<char>, n: int) -> (Seq<int>, int, bool)
    decreases n,
{
    if n <= 0 {
        (Seq::empty(), 0, false)
    } else {
        let (done, cur, cr) = line_scan(s, n - 1);
        if s[n - 1] == '\n' {
            (done.push(cur - if cr { 1int } else { 0int }), 0, false)
        } else {
            (done, cur + 1, s[n - 1] == '\r')
        }
    }
}

/// The number of characters of each line of `s`, as `str::lines` splits it:
/// a last line without a line break counts when it is not empty.
pub open spec fn line_lengths(s: Seq<char>) -> Seq<int> {
    let (done, cur, cr) = line_scan(s, s.len() as int);
    if cur == 0 {
        done
    } else {
        done.push(cur)
    }
}

/// The largest of the first `n` numbers of `v` (0 for none).
pub open spec fn seq_max(v: Seq<int>, n: int) -> int
    decreases n,
{
    if n <= 0 {
        0
    } else if seq_max(v, n - 1) < v[n - 1] {
        v[n - 1]
    } else {
        seq_max(v, n - 1)
    }
}

proof fn lemma_line_scan_bounds(s: Seq<char>, n: int)
    requires
        0 <= n <= s.len(),
    ensures
        ({
            let (done, cur, cr) = line_scan(s, n);
            &&& 0 <= cur <= n
            &&& done.len() + cur <= n
            &&& cr ==> cur >= 1
            &&& forall|i: int| 0 <= i < done.len() ==> 0 <= #[trigger] done[i] <= n
        }),
    decreases n,
{
    if n > 0 {
        lemma_line_scan_bounds(s, n - 1);
    }
}

proof fn lemma_seq_max_prefix(v: Seq<int>, x: int, n: int)
    requires
        0 <= n <= v.len(),
    ensures
        seq_max(v.push(x), n) == seq_max(v, n),
    decreases n,
{
    if n > 0 {
        lemma_seq_max_prefix(v, x, n - 1);
    }
}

proof fn lemma_seq_max_bounds(v: Seq<int>, n: int, b: int)
    requires
        0 <= n <= v.len(),
        0 <= b,
        forall|i: int| 0 <= i < v.len() ==> 0 <= #[trigger] v[i] <= b,
    ensures
        0 <= seq_max(v, n) <= b,
    decreases n,
{
    if n > 0 {
        lemma_seq_max_bounds(v, n - 1, b);
    }
}

/// Adding a line to the lines seen so far updates their widest width.
proof fn lemma_width_step(done: Seq<int>, x: int, width: Option<usize>, b: int)
    requires
        0 <= x <= b,
        b <= usize::MAX,
        forall|i: int| 0 <= i < done.len() ==> 0 <= #[trigger] done[i] <= b,
        width == if done.len() == 0 {
            None::<usize>
        } else {
            Some(seq_max(done, done.len() as int) as usize)
        },
    ensures
        (match width {
            Some(w) => if w < x {
                Some(x as usize)
            } else {
                Some(w)
            },
            None => Some(x as usize),
        }) == Some(seq_max(done.push(x), done.len() + 1int) as usize),
{
    lemma_seq_max_prefix(done, x, done.len() as int);
    lemma_seq_max_bounds(done, done.len() as int, b);
}

/// The width of a pattern: the number of characters of its longest line, or
/// `None` for a pattern without lines.
pub fn pattern_width(pattern: &str) -> (r: Option<usize>)
    requires
        pattern@.len() <= usize::MAX,
    ensures
        r == if line_lengths(pattern@).len() == 0 {
            None::<usize>
        } else {
            Some(seq_max(line_lengths(pattern@), line_lengths(pattern@).len() as int) as usize)
        },
{
    let mut width: Option<usize> = None;
    let mut cur: usize = 0;
    let mut cr = false;
    let ghost s = pattern@;
    for ch in it: pattern.chars()
        invariant
            it.seq() == s,
            s.len() <= usize::MAX,
            (line_scan(s, it.index()).0, cur as int, cr) == line_scan(s, it.index()),
            width == if line_scan(s, it.index()).0.len() == 0 {
                None::<usize>
            } else {
                Some(seq_max(line_scan(s, it.index()).0, line_scan(s, it.index()).0.len() as int) as usize)
            },
    {
        proof {
            lemma_line_scan_bounds(s, it.index() + 1);
            lemma_line_scan_bounds(s, it.index());
            assert(s[it.index()] == ch);
        }
        if ch == '\n' {
            let len = if cr {
                cur - 1
            } else {
                cur
            };
            proof {
                lemma_width_step(line_scan(s, it.index()).0, len as int, width, s.len() as int);
            }
            width = match width {
                Some(w) => if w < len {
                    Some(len)
                } else {
                    Some(w)
                },
                None => Some(len),
            };
            cur = 0;
            cr = false;
        } else {
            cur += 1;
            cr = ch == '\r';
        }
    }
    proof {
        lemma_line_scan_bounds(s, s.len() as int);
        if cur != 0 {
            lemma_width_step(line_scan(s, s.len() as int).0, cur as int, width, s.len() as int);
        }
    }
    if cur != 0 {
        width = match width {
            Some(w) => if w < cur {
                Some(cur)
            } else {
                Some(w)
            },
            None => Some(cur),
        };
    }
    width
}

/// The height of a pattern: its number of lines, as `str::lines` counts them.
pub fn pattern_height(pattern: &str) -> (r: usize)
    requires
        pattern@.len() <= usize::MAX,
    ensures
        r == line_lengths(pattern@).len(),
{
    let mut height: usize = 0;
    let mut cur: usize = 0;
    let ghost s = pattern@;
    for ch in it: pattern.chars()
        invariant
            it.seq() == s,
            s.len() <= usize::MAX,
            cur == line_scan(s, it.index()).1,
            height == line_scan(s, it.index()).0.len(),
    {
        proof {
            lemma_line_scan_bounds(s, it.index() + 1);
            assert(s[it.index()] == ch);
        }
        if ch == '\n' {
            height += 1;
            cur = 0;
        } else {
            cur += 1;
        }
    }
    proof {
        lemma_line_scan_bounds(s, s.len() as int);
    }
    if cur != 0 {
        height += 1;
    }
    height
}

// check the last coordinate touched by a pattern before loading it
/// Checks that a pattern of `length` cells from `origin` on along one axis ends
/// on a coordinate the world can hold (nothing to check without a length, or
/// for length 0).
pub fn validate_pattern_extent(origin: i64, length: Option<usize>) -> (r: Result<(), ExtentError>)
    requires
        length matches Some(l) ==> l as i64 != i64::MIN,
    ensures
        r == match length {
            Some(l) if l > 0 => {
                let last = origin + (l as i64 - 1);
                if last < i64::MIN || last > i64::MAX {
                    Err(ExtentError::Overflow)
                } else if last > max_cell() {
                    Err(ExtentError::ExceedsMax)
                } else {
                    Ok(())
                }
            },
            _ => Ok(()),
        },
{
    let length = match length {
        Some(length) if length > 0 => length,
        _ => {
            return Ok(());
        },
    };

    let last = match origin.checked_add(length as i64 - 1) {
        Some(last) => last,
        None => {
            return Err(ExtentError::Overflow);
        },
    };

    if last > MAX_CELL_COORDINATE {
        return Err(ExtentError::ExceedsMax);
    }

    Ok(())
}

} // verus!

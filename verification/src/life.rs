use vstd::prelude::*;

use crate::bits::{as_count, life_rule};

verus! {

/// The smallest cell coordinate that a chunk coordinate (an `i32`) can hold.
pub open spec fn min_cell() -> int {
    i32::MIN * 32
}

/// The largest cell coordinate that a chunk coordinate (an `i32`) can hold.
pub open spec fn max_cell() -> int {
    i32::MAX * 32 + 31
}

/// Whether `v` is a cell coordinate that the world can hold.
pub open spec fn in_cell_range(v: int) -> bool {
    min_cell() <= v <= max_cell()
}

/// The live cells `s` after the cell (`x`, `y`), wrapped as `wrap_cell` says,
/// is made alive (`value`) or dead.
pub open spec fn with_cell(s: Set<(int, int)>, x: int, y: int, value: bool) -> Set<(int, int)> {
    if value {
        s.insert((wrap_cell(x), wrap_cell(y)))
    } else {
        s.remove((wrap_cell(x), wrap_cell(y)))
    }
}

/// Number of live neighbours of the cell (`x`, `y`) among the cells `s`.
pub open spec fn live_neighbours(s: Set<(int, int)>, x: int, y: int) -> int {
    as_count(s.contains((x + 1, y - 1))) + as_count(s.contains((x - 1, y - 1))) + as_count(
        s.contains((x, y - 1)),
    ) + as_count(s.contains((x + 1, y))) + as_count(s.contains((x - 1, y))) + as_count(
        s.contains((x, y + 1)),
    ) + as_count(s.contains((x + 1, y + 1))) + as_count(s.contains((x - 1, y + 1)))
}

/// The generation that follows the live cells `s` under the rules of Conway's
/// Game of Life, on the cells whose coordinates the world can hold.
pub open spec fn next_generation(s: Set<(int, int)>) -> Set<(int, int)> {
    Set::new(
        |c: (int, int)|
            in_cell_range(c.0) && in_cell_range(c.1) && life_rule(
                s.contains(c),
                live_neighbours(s, c.0, c.1),
            ),
    )
}

/// The cell coordinate that a coordinate `v` reaches: its chunk coordinate
/// `v / 32` is cut to an `i32` (two's complement), its place in the chunk kept.
/// On a coordinate the world can hold this is `v` itself.
pub open spec fn wrap_cell(v: int) -> int {
    ((v / 32) as i32) * 32 + v % 32
}

/// A cell that has been set reads back as set, at its wrapped place, and no
/// other cell changes.
pub proof fn law_set_cell_read_back(s: Set<(int, int)>, x: int, y: int, value: bool)
    ensures
        with_cell(s, x, y, value).contains((wrap_cell(x), wrap_cell(y))) == value,
        forall|c: (int, int)|
            c != (wrap_cell(x), wrap_cell(y)) ==> #[trigger] with_cell(s, x, y, value).contains(c)
                == s.contains(c),
{
}

/// Setting a cell twice to the same value is setting it once.
pub proof fn law_set_cell_idempotent(s: Set<(int, int)>, x: int, y: int, value: bool)
    ensures
        with_cell(with_cell(s, x, y, value), x, y, value) == with_cell(s, x, y, value),
{
    assert(with_cell(with_cell(s, x, y, value), x, y, value) =~= with_cell(s, x, y, value));
}

/// A generation never reaches past the coordinates that the world can hold.
pub proof fn law_next_generation_in_range(s: Set<(int, int)>)
    ensures
        forall|c: (int, int)|
            #[trigger] next_generation(s).contains(c) ==> in_cell_range(c.0) && in_cell_range(c.1),
{
}

/// An empty world stays empty.
pub proof fn law_empty_stays_empty()
    ensures
        next_generation(Set::<(int, int)>::empty()) == Set::<(int, int)>::empty(),
{
    assert(next_generation(Set::<(int, int)>::empty()) =~= Set::<(int, int)>::empty());
}

/// The live cells `s` after the cells of `ops` are set in turn: each
/// `(x, y, value)` makes the cell (`x`, `y`), wrapped as `wrap_cell` says,
/// alive or dead as `with_cell` does.
pub open spec fn with_cells(s: Set<(int, int)>, ops: Seq<(int, int, bool)>) -> Set<(int, int)>
    decreases ops.len(),
{
    if ops.len() == 0 {
        s
    } else {
        with_cell(with_cells(s, ops.drop_last()), ops.last().0, ops.last().1, ops.last().2)
    }
}

/// The value that the last of `ops` to reach the cell (`x`, `y`) gave it, if
/// any of them reaches it.
pub open spec fn last_set(ops: Seq<(int, int, bool)>, x: int, y: int) -> Option<bool>
    decreases ops.len(),
{
    if ops.len() == 0 {
        None
    } else if (wrap_cell(ops.last().0), wrap_cell(ops.last().1)) == (x, y) {
        Some(ops.last().2)
    } else {
        last_set(ops.drop_last(), x, y)
    }
}

/// Starting from no live cell and setting cells in turn, a cell is alive
/// exactly when the last setting that reached it made it alive; a cell that
/// no setting reached is dead.
pub proof fn law_set_cells_read_back(ops: Seq<(int, int, bool)>, x: int, y: int)
    ensures
        with_cells(Set::empty(), ops).contains((x, y)) == (last_set(ops, x, y) == Some(true)),
    decreases ops.len(),
{
    if ops.len() > 0 {
        law_set_cells_read_back(ops.drop_last(), x, y);
    }
}

/// The first `j` of a run of settings leave the cells that `with_cells` says.
proof fn lemma_set_cell_run_prefix(views: Seq<Set<(int, int)>>, ops: Seq<(int, int, bool)>, j: int)
    requires
        views.len() == ops.len() + 1,
        views[0] == Set::<(int, int)>::empty(),
        forall|i: int|
            0 <= i < ops.len() ==> views[i + 1] == with_cell(views[i], #[trigger] ops[i].0, ops[i].1, ops[i].2),
        0 <= j <= ops.len(),
    ensures
        views[j] == with_cells(Set::empty(), ops.take(j)),
    decreases j,
{
    if j == 0 {
        assert(ops.take(0).len() == 0);
    } else {
        lemma_set_cell_run_prefix(views, ops, j - 1);
        assert(ops.take(j).drop_last() =~= ops.take(j - 1));
        assert(ops[j - 1].0 == ops.take(j).last().0);
    }
}

/// A run of `set_cell` calls on an empty world, `views[j + 1]` being the live
/// cells that call `j` leaves (as `World::set_cell` says) and `views[0]` those
/// of `World::new`: afterwards a cell reads as alive (as `World::is_alive`
/// reads it, wrapped) exactly when the last call that reached it made it
/// alive, and as dead where no call reached it.
pub proof fn law_set_cell_run(views: Seq<Set<(int, int)>>, ops: Seq<(int, int, bool)>, x: int, y: int)
    requires
        views.len() == ops.len() + 1,
        views[0] == Set::<(int, int)>::empty(),
        forall|i: int|
            0 <= i < ops.len() ==> views[i + 1] == with_cell(views[i], #[trigger] ops[i].0, ops[i].1, ops[i].2),
    ensures
        views.last().contains((wrap_cell(x), wrap_cell(y))) == (last_set(ops, wrap_cell(x), wrap_cell(y))
            == Some(true)),
{
    lemma_set_cell_run_prefix(views, ops, ops.len() as int);
    assert(ops.take(ops.len() as int) =~= ops);
    law_set_cells_read_back(ops, wrap_cell(x), wrap_cell(y));
}

/// The cells `s` moved by (`dx`, `dy`).
pub open spec fn translate(s: Set<(int, int)>, dx: int, dy: int) -> Set<(int, int)> {
    Set::new(|c: (int, int)| s.contains((c.0 - dx, c.1 - dy)))
}

/// Whether `v` lies inside the coordinates that the world can hold with a
/// neighbour on both sides.
pub open spec fn inside_cell_range(v: int) -> bool {
    min_cell() < v < max_cell()
}

/// A generation does not depend on where the cells stand: moving the cells and
/// then taking a generation gives the generation moved, as long as every live
/// cell, before and after the move, has its neighbours inside the coordinates
/// that the world can hold.
pub proof fn law_next_generation_translates(s: Set<(int, int)>, dx: int, dy: int)
    requires
        forall|c: (int, int)|
            #[trigger] s.contains(c) ==> inside_cell_range(c.0) && inside_cell_range(c.1)
                && inside_cell_range(c.0 + dx) && inside_cell_range(c.1 + dy),
    ensures
        next_generation(translate(s, dx, dy)) == translate(next_generation(s), dx, dy),
{
    let t = translate(s, dx, dy);
    assert forall|c: (int, int)| #[trigger] next_generation(t).contains(c) == translate(
        next_generation(s),
        dx,
        dy,
    ).contains(c) by {
        let p = (c.0 - dx, c.1 - dy);
        let x = p.0;
        let y = p.1;
        assert(t.contains(c) == s.contains(p));
        assert(t.contains((c.0 + 1, c.1 - 1)) == s.contains((x + 1, y - 1)));
        assert(t.contains((c.0 - 1, c.1 - 1)) == s.contains((x - 1, y - 1)));
        assert(t.contains((c.0, c.1 - 1)) == s.contains((x, y - 1)));
        assert(t.contains((c.0 + 1, c.1)) == s.contains((x + 1, y)));
        assert(t.contains((c.0 - 1, c.1)) == s.contains((x - 1, y)));
        assert(t.contains((c.0, c.1 + 1)) == s.contains((x, y + 1)));
        assert(t.contains((c.0 + 1, c.1 + 1)) == s.contains((x + 1, y + 1)));
        assert(t.contains((c.0 - 1, c.1 + 1)) == s.contains((x - 1, y + 1)));
        assert(live_neighbours(t, c.0, c.1) == live_neighbours(s, x, y));
    }
    assert(next_generation(t) =~= translate(next_generation(s), dx, dy));
}

/// The part of a cell coordinate that lies inside its chunk determines it,
/// given its chunk coordinate.
pub(crate) proof fn lemma_split_cell(v: int, q: int, r: int)
    requires
        0 <= r < 32,
        v == q * 32 + r,
    ensures
        v / 32 == q,
        v % 32 == r,
{
    vstd::arithmetic::div_mod::lemma_fundamental_div_mod_converse(v, 32, q, r);
}

/// A coordinate the world can hold has its chunk coordinate in `i32`.
pub(crate) proof fn lemma_chunk_of_in_range(v: int)
    requires
        in_cell_range(v),
    ensures
        i32::MIN <= v / 32 <= i32::MAX,
        0 <= v % 32 < 32,
        v == (v / 32) * 32 + v % 32,
{
    vstd::arithmetic::div_mod::lemma_fundamental_div_mod(v, 32);
}

/// Wrapping keeps a coordinate that the world can hold, and always lands on one.
pub proof fn lemma_wrap_cell(v: int)
    ensures
        in_cell_range(wrap_cell(v)),
        wrap_cell(v) / 32 == (v / 32) as i32,
        wrap_cell(v) % 32 == v % 32,
        in_cell_range(v) ==> wrap_cell(v) == v,
{
    vstd::arithmetic::div_mod::lemma_fundamental_div_mod(v, 32);
    lemma_split_cell(wrap_cell(v), ((v / 32) as i32) as int, v % 32);
}

} // verus!

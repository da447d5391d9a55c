//! Properties of the board and the engine that hold for every input,
//! stated over the specifications that the engine's contracts use.

use vstd::prelude::*;

use crate::game::{board_set, node_positions, triangle_set, ChineseChecker};
use crate::position::{
    lemma_neighbor_symmetry, neighbor_at, on_board, size_ok, tip_of, triangle_of, Position,
};

verus! {

/// The point opposite `p` through the center of the board.
pub open spec fn antipode(p: Position, size: int) -> Position {
    Position { x: (6 * size - p.x) as i16, y: (4 * size - p.y) as i16 }
}

/// The board is symmetric through its center: the antipode of a board point
/// is a board point, taking it twice gives the point back, and it carries
/// each triangle onto the opposite one.
pub proof fn lemma_board_antipodal(size: int, p: Position, t: int)
    requires
        size_ok(size),
    ensures
        board_set(size).contains(p) ==> board_set(size).contains(antipode(p, size))
            && antipode(antipode(p, size), size) == p,
        triangle_set(size, t).contains(p) ==> triangle_set(size, (t + 3) % 6).contains(
            antipode(p, size),
        ),
{
    if board_set(size).contains(p) {
        let q = antipode(p, size);
        assert(q.x == 6 * size - p.x && q.y == 4 * size - p.y);
        assert(on_board(q, size));
    }
    if triangle_set(size, t).contains(p) {
        let q = antipode(p, size);
        assert(q.x == 6 * size - p.x && q.y == 4 * size - p.y);
        assert(triangle_of(q.x as int, q.y as int, size) == Some(((t + 3) % 6) as u8));
    }
}

/// Opposite slots of the nodes point back: where the node of a point has a
/// neighbor in slot `i`, that neighbor's node has the point in slot
/// `(i + 3) % 6`.
pub proof fn lemma_nodes_point_back(cc: &ChineseChecker, k: int, i: int)
    requires
        cc.wf(),
        0 <= k < cc.nodes@.len(),
        0 <= i < 6,
        cc.nodes@[k].1.neighbors@[i] is Some,
    ensures
        exists|k2: int|
            0 <= k2 < cc.nodes@.len() && #[trigger] cc.nodes@[k2].0 == cc.nodes@[k].1.neighbors@[i]->0
                && cc.nodes@[k2].1.neighbors@[(i + 3) % 6] == Some(cc.nodes@[k].0),
{
    let s = cc.size as int;
    let p = cc.nodes@[k].0;
    let ns = node_positions(cc.nodes@);
    assert(ns[k] == p);
    assert(ns.to_set().contains(p));
    assert(board_set(s).contains(p));
    assert(cc.nodes@[k].1.neighbors@[i] == neighbor_at(p, i, s));
    lemma_neighbor_symmetry(p, i, s);
    crate::position::lemma_neighbor_on_board(p, i, s);
    let q = neighbor_at(p, i, s)->0;
    assert(board_set(s).contains(q));
    assert(ns.to_set().contains(q));
    let k2 = choose|k2: int| 0 <= k2 < ns.len() && ns[k2] == q;
    assert(cc.nodes@[k2].0 == q);
    assert(cc.nodes@[k2].1.neighbors@[(i + 3) % 6] == neighbor_at(q, (i + 3) % 6, s));
}

/// The jump closure is closed: the closure of any point in the closure of `p`
/// lies in the closure of `p`, so running the search again on what it found
/// finds nothing new.
pub proof fn lemma_closure_idempotent(cc: &ChineseChecker, p: Position, q: Position)
    requires
        cc.jump_closure(p).contains(q),
    ensures
        cc.jump_closure(q).subset_of(cc.jump_closure(p)),
        cc.one_jump_set(q).subset_of(cc.jump_closure(p)),
{
    let first = choose|path: Seq<Position>| #[trigger] cc.is_jump_chain(p, path) && path.last() == q;
    assert forall|x: Position| #[trigger] cc.jump_closure(q).contains(x) implies cc.jump_closure(
        p,
    ).contains(x) by {
        let second = choose|path: Seq<Position>| #[trigger] cc.is_jump_chain(q, path) && path.last() == x;
        let whole = first + second;
        assert forall|i: int| 0 <= i < whole.len() - 1 implies #[trigger] cc.jumps(
            whole[i],
            whole[i + 1],
        ) by {
            if i < first.len() - 1 {
                assert(cc.jumps(first[i], first[i + 1]));
            } else if i == first.len() - 1 {
                assert(whole[i + 1] == second[0]);
            } else {
                let j = i - first.len();
                assert(cc.jumps(second[j], second[j + 1]));
            }
        }
        assert(cc.is_jump_chain(p, whole) && whole.last() == x);
    }
    assert forall|x: Position| #[trigger] cc.one_jump_set(q).contains(x) implies cc.jump_closure(
        p,
    ).contains(x) by {
        let path = seq![x];
        assert(cc.is_jump_chain(q, path) && path.last() == x);
        assert(cc.jump_closure(q).contains(x));
    }
}

/// The tip of each triangle is a point of that triangle.
pub proof fn lemma_tip_in_triangle(size: int, t: int)
    requires
        size_ok(size),
        0 <= t < 6,
    ensures
        triangle_set(size, t).contains(tip_of(t, size)),
{
}

/// A player never starts out done: its start triangle and its goal, the
/// opposite triangle, differ for every triangle index and board size.
pub proof fn lemma_start_is_not_goal(size: int, t: u8)
    requires
        size_ok(size),
    ensures
        triangle_set(size, t as int) != triangle_set(size, (t + 3) % 6),
{
    let g = (t + 3) % 6;
    lemma_tip_in_triangle(size, g);
    if t < 6 {
        lemma_tip_in_triangle(size, t as int);
        assert(!triangle_set(size, g).contains(tip_of(t as int, size)));
    } else {
        assert(!triangle_set(size, t as int).contains(tip_of(g, size)));
    }
}

/// A player just registered on a board is not done.
pub proof fn lemma_registered_not_done(cc: &ChineseChecker, name: Seq<char>, t: u8)
    requires
        cc.wf(),
        cc.positions_of(name) == triangle_set(cc.size as int, t as int),
        cc.goal_of(name) == triangle_set(cc.size as int, (t + 3) % 6),
    ensures
        cc.positions_of(name) != cc.goal_of(name),
{
    lemma_start_is_not_goal(cc.size as int, t);
}

/// Moving a piece from `from` to a free `to` and back restores the player's
/// points exactly: `after` is `before` with the first move made, as
/// `make_move` states it, and `back` is `after` with the reverse move made.
pub proof fn lemma_move_round_trip(
    before: &ChineseChecker,
    after: &ChineseChecker,
    back: &ChineseChecker,
    name: Seq<char>,
    from: Position,
    to: Position,
)
    requires
        before.positions_of(name).contains(from),
        !before.positions_of(name).contains(to),
        after.positions_of(name) == before.positions_of(name).remove(from).insert(to),
        back.positions_of(name) == after.positions_of(name).remove(to).insert(from),
    ensures
        back.positions_of(name) == before.positions_of(name),
{
    assert(back.positions_of(name) =~= before.positions_of(name));
}

} // verus!

//! The engine: board topology built once from the size, the players'
//! pieces, and the generator of crawls and chained jumps.

use vstd::prelude::*;

use crate::player::{Move, Player};
use crate::position::{
    in_hexagram, lemma_hexagram_bounds, lemma_neighbor_on_board, lemma_neighbor_symmetry,
    lemma_steps_distinct, neighbor_at, on_board, size_ok, tip_of, triangle_of, Position,
};

verus! {

/// One point of the board: its six neighbor slots, clockwise from upper-left
/// (`None` past the edge), and the triangle it belongs to.
#[derive(Debug, Clone, Copy)]
pub struct Node {
    pub neighbors: [Option<Position>; 6],
    pub triangle: Option<u8>,
}

/// The points of a board of the given size.
pub open spec fn board_set(size: int) -> Set<Position> {
    Set::new(|p: Position| on_board(p, size))
}

/// The points of triangle `t` on a board of the given size.
pub open spec fn triangle_set(size: int, t: int) -> Set<Position> {
    Set::new(
        |p: Position|
            on_board(p, size) && triangle_of(p.x as int, p.y as int, size) == Some(t as u8)
            && 0 <= t < 6,
    )
}

/// The neighbors that the board gives point `p`.
pub open spec fn neighbor_set(p: Position, size: int) -> Set<Position> {
    Set::new(|q: Position| exists|i: int| 0 <= i < 6 && neighbor_at(p, i, size) == Some(q))
}

/// What a sequence holds after a push.
pub proof fn lemma_push_contains<A>(s: Seq<A>, a: A)
    ensures
        forall|q: A| #[trigger] s.push(a).contains(q) <==> s.contains(q) || q == a,
{
    assert forall|q: A| #[trigger] s.push(a).contains(q) <==> s.contains(q) || q == a by {
        if s.contains(q) {
            let k = choose|k: int| 0 <= k < s.len() && s[k] == q;
            assert(s.push(a)[k] == q);
        }
        if q == a {
            assert(s.push(a)[s.len() as int] == q);
        }
        if s.push(a).contains(q) && q != a {
            let k = choose|k: int| 0 <= k < s.len() + 1 && s.push(a)[k] == q;
            assert(s[k] == q);
        }
    }
}

/// Pushing a new element keeps a sequence free of duplicates.
pub proof fn lemma_push_no_dup<A>(s: Seq<A>, a: A)
    requires
        s.no_duplicates(),
        !s.contains(a),
    ensures
        s.push(a).no_duplicates(),
{
    assert forall|i: int, j: int| 0 <= i < j < s.len() + 1 implies s.push(a)[i] != s.push(a)[j] by {
        if j == s.len() {
            assert(s[i] != a);
        }
    }
}

/// Whether `v` holds `p`.
pub fn contains_position(v: &Vec<Position>, p: &Position) -> (r: bool)
    ensures
        r == v@.contains(*p),
{
    let mut i: usize = 0;
    while i < v.len()
        invariant
            0 <= i <= v@.len(),
            forall|j: int| 0 <= j < i ==> v@[j] != *p,
        decreases v@.len() - i,
    {
        if v[i] == *p {
            return true;
        }
        i = i + 1;
    }
    false
}

/// `n` is the node of point `p`.
pub open spec fn node_matches(n: Node, p: Position, size: int) -> bool {
    &&& forall|i: int| 0 <= i < 6 ==> #[trigger] n.neighbors@[i] == neighbor_at(p, i, size)
    &&& n.triangle == triangle_of(p.x as int, p.y as int, size)
}

/// The points that a list of nodes speaks of, in order.
pub open spec fn node_positions(nodes: Seq<(Position, Node)>) -> Seq<Position> {
    nodes.map_values(|e: (Position, Node)| e.0)
}

/// Where row `y` of the board starts.
pub open spec fn row_start(y: int, size: int) -> int {
    if y < size || (2 * size <= y && y <= 3 * size) {
        3 * size - y
    } else {
        y - size
    }
}

/// The index of the last point of row `y` (points are two apart).
pub open spec fn row_last(y: int, size: int) -> int {
    if y < size || (2 * size <= y && y <= 3 * size) {
        y
    } else {
        4 * size - y
    }
}

/// The board, row by row: row `y` runs from `row_start` in steps of two.
pub proof fn lemma_board_rows(p: Position, size: int)
    requires
        size_ok(size),
    ensures
        on_board(p, size) <==> (0 <= p.y <= 4 * size && row_start(p.y as int, size) <= p.x
            <= row_start(p.y as int, size) + 2 * row_last(p.y as int, size) && (p.x - row_start(
            p.y as int,
            size,
        )) % 2 == 0),
{
}

impl Node {
    /// The node of `position`, which lies on a board of the given size.
    pub fn new(position: Position, size: i16) -> (r: Node)
        requires
            size_ok(size as int),
            in_hexagram(position.x as int, position.y as int, size as int),
        ensures
            node_matches(r, position, size as int),
    {
        proof {
            lemma_hexagram_bounds(position.x as int, position.y as int, size as int);
        }
        let n0 = position.add(Position::from((-1, -1))).validate(size);
        let n1 = position.add(Position::from((-2, 0))).validate(size);
        let n2 = position.add(Position::from((-1, 1))).validate(size);
        let n3 = position.add(Position::from((1, 1))).validate(size);
        let n4 = position.add(Position::from((2, 0))).validate(size);
        let n5 = position.add(Position::from((1, -1))).validate(size);
        let r = Node { neighbors: [n0, n1, n2, n3, n4, n5], triangle: position.in_triangle(size) };
        assert(r.neighbors@ =~= seq![n0, n1, n2, n3, n4, n5]);
        r
    }
}

/// What one player holds: the points it occupies now, and the points it
/// must reach (the triangle opposite its start).
#[derive(Debug)]
pub struct PlayerState {
    pub positions: Vec<Position>,
    pub goal: Vec<Position>,
}

impl PlayerState {
    /// Both lists are sets of board points.
    pub open spec fn wf(&self, size: int) -> bool {
        &&& self.positions@.no_duplicates()
        &&& self.goal@.no_duplicates()
        &&& forall|i: int|
            0 <= i < self.positions@.len() ==> on_board(#[trigger] self.positions@[i], size)
        &&& forall|i: int| 0 <= i < self.goal@.len() ==> on_board(#[trigger] self.goal@[i], size)
    }
}

/// The rules engine: the board, its nodes, and the registered players.
#[derive(Debug)]
pub struct ChineseChecker {
    pub size: i16,
    /// Every point of the board with its node, each point once.
    pub nodes: Vec<(Position, Node)>,
    /// Each registered player's name with its state, each name once.
    pub state: Vec<(String, PlayerState)>,
    /// The tips of the six triangles.
    pub tips: [Position; 6],
}

/// Why a request to the engine was refused.
#[derive(Debug, PartialEq, Eq, Structural, Clone, Copy)]
pub enum GameError {
    /// The board already has a player in each of its six triangles.
    CapacityExceeded,
    /// A player of that name is already registered.
    DuplicatePlayer,
    /// No player of that name is registered.
    UnknownPlayer,
}

/// The most players a board can take: one per triangle.
pub const MAX_PLAYERS: usize = 6;

impl ChineseChecker {
    pub open spec fn wf(&self) -> bool {
        &&& size_ok(self.size as int)
        &&& forall|k: int|
            0 <= k < self.nodes@.len() ==> node_matches(
                #[trigger] self.nodes@[k].1,
                self.nodes@[k].0,
                self.size as int,
            )
        &&& node_positions(self.nodes@).no_duplicates()
        &&& node_positions(self.nodes@).to_set() == board_set(self.size as int)
        &&& forall|t: int| 0 <= t < 6 ==> #[trigger] self.tips@[t] == tip_of(t, self.size as int)
        &&& self.state@.len() <= MAX_PLAYERS
        &&& forall|a: int, b: int|
            0 <= a < b < self.state@.len() ==> #[trigger] self.state@[a].0@ != #[trigger] self.state@[b].0@
        &&& forall|k: int|
            0 <= k < self.state@.len() ==> (#[trigger] self.state@[k]).1.wf(self.size as int)
    }

    /// Whether a player of this name is registered.
    pub open spec fn has_player(&self, name: Seq<char>) -> bool {
        exists|k: int| 0 <= k < self.state@.len() && (#[trigger] self.state@[k]).0@ == name
    }

    /// Where the player of this name stands in the list of players.
    pub open spec fn index_of(&self, name: Seq<char>) -> int {
        choose|k: int| 0 <= k < self.state@.len() && (#[trigger] self.state@[k]).0@ == name
    }

    /// The points that the player of this name occupies.
    pub open spec fn positions_of(&self, name: Seq<char>) -> Set<Position> {
        self.state@[self.index_of(name)].1.positions@.to_set()
    }

    /// The points that the player of this name must reach.
    pub open spec fn goal_of(&self, name: Seq<char>) -> Set<Position> {
        self.state@[self.index_of(name)].1.goal@.to_set()
    }

    /// Whether some registered player occupies `p`.
    pub open spec fn occupied(&self, p: Position) -> bool {
        exists|k: int| 0 <= k < self.state@.len() && (#[trigger] self.state@[k]).1.positions@.contains(p)
    }

    /// The free neighbors of `p`: where a crawl from `p` may go.
    pub open spec fn crawl_set(&self, p: Position) -> Set<Position> {
        neighbor_set(p, self.size as int).filter(|q: Position| !self.occupied(q))
    }

    /// A single jump from `p` over its occupied neighbor `pv` to the free
    /// point `q` just beyond `pv` in the same direction.
    pub open spec fn jump_over(&self, p: Position, pv: Position, q: Position) -> bool {
        &&& self.occupied(pv)
        &&& !self.occupied(q)
        &&& exists|i: int|
            #![trigger neighbor_at(p, i, self.size as int), neighbor_at(pv, i, self.size as int)]
            0 <= i < 6 && neighbor_at(p, i, self.size as int) == Some(pv) && neighbor_at(
                pv,
                i,
                self.size as int,
            ) == Some(q)
    }

    /// Whether one jump leads from `p` to `q`.
    pub open spec fn jumps(&self, p: Position, q: Position) -> bool {
        exists|pv: Position| #[trigger] self.jump_over(p, pv, q)
    }

    /// The points one jump away from `p`.
    pub open spec fn one_jump_set(&self, p: Position) -> Set<Position> {
        Set::new(|q: Position| self.jumps(p, q))
    }

    /// `path` lists the landing points of a chain of one or more jumps from `p`.
    pub open spec fn is_jump_chain(&self, p: Position, path: Seq<Position>) -> bool {
        &&& path.len() > 0
        &&& self.jumps(p, path[0])
        &&& forall|i: int| 0 <= i < path.len() - 1 ==> #[trigger] self.jumps(path[i], path[i + 1])
    }

    /// The points that some chain of one or more jumps leads to from `p`.
    pub open spec fn jump_closure(&self, p: Position) -> Set<Position> {
        Set::new(
            |q: Position| exists|path: Seq<Position>| #[trigger] self.is_jump_chain(p, path) && path.last() == q,
        )
    }

    /// Where a move from `from` may end: a free neighbor, or a point that a
    /// chain of jumps reaches.
    pub open spec fn move_targets(&self, from: Position) -> Set<Position> {
        self.crawl_set(from).union(self.jump_closure(from))
    }

    /// A board of the given size with no players.
    pub fn new(size: i16) -> (r: ChineseChecker)
        requires
            size_ok(size as int),
        ensures
            r.wf(),
            r.size == size,
            r.state@.len() == 0,
    {
        let ghost s = size as int;
        let mut nodes: Vec<(Position, Node)> = Vec::new();
        let mut y: i16 = 0;
        while y <= 4 * size
            invariant
                size_ok(s),
                s == size,
                0 <= y <= 4 * s + 1,
                forall|k: int|
                    0 <= k < nodes@.len() ==> node_matches(#[trigger] nodes@[k].1, nodes@[k].0, s),
                forall|k: int|
                    0 <= k < nodes@.len() ==> on_board(#[trigger] nodes@[k].0, s) && nodes@[k].0.y
                        < y,
                node_positions(nodes@).no_duplicates(),
                forall|p: Position|
                    on_board(p, s) && p.y < y ==> #[trigger] node_positions(nodes@).contains(p),
            decreases 4 * s + 1 - y,
        {
            let x: i16;
            let index: i16;
            if y < size || (y >= 2 * size && y <= 3 * size) {
                x = 3 * size - y;
                index = y;
            } else {
                x = y - size;
                index = 4 * size - y;
            }
            assert(x == row_start(y as int, s) && index == row_last(y as int, s));
            let mut i: i16 = 0;
            while i <= index
                invariant
                    size_ok(s),
                    s == size,
                    0 <= y <= 4 * s,
                    x == row_start(y as int, s),
                    index == row_last(y as int, s),
                    0 <= i <= index + 1,
                    forall|k: int|
                        0 <= k < nodes@.len() ==> node_matches(
                            #[trigger] nodes@[k].1,
                            nodes@[k].0,
                            s,
                        ),
                    forall|k: int|
                        0 <= k < nodes@.len() ==> on_board(#[trigger] nodes@[k].0, s) && (
                        nodes@[k].0.y < y || (nodes@[k].0.y == y && nodes@[k].0.x < x + 2 * i)),
                    node_positions(nodes@).no_duplicates(),
                    forall|p: Position|
                        on_board(p, s) && (p.y < y || (p.y == y && p.x < x + 2 * i))
                            ==> #[trigger] node_positions(nodes@).contains(p),
                decreases index + 1 - i,
            {
                let position = Position::from((x + 2 * i, y));
                proof {
                    lemma_board_rows(position, s);
                }
                let node = Node::new(position, size);
                let ghost before = nodes@;
                nodes.push((position, node));
                proof {
                    assert(node_positions(nodes@) =~= node_positions(before).push(position));
                    assert forall|p: Position|
                        on_board(p, s) && (p.y < y || (p.y == y && p.x < x + 2 * (i + 1)))
                            implies #[trigger] node_positions(nodes@).contains(p) by {
                        lemma_board_rows(p, s);
                        if p != position {
                            assert(node_positions(before).contains(p));
                            let j = choose|j: int|
                                0 <= j < before.len() && node_positions(before)[j] == p;
                            assert(node_positions(nodes@)[j] == p);
                        } else {
                            assert(node_positions(nodes@)[before.len() as int] == p);
                        }
                    }
                    assert forall|a: int, b: int|
                        0 <= a < b < node_positions(nodes@).len() implies node_positions(
                            nodes@,
                        )[a] != node_positions(nodes@)[b] by {
                        if b == before.len() {
                            assert(nodes@[a] == before[a]);
                        } else {
                            assert(node_positions(before)[a] != node_positions(before)[b]);
                        }
                    }
                }
                i = i + 1;
            }
            proof {
                assert forall|p: Position|
                    on_board(p, s) && p.y < y + 1 implies #[trigger] node_positions(
                        nodes@,
                    ).contains(p) by {
                    lemma_board_rows(p, s);
                }
            }
            y = y + 1;
        }
        proof {
            assert forall|p: Position| #[trigger]
                node_positions(nodes@).to_set().contains(p) == board_set(s).contains(p) by {
                if on_board(p, s) {
                    lemma_hexagram_bounds(p.x as int, p.y as int, s);
                }
                if node_positions(nodes@).contains(p) {
                    let j = choose|j: int|
                        0 <= j < node_positions(nodes@).len() && node_positions(nodes@)[j] == p;
                    assert(on_board(nodes@[j].0, s));
                }
            }
            assert(node_positions(nodes@).to_set() =~= board_set(s));
        }
        let tips = [
            Position::from((3 * size, 0)),
            Position::from((0, size)),
            Position::from((0, 3 * size)),
            Position::from((3 * size, 4 * size)),
            Position::from((6 * size, 3 * size)),
            Position::from((6 * size, size)),
        ];
        let r = ChineseChecker { size, nodes, state: Vec::new(), tips };
        assert forall|t: int| 0 <= t < 6 implies #[trigger] r.tips@[t] == tip_of(t, s) by {
            assert(r.tips@ =~= seq![
                tips@[0],
                tips@[1],
                tips@[2],
                tips@[3],
                tips@[4],
                tips@[5],
            ]);
        }
        r
    }
}

impl ChineseChecker {
    /// Whether a registered player occupies `position`.
    pub fn is_occupied(&self, position: &Position) -> (r: bool)
        ensures
            r == self.occupied(*position),
    {
        let mut k: usize = 0;
        while k < self.state.len()
            invariant
                0 <= k <= self.state@.len(),
                forall|j: int| 0 <= j < k ==> !(#[trigger] self.state@[j]).1.positions@.contains(*position),
            decreases self.state@.len() - k,
        {
            if contains_position(&self.state[k].1.positions, position) {
                return true;
            }
            k = k + 1;
        }
        false
    }

    /// The six neighbor slots of a board point, read from its node.
    pub fn get_all_neighbors(&self, position: &Position) -> (r: [Option<Position>; 6])
        requires
            self.wf(),
            on_board(*position, self.size as int),
        ensures
            forall|i: int| 0 <= i < 6 ==> #[trigger] r@[i] == neighbor_at(*position, i, self.size as int),
    {
        proof {
            assert(board_set(self.size as int).contains(*position));
            assert(node_positions(self.nodes@).contains(*position));
        }
        let mut k: usize = 0;
        while k < self.nodes.len()
            invariant
                self.wf(),
                0 <= k <= self.nodes@.len(),
                forall|j: int| 0 <= j < k ==> node_positions(self.nodes@)[j] != *position,
            decreases self.nodes@.len() - k,
        {
            if self.nodes[k].0 == *position {
                assert(node_matches(self.nodes@[k as int].1, self.nodes@[k as int].0, self.size as int));
                return self.nodes[k].1.neighbors;
            }
            k = k + 1;
        }
        proof {
            let j = choose|j: int|
                0 <= j < node_positions(self.nodes@).len() && node_positions(self.nodes@)[j] == *position;
            assert(false);
        }
        self.nodes[0].1.neighbors
    }

    /// The neighbors of a board point, each once.
    pub fn get_valid_neighbors(&self, position: &Position) -> (r: Vec<Position>)
        requires
            self.wf(),
            on_board(*position, self.size as int),
        ensures
            r@.no_duplicates(),
            r@.to_set() == neighbor_set(*position, self.size as int),
            forall|j: int| 0 <= j < r@.len() ==> on_board(#[trigger] r@[j], self.size as int),
    {
        let ghost s = self.size as int;
        let all = self.get_all_neighbors(position);
        let mut r: Vec<Position> = Vec::new();
        let mut i: usize = 0;
        while i < 6
            invariant
                0 <= i <= 6,
                s == self.size,
                size_ok(s),
                on_board(*position, s),
                forall|j: int| 0 <= j < 6 ==> #[trigger] all@[j] == neighbor_at(*position, j, s),
                r@.no_duplicates(),
                forall|j: int| 0 <= j < r@.len() ==> on_board(#[trigger] r@[j], s),
                forall|q: Position|
                    #[trigger] r@.contains(q) <==> exists|j: int| 0 <= j < i && neighbor_at(*position, j, s) == Some(q),
            decreases 6 - i,
        {
            let ghost before = r@;
            match all[i] {
                Some(q) => {
                    proof {
                        assert(all@[i as int] == neighbor_at(*position, i as int, s));
                        lemma_neighbor_on_board(*position, i as int, s);
                        if before.contains(q) {
                            let j = choose|j: int| 0 <= j < i && neighbor_at(*position, j, s) == Some(q);
                            lemma_neighbor_on_board(*position, j, s);
                            lemma_steps_distinct(i as int, j);
                        }
                    }
                    r.push(q);
                    proof {
                        lemma_push_contains(before, q);
                        lemma_push_no_dup(before, q);
                    }
                },
                None => {
                    proof {
                        assert(all@[i as int] == neighbor_at(*position, i as int, s));
                    }
                },
            }
            i = i + 1;
        }
        assert(r@.to_set() =~= neighbor_set(*position, s));
        r
    }

    /// The free neighbors of `position`, each once: the targets of a crawl.
    pub fn adjacent_unoccupied_positions(&self, position: &Position) -> (r: Vec<Position>)
        requires
            self.wf(),
            on_board(*position, self.size as int),
        ensures
            r@.no_duplicates(),
            r@.to_set() == self.crawl_set(*position),
            forall|j: int| 0 <= j < r@.len() ==> on_board(#[trigger] r@[j], self.size as int),
    {
        let nbrs = self.get_valid_neighbors(position);
        let mut r: Vec<Position> = Vec::new();
        let mut k: usize = 0;
        while k < nbrs.len()
            invariant
                0 <= k <= nbrs@.len(),
                nbrs@.no_duplicates(),
                forall|j: int| 0 <= j < nbrs@.len() ==> on_board(#[trigger] nbrs@[j], self.size as int),
                r@.no_duplicates(),
                forall|j: int| 0 <= j < r@.len() ==> on_board(#[trigger] r@[j], self.size as int),
                forall|q: Position|
                    #[trigger] r@.contains(q) <==> (exists|j: int| 0 <= j < k && nbrs@[j] == q) && !self.occupied(q),
            decreases nbrs@.len() - k,
        {
            let q = nbrs[k];
            let ghost before = r@;
            if !self.is_occupied(&q) {
                r.push(q);
                proof {
                    lemma_push_contains(before, q);
                    lemma_push_no_dup(before, q);
                    assert(nbrs@[k as int] == q);
                }
            } else {
                assert forall|q2: Position|
                    #[trigger] r@.contains(q2) <==> (exists|j: int| 0 <= j < k + 1 && nbrs@[j] == q2) && !self.occupied(q2) by {
                }
            }
            k = k + 1;
        }
        proof {
            assert forall|q: Position| #[trigger] r@.to_set().contains(q) == self.crawl_set(*position).contains(q) by {
                if nbrs@.to_set().contains(q) {
                    let j = choose|j: int| 0 <= j < nbrs@.len() && nbrs@[j] == q;
                }
            }
            assert(r@.to_set() =~= self.crawl_set(*position));
        }
        r
    }
}

impl ChineseChecker {
    /// A jump from `p` over its neighbor `pv` in slot `i` can only go on in slot `i`.
    proof fn lemma_jump_over_slot(&self, p: Position, pv: Position, i: int)
        requires
            self.wf(),
            on_board(p, self.size as int),
            0 <= i < 6,
            neighbor_at(p, i, self.size as int) == Some(pv),
        ensures
            forall|q: Position|
                #[trigger] self.jump_over(p, pv, q) <==> (self.occupied(pv) && !self.occupied(q)
                    && neighbor_at(pv, i, self.size as int) == Some(q)),
    {
        let s = self.size as int;
        assert forall|q: Position|
            #[trigger] self.jump_over(p, pv, q) <==> (self.occupied(pv) && !self.occupied(q)
                && neighbor_at(pv, i, s) == Some(q)) by {
            if self.jump_over(p, pv, q) {
                let j = choose|j: int|
                    #![trigger neighbor_at(p, j, s), neighbor_at(pv, j, s)]
                    0 <= j < 6 && neighbor_at(p, j, s) == Some(pv) && neighbor_at(pv, j, s) == Some(q);
                lemma_neighbor_on_board(p, i, s);
                lemma_neighbor_on_board(p, j, s);
                lemma_steps_distinct(i, j);
            }
            if self.occupied(pv) && !self.occupied(q) && neighbor_at(pv, i, s) == Some(q) {
                assert(neighbor_at(p, i, s) == Some(pv) && neighbor_at(pv, i, s) == Some(q));
            }
        }
    }

    /// A single jump from `p` leads into its closure.
    proof fn lemma_closure_first(&self, p: Position, q: Position)
        requires
            self.jumps(p, q),
        ensures
            self.jump_closure(p).contains(q),
    {
        let path = seq![q];
        assert(self.is_jump_chain(p, path) && path.last() == q);
    }

    /// One jump from a point of the closure stays in the closure.
    proof fn lemma_closure_step(&self, p: Position, m: Position, q: Position)
        requires
            self.jump_closure(p).contains(m),
            self.jumps(m, q),
        ensures
            self.jump_closure(p).contains(q),
    {
        let path = choose|path: Seq<Position>| #[trigger] self.is_jump_chain(p, path) && path.last() == m;
        let longer = path.push(q);
        assert forall|i: int| 0 <= i < longer.len() - 1 implies #[trigger] self.jumps(longer[i], longer[i + 1]) by {
            if i < path.len() - 1 {
                assert(self.jumps(path[i], path[i + 1]));
            }
        }
        assert(self.is_jump_chain(p, longer) && longer.last() == q);
    }

    /// A set that holds the first jumps from `p` and is closed under jumps
    /// holds every point of a chain of jumps from `p`.
    proof fn lemma_closed_holds_chain(&self, p: Position, s: Seq<Position>, path: Seq<Position>, k: int)
        requires
            forall|x: Position| self.jumps(p, x) ==> #[trigger] s.contains(x),
            forall|m: Position, x: Position|
                #[trigger] s.contains(m) && #[trigger] self.jumps(m, x) ==> s.contains(x),
            self.is_jump_chain(p, path),
            0 <= k < path.len(),
        ensures
            s.contains(path[k]),
        decreases k,
    {
        if k > 0 {
            self.lemma_closed_holds_chain(p, s, path, k - 1);
            let i = k - 1;
            assert(self.jumps(path[i], path[i + 1]));
            assert(i + 1 == k);
        }
    }

    /// A list of distinct board points is no longer than the list of nodes.
    proof fn lemma_board_seq_len(&self, s: Seq<Position>)
        requires
            self.wf(),
            s.no_duplicates(),
            forall|j: int| 0 <= j < s.len() ==> on_board(#[trigger] s[j], self.size as int),
        ensures
            s.len() <= self.nodes@.len(),
    {
        let ns = node_positions(self.nodes@);
        s.unique_seq_to_set();
        ns.lemma_cardinality_of_set();
        assert forall|q: Position| s.to_set().contains(q) implies ns.to_set().contains(q) by {
            let j = choose|j: int| 0 <= j < s.len() && s[j] == q;
            assert(board_set(self.size as int).contains(q));
        }
        vstd::set_lib::lemma_len_subset(s.to_set(), ns.to_set());
    }

    /// The point beyond `center` opposite to its neighbor `leg`.
    pub fn opposite(&self, center: &Position, leg: &Position) -> (r: Option<Position>)
        requires
            self.wf(),
            on_board(*center, self.size as int),
            exists|i: int| 0 <= i < 6 && neighbor_at(*center, i, self.size as int) == Some(*leg),
        ensures
            forall|i: int|
                0 <= i < 6 && neighbor_at(*center, i, self.size as int) == Some(*leg) ==> r
                    == #[trigger] neighbor_at(*center, (i + 3) % 6, self.size as int),
    {
        let ghost s = self.size as int;
        let nb = self.get_all_neighbors(center);
        let mut index: usize = 0;
        while index < 6
            invariant
                self.wf(),
                s == self.size,
                on_board(*center, s),
                0 <= index <= 6,
                forall|j: int| 0 <= j < 6 ==> #[trigger] nb@[j] == neighbor_at(*center, j, s),
                forall|j: int| 0 <= j < index ==> neighbor_at(*center, j, s) != Some(*leg),
            decreases 6 - index,
        {
            if let Some(q) = nb[index] {
                if q == *leg {
                    proof {
                        assert(nb@[index as int] == neighbor_at(*center, index as int, s));
                        assert forall|i: int|
                            0 <= i < 6 && neighbor_at(*center, i, s) == Some(*leg) implies i
                            == index by {
                            lemma_neighbor_on_board(*center, i, s);
                            lemma_neighbor_on_board(*center, index as int, s);
                            lemma_steps_distinct(i, index as int);
                        }
                        assert(nb@[((index + 3) % 6) as int] == neighbor_at(*center, (index + 3) % 6, s));
                    }
                    return nb[(index + 3) % 6];
                }
            }
            proof {
                assert(nb@[index as int] == neighbor_at(*center, index as int, s));
            }
            index = index + 1;
        }
        None
    }

    /// The points one jump away from `position`, each once.
    pub fn one_jumpable_positions(&self, position: &Position) -> (r: Vec<Position>)
        requires
            self.wf(),
            on_board(*position, self.size as int),
        ensures
            r@.no_duplicates(),
            r@.to_set() == self.one_jump_set(*position),
            forall|j: int| 0 <= j < r@.len() ==> on_board(#[trigger] r@[j], self.size as int),
    {
        let ghost s = self.size as int;
        let ghost p = *position;
        let nbrs = self.get_valid_neighbors(position);
        let mut r: Vec<Position> = Vec::new();
        let mut k: usize = 0;
        while k < nbrs.len()
            invariant
                self.wf(),
                s == self.size,
                p == *position,
                on_board(p, s),
                0 <= k <= nbrs@.len(),
                nbrs@.to_set() == neighbor_set(p, s),
                r@.no_duplicates(),
                forall|j: int| 0 <= j < r@.len() ==> on_board(#[trigger] r@[j], s),
                forall|q: Position|
                    #[trigger] r@.contains(q) <==> exists|j: int|
                        0 <= j < k && #[trigger] self.jump_over(p, nbrs@[j], q),
            decreases nbrs@.len() - k,
        {
            let pv = nbrs[k];
            let ghost before = r@;
            proof {
                assert(nbrs@.to_set().contains(pv));
                assert(neighbor_set(p, s).contains(pv));
            }
            let ghost i = choose|i: int| 0 <= i < 6 && neighbor_at(p, i, s) == Some(pv);
            proof {
                self.lemma_jump_over_slot(p, pv, i);
                lemma_neighbor_symmetry(p, i, s);
                lemma_neighbor_on_board(p, i, s);
            }
            if self.is_occupied(&pv) {
                let o = self.opposite(&pv, position);
                proof {
                    assert((((i + 3) % 6) + 3) % 6 == i);
                    assert(o == neighbor_at(pv, i, s));
                }
                if let Some(q) = o {
                    proof {
                        lemma_neighbor_on_board(pv, i, s);
                    }
                    if !self.is_occupied(&q) && !contains_position(&r, &q) {
                        r.push(q);
                        proof {
                            lemma_push_contains(before, q);
                            lemma_push_no_dup(before, q);
                        }
                    }
                }
            }
            proof {
                assert forall|q: Position|
                    #[trigger] r@.contains(q) <==> exists|j: int|
                        0 <= j < k + 1 && #[trigger] self.jump_over(p, nbrs@[j], q) by {
                    if self.jump_over(p, pv, q) {
                        assert(nbrs@[k as int] == pv);
                    }
                    if exists|j: int| 0 <= j < k + 1 && #[trigger] self.jump_over(p, nbrs@[j], q) {
                        let j = choose|j: int| 0 <= j < k + 1 && #[trigger] self.jump_over(p, nbrs@[j], q);
                        if j < k {
                            assert(before.contains(q));
                        }
                    }
                }
            }
            k = k + 1;
        }
        proof {
            assert forall|q: Position| #[trigger] r@.to_set().contains(q) == self.one_jump_set(p).contains(q) by {
                if self.jumps(p, q) {
                    let pv = choose|pv: Position| #[trigger] self.jump_over(p, pv, q);
                    let i = choose|i: int|
                        #![trigger neighbor_at(p, i, s), neighbor_at(pv, i, s)]
                        0 <= i < 6 && neighbor_at(p, i, s) == Some(pv) && neighbor_at(pv, i, s) == Some(q);
                    assert(neighbor_set(p, s).contains(pv));
                    assert(nbrs@.to_set().contains(pv));
                    let j = choose|j: int| 0 <= j < nbrs@.len() && nbrs@[j] == pv;
                    assert(self.jump_over(p, nbrs@[j], q));
                }
                if r@.contains(q) {
                    let j = choose|j: int| 0 <= j < nbrs@.len() && #[trigger] self.jump_over(p, nbrs@[j], q);
                }
            }
            assert(r@.to_set() =~= self.one_jump_set(p));
        }
        r
    }
}

impl ChineseChecker {
    /// Every point that a chain of one or more jumps from `position` reaches,
    /// each once. The search goes breadth first, one round of jumps at a time,
    /// and stops when a round finds nothing new.
    pub fn jumpable_positions(&self, position: &Position) -> (r: Vec<Position>)
        requires
            self.wf(),
            on_board(*position, self.size as int),
        ensures
            r@.no_duplicates(),
            r@.to_set() == self.jump_closure(*position),
            forall|j: int| 0 <= j < r@.len() ==> on_board(#[trigger] r@[j], self.size as int),
    {
        let ghost s = self.size as int;
        let ghost p = *position;
        let mut result: Vec<Position> = Vec::new();
        let mut frontier = self.one_jumpable_positions(position);
        proof {
            assert forall|q: Position| #[trigger] frontier@.contains(q) implies self.jump_closure(p).contains(q) by {
                assert(frontier@.to_set().contains(q));
                self.lemma_closure_first(p, q);
            }
            assert forall|q: Position| self.jumps(p, q) implies #[trigger] result@.contains(q) || frontier@.contains(q) by {
                assert(self.one_jump_set(p).contains(q));
                assert(frontier@.to_set().contains(q));
            }
        }
        while frontier.len() > 0
            invariant
                self.wf(),
                s == self.size,
                p == *position,
                on_board(p, s),
                result@.no_duplicates(),
                frontier@.no_duplicates(),
                forall|j: int| 0 <= j < result@.len() ==> on_board(#[trigger] result@[j], s),
                forall|j: int| 0 <= j < frontier@.len() ==> on_board(#[trigger] frontier@[j], s),
                forall|q: Position| #[trigger] frontier@.contains(q) ==> !result@.contains(q),
                forall|q: Position| #[trigger] result@.contains(q) ==> self.jump_closure(p).contains(q),
                forall|q: Position| #[trigger] frontier@.contains(q) ==> self.jump_closure(p).contains(q),
                forall|q: Position| self.jumps(p, q) ==> #[trigger] result@.contains(q) || frontier@.contains(q),
                forall|m: Position, q: Position|
                    #[trigger] result@.contains(m) && #[trigger] self.jumps(m, q) ==> result@.contains(q)
                        || frontier@.contains(q),
                result@.len() <= self.nodes@.len(),
            decreases self.nodes@.len() - result@.len(),
        {
            let ghost r0 = result@;
            let ghost f0 = frontier@;
            let mut i: usize = 0;
            while i < frontier.len()
                invariant
                    frontier@ == f0,
                    0 <= i <= f0.len(),
                    r0.no_duplicates(),
                    f0.no_duplicates(),
                    forall|q: Position| #[trigger] f0.contains(q) ==> !r0.contains(q),
                    result@.no_duplicates(),
                    result@.len() == r0.len() + i,
                    forall|q: Position| #[trigger] result@.contains(q) <==> r0.contains(q) || f0.subrange(0, i as int).contains(q),
                    forall|j: int| 0 <= j < r0.len() ==> on_board(#[trigger] r0[j], s),
                    forall|j: int| 0 <= j < f0.len() ==> on_board(#[trigger] f0[j], s),
                    forall|j: int| 0 <= j < result@.len() ==> on_board(#[trigger] result@[j], s),
                decreases f0.len() - i,
            {
                let q = frontier[i];
                let ghost before = result@;
                proof {
                    assert(f0.contains(q));
                    if f0.subrange(0, i as int).contains(q) {
                        let j = choose|j: int| 0 <= j < i && f0.subrange(0, i as int)[j] == q;
                        assert(f0[j] == f0[i as int]);
                    }
                    assert(f0.subrange(0, i as int + 1) =~= f0.subrange(0, i as int).push(q));
                    lemma_push_contains(f0.subrange(0, i as int), q);
                }
                result.push(q);
                proof {
                    lemma_push_contains(before, q);
                    lemma_push_no_dup(before, q);
                }
                i = i + 1;
            }
            proof {
                assert(f0.subrange(0, f0.len() as int) =~= f0);
                self.lemma_board_seq_len(result@);
            }
            let mut next: Vec<Position> = Vec::new();
            let mut i: usize = 0;
            while i < frontier.len()
                invariant
                    self.wf(),
                    s == self.size,
                    p == *position,
                    frontier@ == f0,
                    0 <= i <= f0.len(),
                    forall|j: int| 0 <= j < f0.len() ==> on_board(#[trigger] f0[j], s),
                    forall|q: Position| #[trigger] f0.contains(q) ==> self.jump_closure(p).contains(q),
                    forall|q: Position| #[trigger] result@.contains(q) <==> r0.contains(q) || f0.contains(q),
                    next@.no_duplicates(),
                    forall|j: int| 0 <= j < next@.len() ==> on_board(#[trigger] next@[j], s),
                    forall|q: Position| #[trigger] next@.contains(q) ==> !result@.contains(q) && self.jump_closure(p).contains(q),
                    forall|j: int, q: Position|
                        0 <= j < i && #[trigger] self.jumps(f0[j], q) ==> result@.contains(q) || next@.contains(q),
                decreases f0.len() - i,
            {
                let m = frontier[i];
                proof {
                    assert(f0.contains(m));
                }
                let js = self.one_jumpable_positions(&m);
                let mut t: usize = 0;
                while t < js.len()
                    invariant
                        self.wf(),
                        s == self.size,
                        p == *position,
                        frontier@ == f0,
                        0 <= i < f0.len(),
                        m == f0[i as int],
                        self.jump_closure(p).contains(m),
                        0 <= t <= js@.len(),
                        js@.to_set() == self.one_jump_set(m),
                        forall|j: int| 0 <= j < js@.len() ==> on_board(#[trigger] js@[j], s),
                        forall|q: Position| #[trigger] result@.contains(q) <==> r0.contains(q) || f0.contains(q),
                        next@.no_duplicates(),
                        forall|j: int| 0 <= j < next@.len() ==> on_board(#[trigger] next@[j], s),
                        forall|q: Position| #[trigger] next@.contains(q) ==> !result@.contains(q) && self.jump_closure(p).contains(q),
                        forall|j: int, q: Position|
                            0 <= j < i && #[trigger] self.jumps(f0[j], q) ==> result@.contains(q) || next@.contains(q),
                        forall|u: int| 0 <= u < t ==> result@.contains(#[trigger] js@[u]) || next@.contains(js@[u]),
                    decreases js@.len() - t,
                {
                    let q = js[t];
                    let ghost before = next@;
                    if !contains_position(&result, &q) && !contains_position(&next, &q) {
                        proof {
                            assert(js@.to_set().contains(q));
                            self.lemma_closure_step(p, m, q);
                        }
                        next.push(q);
                        proof {
                            lemma_push_contains(before, q);
                            lemma_push_no_dup(before, q);
                            assert forall|u: int| 0 <= u < t + 1 implies result@.contains(#[trigger] js@[u]) || next@.contains(js@[u]) by {
                                if u < t {
                                    assert(result@.contains(js@[u]) || before.contains(js@[u]));
                                }
                            }
                        }
                    }
                    t = t + 1;
                }
                proof {
                    assert forall|j: int, q: Position|
                        0 <= j < i + 1 && #[trigger] self.jumps(f0[j], q) implies result@.contains(q) || next@.contains(q) by {
                        if j == i {
                            assert(self.one_jump_set(m).contains(q));
                            assert(js@.to_set().contains(q));
                            let u = choose|u: int| 0 <= u < js@.len() && js@[u] == q;
                            assert(result@.contains(js@[u]) || next@.contains(js@[u]));
                        }
                    }
                }
                i = i + 1;
            }
            proof {
                assert forall|q: Position| self.jumps(p, q) implies #[trigger] result@.contains(q) || next@.contains(q) by {
                    assert(r0.contains(q) || f0.contains(q));
                }
                assert forall|m: Position, q: Position|
                    #[trigger] result@.contains(m) && #[trigger] self.jumps(m, q) implies result@.contains(q)
                        || next@.contains(q) by {
                    if f0.contains(m) {
                        let j = choose|j: int| 0 <= j < f0.len() && f0[j] == m;
                        assert(self.jumps(f0[j], q));
                    } else {
                        assert(r0.contains(m));
                        assert(r0.contains(q) || f0.contains(q));
                    }
                }
                assert forall|q: Position| #[trigger] result@.contains(q) implies self.jump_closure(p).contains(q) by {
                    if r0.contains(q) {
                    } else {
                        assert(f0.contains(q));
                    }
                }
            }
            frontier = next;
        }
        proof {
            assert forall|q: Position| #[trigger] result@.to_set().contains(q) == self.jump_closure(p).contains(q) by {
                if self.jump_closure(p).contains(q) {
                    let path = choose|path: Seq<Position>| #[trigger] self.is_jump_chain(p, path) && path.last() == q;
                    assert forall|x: Position| self.jumps(p, x) implies #[trigger] result@.contains(x) by {
                        assert(!frontier@.contains(x));
                    }
                    assert forall|m: Position, x: Position|
                        #[trigger] result@.contains(m) && #[trigger] self.jumps(m, x) implies result@.contains(x) by {
                        assert(!frontier@.contains(x));
                    }
                    self.lemma_closed_holds_chain(p, result@, path, path.len() - 1);
                }
            }
            assert(result@.to_set() =~= self.jump_closure(p));
        }
        result
    }
}

impl ChineseChecker {
    /// The points of triangle `triangle`, each once.
    pub fn get_positions_in_triangle(&self, triangle: u8) -> (r: Vec<Position>)
        requires
            self.wf(),
        ensures
            r@.no_duplicates(),
            r@.to_set() == triangle_set(self.size as int, triangle as int),
            forall|j: int| 0 <= j < r@.len() ==> on_board(#[trigger] r@[j], self.size as int),
    {
        let ghost s = self.size as int;
        let ghost ns = node_positions(self.nodes@);
        let mut r: Vec<Position> = Vec::new();
        let mut k: usize = 0;
        while k < self.nodes.len()
            invariant
                self.wf(),
                s == self.size,
                ns == node_positions(self.nodes@),
                0 <= k <= self.nodes@.len(),
                r@.no_duplicates(),
                forall|j: int| 0 <= j < r@.len() ==> on_board(#[trigger] r@[j], s),
                forall|q: Position|
                    #[trigger] r@.contains(q) <==> ns.subrange(0, k as int).contains(q)
                        && triangle_set(s, triangle as int).contains(q),
            decreases self.nodes@.len() - k,
        {
            let position = self.nodes[k].0;
            let ghost before = r@;
            proof {
                assert(ns[k as int] == position);
                assert(ns.to_set().contains(position));
                assert(board_set(s).contains(position));
                assert(node_matches(self.nodes@[k as int].1, self.nodes@[k as int].0, s));
                assert(ns.subrange(0, k as int + 1) =~= ns.subrange(0, k as int).push(position));
                lemma_push_contains(ns.subrange(0, k as int), position);
                if ns.subrange(0, k as int).contains(position) {
                    let j = choose|j: int| 0 <= j < k && ns.subrange(0, k as int)[j] == position;
                    assert(ns[j] == ns[k as int]);
                }
            }
            match self.nodes[k].1.triangle {
                Some(t) => {
                    if t == triangle {
                        r.push(position);
                        proof {
                            lemma_push_contains(before, position);
                            lemma_push_no_dup(before, position);
                        }
                    }
                },
                None => {},
            }
            k = k + 1;
        }
        proof {
            assert(ns.subrange(0, ns.len() as int) =~= ns);
            assert forall|q: Position| #[trigger] r@.to_set().contains(q) == triangle_set(s, triangle as int).contains(q) by {
                if triangle_set(s, triangle as int).contains(q) {
                    assert(board_set(s).contains(q));
                    assert(ns.to_set().contains(q));
                }
            }
            assert(r@.to_set() =~= triangle_set(s, triangle as int));
        }
        r
    }

    /// Where the player of this name stands in the list of players, if anywhere.
    fn find_player(&self, name: &String) -> (r: Option<usize>)
        requires
            self.wf(),
        ensures
            r is None <==> !self.has_player(name@),
            r matches Some(k) ==> k == self.index_of(name@) && k < self.state@.len(),
    {
        let mut k: usize = 0;
        while k < self.state.len()
            invariant
                self.wf(),
                0 <= k <= self.state@.len(),
                forall|j: int| 0 <= j < k ==> (#[trigger] self.state@[j]).0@ != name@,
            decreases self.state@.len() - k,
        {
            if self.state[k].0 == *name {
                proof {
                    let c = self.index_of(name@);
                    assert(self.state@[k as int].0@ == name@);
                    assert(0 <= c < self.state@.len() && self.state@[c].0@ == name@);
                    if c != k {
                        if c < k {
                            assert(self.state@[c].0@ != self.state@[k as int].0@);
                        } else {
                            assert(self.state@[k as int].0@ != self.state@[c].0@);
                        }
                    }
                }
                return Some(k);
            }
            k = k + 1;
        }
        None
    }

    /// Registers `player`, starting on its triangle and aiming for the
    /// opposite one. Refused when six players are registered already, or
    /// when one of the same name is.
    pub fn add_player(&mut self, player: &Player) -> (r: Result<(), GameError>)
        requires
            old(self).wf(),
        ensures
            final(self).wf(),
            final(self).size == old(self).size,
            final(self).nodes == old(self).nodes,
            final(self).tips == old(self).tips,
            old(self).state@.len() >= MAX_PLAYERS ==> r == Err::<(), GameError>(
                GameError::CapacityExceeded,
            ),
            old(self).state@.len() < MAX_PLAYERS && old(self).has_player(player.name@) ==> r
                == Err::<(), GameError>(GameError::DuplicatePlayer),
            r is Err ==> final(self).state@ == old(self).state@,
            old(self).state@.len() < MAX_PLAYERS && !old(self).has_player(player.name@) ==> {
                &&& r is Ok
                &&& final(self).state@.len() == old(self).state@.len() + 1
                &&& final(self).state@.subrange(0, old(self).state@.len() as int)
                    == old(self).state@
                &&& final(self).state@.last().0@ == player.name@
                &&& final(self).state@.last().1.positions@.to_set() == triangle_set(
                    old(self).size as int,
                    player.triangle as int,
                )
                &&& final(self).state@.last().1.goal@.to_set() == triangle_set(
                    old(self).size as int,
                    (player.triangle + 3) % 6,
                )
                           &&& final(self).has_player(player.name@)
                &&& final(self).positions_of(player.name@) == triangle_set(
                    old(self).size as int,
                    player.triangle as int,
                )
                &&& final(self).goal_of(player.name@) == triangle_set(
                    old(self).size as int,
                    (player.triangle + 3) % 6,
                )
            },
    {
        if self.state.len() >= MAX_PLAYERS {
            return Err(GameError::CapacityExceeded);
        }
        if self.find_player(&player.name).is_some() {
            return Err(GameError::DuplicatePlayer);
        }
        let positions = self.get_positions_in_triangle(player.triangle);
        let opposite = ((player.triangle as u16 + 3) % 6) as u8;
        let goal = self.get_positions_in_triangle(opposite);
        let ghost before = self.state@;
        self.state.push((player.name.clone(), PlayerState { positions, goal }));
        proof {
            assert(self.state@.subrange(0, before.len() as int) =~= before);
            assert forall|a: int, b: int|
                0 <= a < b < self.state@.len() implies #[trigger] self.state@[a].0@
                != #[trigger] self.state@[b].0@ by {
                if b == before.len() {
                    assert(self.state@[a] == before[a]);
                    if self.state@[a].0@ == player.name@ {
                        assert(before[a].0@ == player.name@);
                    }
                } else {
                    assert(before[a].0@ != before[b].0@);
                }
            }
            assert forall|k: int|
                0 <= k < self.state@.len() implies (#[trigger] self.state@[k]).1.wf(self.size as int) by {
                if k < before.len() {
                    assert(self.state@[k] == before[k]);
                }
            }
            let last = before.len() as int;
            assert(self.state@[last].0@ == player.name@);
            assert(self.has_player(player.name@));
            let c = self.index_of(player.name@);
            if c != last {
                assert(self.state@[c].0@ != self.state@[last].0@);
            }
        }
        Ok(())
    }
}

impl ChineseChecker {
    /// Moves a piece of `player` from `mv.from` to `mv.to`: the first leaves
    /// its points and the second joins them. The caller passes a move that the
    /// generator gave; only an unknown player is refused.
    pub fn make_move(&mut self, player: &Player, mv: &Move) -> (r: Result<(), GameError>)
        requires
            old(self).wf(),
            on_board(mv.to, old(self).size as int),
        ensures
            final(self).wf(),
            final(self).size == old(self).size,
            final(self).nodes == old(self).nodes,
            final(self).tips == old(self).tips,
            final(self).state@.len() == old(self).state@.len(),
            forall|k: int|
                0 <= k < old(self).state@.len() ==> (#[trigger] final(self).state@[k]).0 == old(
                    self,
                ).state@[k].0 && final(self).state@[k].1.goal == old(self).state@[k].1.goal,
            forall|k: int|
                0 <= k < old(self).state@.len() && k != old(self).index_of(player.name@) ==> (
                #[trigger] final(self).state@[k]) == old(self).state@[k],
            !old(self).has_player(player.name@) ==> r == Err::<(), GameError>(
                GameError::UnknownPlayer,
            ) && final(self).state@ == old(self).state@,
            old(self).has_player(player.name@) ==> r is Ok && final(self).index_of(player.name@)
                == old(self).index_of(player.name@) && final(self).positions_of(player.name@)
                == old(self).positions_of(player.name@).remove(mv.from).insert(mv.to),
    {
        let ghost s = self.size as int;
        let k = match self.find_player(&player.name) {
            None => {
                return Err(GameError::UnknownPlayer);
            },
            Some(k) => k,
        };
        let ghost old_state = self.state@;
        let ghost old_pos = self.state@[k as int].1.positions@;
        proof {
            assert(self.state@[k as int].1.wf(s));
        }
        let mut moved: Vec<Position> = Vec::new();
        let mut j: usize = 0;
        while j < self.state[k].1.positions.len()
            invariant
                self.wf(),
                s == self.size,
                k < self.state@.len(),
                old_pos == self.state@[k as int].1.positions@,
                old_pos.no_duplicates(),
                forall|i: int| 0 <= i < old_pos.len() ==> on_board(#[trigger] old_pos[i], s),
                0 <= j <= old_pos.len(),
                moved@.no_duplicates(),
                forall|i: int| 0 <= i < moved@.len() ==> on_board(#[trigger] moved@[i], s),
                forall|q: Position|
                    #[trigger] moved@.contains(q) <==> old_pos.subrange(0, j as int).contains(q) && q
                        != mv.from,
            decreases old_pos.len() - j,
        {
            let q = self.state[k].1.positions[j];
            let ghost before = moved@;
            proof {
                assert(old_pos.subrange(0, j as int + 1) =~= old_pos.subrange(0, j as int).push(q));
                lemma_push_contains(old_pos.subrange(0, j as int), q);
                if old_pos.subrange(0, j as int).contains(q) {
                    let i = choose|i: int| 0 <= i < j && old_pos.subrange(0, j as int)[i] == q;
                    assert(old_pos[i] == old_pos[j as int]);
                }
            }
            if q != mv.from {
                moved.push(q);
                proof {
                    lemma_push_contains(before, q);
                    lemma_push_no_dup(before, q);
                }
            }
            j = j + 1;
        }
        let ghost kept = moved@;
        if !contains_position(&moved, &mv.to) {
            moved.push(mv.to);
            proof {
                lemma_push_contains(kept, mv.to);
                lemma_push_no_dup(kept, mv.to);
            }
        }
        let (name, ps) = self.state.remove(k);
        self.state.insert(k, (name, PlayerState { positions: moved, goal: ps.goal }));
        proof {
            assert(old_pos.subrange(0, old_pos.len() as int) =~= old_pos);
            assert forall|i: int| 0 <= i < old_state.len() && i != k implies #[trigger] self.state@[i]
                == old_state[i] by {
                if i < k {
                    assert(self.state@[i] == old_state.remove(k as int)[i]);
                } else {
                    assert(self.state@[i] == old_state.remove(k as int)[i - 1]);
                }
            }
            assert(self.state@[k as int].0 == old_state[k as int].0);
            assert forall|a: int, b: int|
                0 <= a < b < self.state@.len() implies #[trigger] self.state@[a].0@
                != #[trigger] self.state@[b].0@ by {
                assert(self.state@[a].0 == old_state[a].0);
                assert(self.state@[b].0 == old_state[b].0);
            }
            assert forall|i: int|
                0 <= i < self.state@.len() implies (#[trigger] self.state@[i]).1.wf(s) by {
                if i != k {
                    assert(self.state@[i] == old_state[i]);
                    assert(old_state[i].1.wf(s));
                }
            }
            assert(old_state[k as int].0@ == player.name@);
            let c = self.index_of(player.name@);
            assert(self.state@[k as int].0@ == player.name@);
            assert(self.has_player(player.name@));
            if c != k {
                assert(self.state@[c].0@ == player.name@);
            }
            assert(moved@.to_set() =~= old_pos.to_set().remove(mv.from).insert(mv.to));
        }
        Ok(())
    }

    /// The state of the player of this name, who must be registered.
    pub fn get_player_state(&self, name: &str) -> (r: &PlayerState)
        requires
            self.wf(),
            self.has_player(name@),
        ensures
            *r == self.state@[self.index_of(name@)].1,
    {
        let owned = name.to_owned();
        match self.find_player(&owned) {
            Some(k) => &self.state[k].1,
            None => {
                proof {
                    assert(false);
                }
                &self.state[0].1
            },
        }
    }
}

} // verus!

//! Players and the moves open to them.

use vstd::prelude::*;

use crate::game::{contains_position, lemma_push_contains, lemma_push_no_dup, ChineseChecker};
use crate::position::{on_board, Position};

verus! {

/// crossterm's terminal color, carried by a player for display only.
#[verifier::external_type_specification]
#[verifier::external_body]
pub struct ExColor(crossterm::style::Color);

/// A move of one piece from `from` to `to`.
#[derive(Debug, PartialEq, Eq, Structural, Clone, Copy)]
pub struct Move {
    pub from: Position,
    pub to: Position,
}

/// A player: its name, its display color, and the triangle it starts in.
#[derive(Debug)]
pub struct Player {
    pub name: String,
    pub color: crossterm::style::Color,
    pub triangle: u8,
}

impl Player {
    pub fn new(name: String, color: crossterm::style::Color, triangle: u8) -> (r: Player)
        ensures
            r.name == name,
            r.color == color,
            r.triangle == triangle,
    {
        Player { name, color, triangle }
    }

    /// Whether the player's pieces fill its goal triangle exactly.
    pub fn is_done(&self, cc: &ChineseChecker) -> (r: bool)
        requires
            cc.wf(),
            cc.has_player(self.name@),
        ensures
            r == (cc.positions_of(self.name@) == cc.goal_of(self.name@)),
    {
        let state = cc.get_player_state(self.name.as_str());
        let ghost k = cc.index_of(self.name@);
        proof {
            assert(cc.state@[k].1.wf(cc.size as int));
            state.positions@.unique_seq_to_set();
            state.goal@.unique_seq_to_set();
        }
        if state.positions.len() != state.goal.len() {
            return false;
        }
        let mut i: usize = 0;
        while i < state.positions.len()
            invariant
                k == cc.index_of(self.name@),
                *state == cc.state@[k].1,
                0 <= i <= state.positions@.len(),
                forall|j: int| 0 <= j < i ==> state.goal@.contains(#[trigger] state.positions@[j]),
            decreases state.positions@.len() - i,
        {
            if !contains_position(&state.goal, &state.positions[i]) {
                proof {
                    assert(state.positions@.to_set().contains(state.positions@[i as int]));
                    assert(!state.goal@.to_set().contains(state.positions@[i as int]));
                }
                return false;
            }
            i = i + 1;
        }
        proof {
            assert forall|q: Position| #[trigger] state.positions@.to_set().contains(q) implies state.goal@.to_set().contains(q) by {
                let j = choose|j: int| 0 <= j < state.positions@.len() && state.positions@[j] == q;
                assert(state.goal@.contains(state.positions@[j]));
            }
            vstd::set_lib::lemma_subset_equality(state.positions@.to_set(), state.goal@.to_set());
        }
        true
    }

    /// Every move open to this player, each once: for each of its pieces,
    /// first the crawls, then the jump targets that are not crawls.
    pub fn find_all_moves(&self, cc: &ChineseChecker) -> (r: Vec<Move>)
        requires
            cc.wf(),
            cc.has_player(self.name@),
        ensures
            r@.no_duplicates(),
            forall|mv: Move|
                #[trigger] r@.contains(mv) <==> cc.positions_of(self.name@).contains(mv.from)
                    && cc.move_targets(mv.from).contains(mv.to),
    {
        let ghost s = cc.size as int;
        let state = cc.get_player_state(self.name.as_str());
        let ghost ps = state.positions@;
        proof {
            assert(cc.state@[cc.index_of(self.name@)].1.wf(s));
        }
        let mut moves: Vec<Move> = Vec::new();
        let mut i: usize = 0;
        while i < state.positions.len()
            invariant
                cc.wf(),
                s == cc.size,
                ps == state.positions@,
                ps.no_duplicates(),
                forall|j: int| 0 <= j < ps.len() ==> on_board(#[trigger] ps[j], s),
                0 <= i <= ps.len(),
                moves@.no_duplicates(),
                forall|mv: Move|
                    #[trigger] moves@.contains(mv) <==> ps.subrange(0, i as int).contains(mv.from)
                        && cc.move_targets(mv.from).contains(mv.to),
            decreases ps.len() - i,
        {
            let from = state.positions[i];
            let ghost prior = moves@;
            let ghost seen = ps.subrange(0, i as int);
            proof {
                assert(ps.subrange(0, i as int + 1) =~= seen.push(from));
                lemma_push_contains(seen, from);
                if seen.contains(from) {
                    let j = choose|j: int| 0 <= j < i && seen[j] == from;
                    assert(ps[j] == ps[i as int]);
                }
            }
            let crawls = cc.adjacent_unoccupied_positions(&from);
            let mut t: usize = 0;
            while t < crawls.len()
                invariant
                    0 <= t <= crawls@.len(),
                    crawls@.no_duplicates(),
                    !seen.contains(from),
                    prior.no_duplicates(),
                    moves@.no_duplicates(),
                    forall|mv: Move|
                        #[trigger] moves@.contains(mv) <==> prior.contains(mv) || (mv.from == from
                            && crawls@.subrange(0, t as int).contains(mv.to)),
                    forall|mv: Move| #[trigger] prior.contains(mv) ==> seen.contains(mv.from),
                decreases crawls@.len() - t,
            {
                let to = crawls[t];
                let mv = Move { from, to };
                let ghost before = moves@;
                proof {
                    assert(crawls@.subrange(0, t as int + 1) =~= crawls@.subrange(0, t as int).push(to));
                    lemma_push_contains(crawls@.subrange(0, t as int), to);
                    if crawls@.subrange(0, t as int).contains(to) {
                        let j = choose|j: int| 0 <= j < t && crawls@.subrange(0, t as int)[j] == to;
                        assert(crawls@[j] == crawls@[t as int]);
                    }
                }
                moves.push(mv);
                proof {
                    lemma_push_contains(before, mv);
                    lemma_push_no_dup(before, mv);
                }
                t = t + 1;
            }
            proof {
                assert(crawls@.subrange(0, crawls@.len() as int) =~= crawls@);
            }
            let jumps = cc.jumpable_positions(&from);
            let mut t: usize = 0;
            while t < jumps.len()
                invariant
                    0 <= t <= jumps@.len(),
                    jumps@.no_duplicates(),
                    !seen.contains(from),
                    prior.no_duplicates(),
                    moves@.no_duplicates(),
                    forall|mv: Move|
                        #[trigger] moves@.contains(mv) <==> prior.contains(mv) || (mv.from == from
                            && (crawls@.contains(mv.to) || jumps@.subrange(0, t as int).contains(mv.to))),
                    forall|mv: Move| #[trigger] prior.contains(mv) ==> seen.contains(mv.from),
                decreases jumps@.len() - t,
            {
                let to = jumps[t];
                let ghost before = moves@;
                proof {
                    assert(jumps@.subrange(0, t as int + 1) =~= jumps@.subrange(0, t as int).push(to));
                    lemma_push_contains(jumps@.subrange(0, t as int), to);
                    if jumps@.subrange(0, t as int).contains(to) {
                        let j = choose|j: int| 0 <= j < t && jumps@.subrange(0, t as int)[j] == to;
                        assert(jumps@[j] == jumps@[t as int]);
                    }
                }
                if !contains_position(&crawls, &to) {
                    let mv = Move { from, to };
                    moves.push(mv);
                    proof {
                        lemma_push_contains(before, mv);
                        lemma_push_no_dup(before, mv);
                    }
                }
                t = t + 1;
            }
            proof {
                assert(jumps@.subrange(0, jumps@.len() as int) =~= jumps@);
                assert forall|mv: Move|
                    #[trigger] moves@.contains(mv) <==> ps.subrange(0, i as int + 1).contains(mv.from)
                        && cc.move_targets(mv.from).contains(mv.to) by {
                    if mv.from == from {
                        assert(crawls@.to_set().contains(mv.to) == crawls@.contains(mv.to));
                        assert(jumps@.to_set().contains(mv.to) == jumps@.contains(mv.to));
                        if prior.contains(mv) {
                            assert(seen.contains(mv.from));
                        }
                    }
                }
            }
            i = i + 1;
        }
        proof {
            assert(ps.subrange(0, ps.len() as int) =~= ps);
        }
        moves
    }
}

} // verus!

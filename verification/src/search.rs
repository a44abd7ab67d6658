//! The search engine: exhaustive minimax over the board model.
//!
//! Scores lie in [-10, 10]: a line completed for the perfect player at
//! search depth `d` scores `10 - d`, one completed for the opponent scores
//! `d - 10`, and a draw scores 0. Ties between candidates that end in
//! neither are broken toward the last extreme candidate in ascending cell
//! order, matching the scan below.

use vstd::prelude::*;

use crate::board::{
    avail_from, cell_free, cells_wf, is_draw, occupied, spec_available, spec_current_player,
    spec_step, valid_cell, wins, Board, BoardModel, Player,
};

verus! {

/// A candidate move paired with its minimax score. The sentinel step -1
/// means that no move is available.
#[derive(Debug)]
pub struct Node {
    pub step: i8,
    pub score: i16,
}

/// Mathematical view of a [`Node`].
pub ghost struct NodeModel {
    pub step: int,
    pub score: int,
}

pub open spec fn node_model(n: Node) -> NodeModel {
    NodeModel { step: n.step as int, score: n.score as int }
}

pub open spec fn best_model(o: Option<Node>) -> Option<NodeModel> {
    match o {
        Some(n) => Some(node_model(n)),
        None => None,
    }
}

/// The exact search result for a position: a draw scores 0 with the
/// sentinel step, and otherwise the available cells are scanned in
/// ascending order by [`spec_scan`].
pub open spec fn spec_minimax(b: BoardModel, depth: int) -> NodeModel
    decreases 9 - occupied(b), spec_available(b).len() + 1,
        when occupied(b) <= 9
{
    if is_draw(b) {
        NodeModel { step: -1, score: 0 }
    } else {
        spec_scan(b, depth, spec_available(b), None)
    }
}

/// One scan over the candidate cells `moves`, carrying the best candidate
/// found so far. A candidate that completes a line for either side ends
/// the scan at once; among the others, at even depth the last candidate
/// with maximal score is kept, at odd depth the last with minimal score.
pub open spec fn spec_scan(b: BoardModel, depth: int, moves: Seq<u32>, best: Option<NodeModel>) -> NodeModel
    decreases 9 - occupied(b), moves.len(),
        when occupied(b) <= 8
{
    if moves.len() == 0 {
        match best {
            Some(n) => n,
            None => NodeModel { step: -1, score: 0 },
        }
    } else {
        let step = moves[0];
        let next = spec_step(b, step);
        if wins(next.perfect_player) {
            NodeModel { step: step as int, score: 10 - depth }
        } else if wins(next.opponent) {
            NodeModel { step: step as int, score: depth - 10 }
        } else {
            let score = spec_minimax(next, depth + 1).score;
            let replace = match best {
                None => true,
                Some(n) => if depth % 2 == 0 {
                    score >= n.score
                } else {
                    score <= n.score
                },
            };
            let next_best = if replace {
                Some(NodeModel { step: step as int, score })
            } else {
                best
            };
            spec_scan(b, depth, moves.drop_first(), next_best)
        }
    }
}

/// Claiming a free, valid cell keeps the position well formed and claims
/// exactly one more cell.
proof fn lemma_step_keeps_wf(b: BoardModel, step: u32)
    requires
        cells_wf(b.perfect_player, b.opponent),
        valid_cell(step),
        cell_free(b, step),
        occupied(b) <= 8,
    ensures
        cells_wf(spec_step(b, step).perfect_player, spec_step(b, step).opponent),
        occupied(spec_step(b, step)) == occupied(b) + 1,
{
    let nb = spec_step(b, step);
    lemma_push_wf_side(b.perfect_player, b.opponent, step);
    lemma_push_wf_side(b.opponent, b.perfect_player, step);
    if spec_current_player(b) == Player::Opponent {
        assert forall|c: u32| nb.perfect_player.contains(c) implies !nb.opponent.contains(c) by {
            lemma_push_contains(b.opponent, step, c);
        }
    } else {
        assert forall|c: u32| nb.perfect_player.contains(c) implies !nb.opponent.contains(c) by {
            lemma_push_contains(b.perfect_player, step, c);
            if b.perfect_player.contains(c) {
                assert(!b.opponent.contains(c));
            }
        }
    }
}

/// Membership in a sequence extended by one element.
proof fn lemma_push_contains(s: Seq<u32>, x: u32, c: u32)
    ensures
        s.push(x).contains(c) <==> (s.contains(c) || c == x),
{
    if s.push(x).contains(c) {
        let k = choose|k: int| 0 <= k < s.push(x).len() && s.push(x)[k] == c;
        if k < s.len() {
            assert(s[k] == c);
        }
    }
    if s.contains(c) {
        let k = choose|k: int| 0 <= k < s.len() && s[k] == c;
        assert(s.push(x)[k] == c);
    }
    if c == x {
        assert(s.push(x)[s.len() as int] == c);
    }
}

/// Pushing a fresh, valid cell preserves one side's own well-formedness.
proof fn lemma_push_wf_side(s: Seq<u32>, other: Seq<u32>, step: u32)
    requires
        forall|i: int| 0 <= i < s.len() ==> valid_cell(#[trigger] s[i]),
        crate::board::no_duplicates(s),
        valid_cell(step),
        !s.contains(step),
    ensures
        forall|i: int| 0 <= i < s.push(step).len() ==> valid_cell(#[trigger] s.push(step)[i]),
        crate::board::no_duplicates(s.push(step)),
{
    let s2 = s.push(step);
    assert forall|i: int| 0 <= i < s2.len() implies valid_cell(#[trigger] s2[i]) by {
        if i < s.len() {
            assert(s2[i] == s[i]);
        }
    }
    assert forall|i: int, j: int| 0 <= i < j < s2.len() implies s2[i] != s2[j] by {
        if j == s.len() {
            assert(s2[i] == s[i]);
            assert(s.contains(s[i]));
        }
    }
}

/// Every available cell is a free, valid cell.
proof fn lemma_avail_members(b: BoardModel, lo: u32)
    requires
        lo >= 1,
    ensures
        forall|k: int| 0 <= k < avail_from(b, lo).len()
            ==> valid_cell(#[trigger] avail_from(b, lo)[k]) && cell_free(b, avail_from(b, lo)[k]),
    decreases 10 - lo,
{
    if lo < 10 {
        lemma_avail_members(b, (lo + 1) as u32);
        let rest = avail_from(b, (lo + 1) as u32);
        if cell_free(b, lo) {
            assert forall|k: int| 0 <= k < avail_from(b, lo).len()
                implies valid_cell(#[trigger] avail_from(b, lo)[k]) && cell_free(b, avail_from(b, lo)[k]) by {
                if k > 0 {
                    assert(avail_from(b, lo)[k] == rest[k - 1]);
                }
            }
        }
    }
}

impl Board {
    /// The minimax search result from this position, with `depth` plies
    /// already taken since the search began. At even depth the score is
    /// maximised, at odd depth minimised; a candidate that completes a
    /// line for either side is returned at once.
    pub fn minimax(&self, depth: u8) -> (r: Node)
        requires
            cells_wf(self@.perfect_player, self@.opponent),
            depth as int <= occupied(self@),
        ensures
            node_model(r) == spec_minimax(self@, depth as int),
        decreases 9 - occupied(self@),
    {
        if self.draw() {
            return Node { step: -1, score: 0 };
        }
        let moves = self.available_steps();
        proof {
            lemma_avail_members(self@, 1);
            assert(moves@.skip(0) =~= moves@);
        }
        let mut best: Option<Node> = None;
        let mut i: usize = 0;
        while i < moves.len()
            invariant
                cells_wf(self@.perfect_player, self@.opponent),
                depth as int <= occupied(self@),
                occupied(self@) <= 8,
                moves@ == spec_available(self@),
                forall|k: int| 0 <= k < moves@.len()
                    ==> valid_cell(#[trigger] moves@[k]) && cell_free(self@, moves@[k]),
                0 <= i <= moves@.len(),
                spec_scan(self@, depth as int, moves@.skip(i as int), best_model(best))
                    == spec_minimax(self@, depth as int),
            decreases moves@.len() - i,
        {
            let step = moves[i];
            let next = self.try_next_step(step);
            proof {
                assert(moves@.skip(i as int)[0] == step);
            }
            if next.won() {
                return Node { step: step as i8, score: 10 - depth as i16 };
            }
            if next.lose() {
                return Node { step: step as i8, score: depth as i16 - 10 };
            }
            proof {
                lemma_step_keeps_wf(self@, step);
            }
            let sub = next.minimax(depth + 1);
            let replace = match &best {
                None => true,
                Some(n) => if depth % 2 == 0 {
                    sub.score >= n.score
                } else {
                    sub.score <= n.score
                },
            };
            if replace {
                best = Some(Node { step: step as i8, score: sub.score });
            }
            proof {
                assert(moves@.skip(i as int).drop_first() =~= moves@.skip(i as int + 1));
            }
            i += 1;
        }
        proof {
            assert(moves@.skip(moves@.len() as int) =~= Seq::<u32>::empty());
        }
        match best {
            Some(n) => n,
            None => Node { step: -1, score: 0 },
        }
    }

    /// Chooses the next move: from an untouched board one cell of the
    /// fixed opening book {1, 3, 5, 7, 9} (the corners and the centre,
    /// all optimal first moves by symmetry), picked at random; otherwise
    /// the exact minimax answer at depth zero.
    pub fn next_step(&mut self, current_step: usize) -> (r: i8)
        requires
            cells_wf(old(self)@.perfect_player, old(self)@.opponent),
        ensures
            *final(self) == *old(self),
            current_step == 0 ==> (r == 1 || r == 3 || r == 5 || r == 7 || r == 9),
            current_step != 0 ==> r as int == spec_minimax(old(self)@, 0).step,
    {
        if current_step == 0 {
            let idx: usize = random_index(5);
            if idx == 0 {
                1
            } else if idx == 1 {
                3
            } else if idx == 2 {
                5
            } else if idx == 3 {
                7
            } else {
                9
            }
        } else {
            self.minimax(0).step
        }
    }
}

/// Relies on rand::random_range over `0..n`: the returned value lies in
/// the given range, which is non-empty by the precondition.
#[verifier::external_body]
fn random_index(n: usize) -> (r: usize)
    requires
        n > 0,
    ensures
        r < n,
{
    rand::random_range(0..n)
}

/// Computes the perfect player's next move for the given position: one
/// cell of the opening book on an untouched board, otherwise the minimax
/// choice at depth zero, and -1 when the board is already full.
pub fn play(perfect_player: Vec<u32>, opponent: Vec<u32>, first_hand: bool) -> (r: i32)
    requires
        cells_wf(perfect_player@, opponent@),
    ensures
        ({
            let b = BoardModel {
                opponent: opponent@,
                perfect_player: perfect_player@,
                first_hand: Some(first_hand),
            };
            &&& occupied(b) == 0 ==> (r == 1 || r == 3 || r == 5 || r == 7 || r == 9)
            &&& occupied(b) != 0 ==> r as int == spec_minimax(b, 0).step
        }),
{
    let mut current_board = Board {
        perfect_player,
        opponent,
        first_hand: Some(first_hand),
    };
    let count = current_board.step_count();
    let step = current_board.next_step(count);
    step as i32
}

} // verus!

//! The board model: game state and its pure queries.

use vstd::prelude::*;

verus! {

/// Which side places the next mark.
#[derive(PartialEq, Eq, Structural, Clone, Copy, Debug)]
pub enum Player {
    Opponent,
    PerfectPlayer,
}

/// Mathematical view of a [`Board`]: the two claimed-cell sequences and the
/// flag saying whether the perfect player made the first move of the game.
pub ghost struct BoardModel {
    pub opponent: Seq<u32>,
    pub perfect_player: Seq<u32>,
    pub first_hand: Option<bool>,
}

/// Game state: the cells claimed by each side, in the order they were
/// claimed, and which side moved first (`None` counts as the opponent).
#[derive(Clone, Debug)]
pub struct Board {
    pub opponent: Vec<u32>,
    pub perfect_player: Vec<u32>,
    pub first_hand: Option<bool>,
}

impl View for Board {
    type V = BoardModel;

    open spec fn view(&self) -> BoardModel {
        BoardModel {
            opponent: self.opponent@,
            perfect_player: self.perfect_player@,
            first_hand: self.first_hand,
        }
    }
}

/// A cell identifier addresses the 3x3 grid in row-major order.
pub open spec fn valid_cell(c: u32) -> bool {
    1 <= c <= 9
}

pub open spec fn no_duplicates(s: Seq<u32>) -> bool {
    forall|i: int, j: int| 0 <= i < j < s.len() ==> s[i] != s[j]
}

/// A well-formed position: both sides hold only cells of the grid, neither
/// holds a cell twice, the two holdings are disjoint, and together they
/// never exceed the nine cells of the grid.
pub open spec fn cells_wf(perfect_player: Seq<u32>, opponent: Seq<u32>) -> bool {
    &&& forall|i: int| 0 <= i < perfect_player.len() ==> valid_cell(#[trigger] perfect_player[i])
    &&& forall|i: int| 0 <= i < opponent.len() ==> valid_cell(#[trigger] opponent[i])
    &&& no_duplicates(perfect_player)
    &&& no_duplicates(opponent)
    &&& forall|c: u32| perfect_player.contains(c) ==> !opponent.contains(c)
    &&& perfect_player.len() + opponent.len() <= 9
}

/// How many cells are claimed in all.
pub open spec fn occupied(b: BoardModel) -> int {
    b.opponent.len() + b.perfect_player.len() as int
}

/// A draw position: every cell is claimed. Callers check for completed
/// lines before they ask, so no winner is present here.
pub open spec fn is_draw(b: BoardModel) -> bool {
    occupied(b) == 9
}

/// The first-mover flag with its documented default: an unset flag means
/// the opponent opened the game.
pub open spec fn first_hand_flag(b: BoardModel) -> bool {
    match b.first_hand {
        Some(v) => v,
        None => false,
    }
}

/// The side to move, by the parity of the claimed-cell count: with an even
/// count the side that opened the game moves, with an odd count the other.
pub open spec fn spec_current_player(b: BoardModel) -> Player {
    if (occupied(b) % 2 == 0) == first_hand_flag(b) {
        Player::PerfectPlayer
    } else {
        Player::Opponent
    }
}

/// The position after the side to move claims `step`.
pub open spec fn spec_step(b: BoardModel, step: u32) -> BoardModel {
    if spec_current_player(b) == Player::Opponent {
        BoardModel { opponent: b.opponent.push(step), ..b }
    } else {
        BoardModel { perfect_player: b.perfect_player.push(step), ..b }
    }
}

/// The `i`th of the eight cell triples that complete a line: the three
/// rows, the three columns and the two diagonals.
pub open spec fn winning_triple(i: int) -> Seq<u32> {
    if i == 0 {
        seq![1u32, 2u32, 3u32]
    } else if i == 1 {
        seq![4u32, 5u32, 6u32]
    } else if i == 2 {
        seq![7u32, 8u32, 9u32]
    } else if i == 3 {
        seq![1u32, 4u32, 7u32]
    } else if i == 4 {
        seq![2u32, 5u32, 8u32]
    } else if i == 5 {
        seq![3u32, 6u32, 9u32]
    } else if i == 6 {
        seq![1u32, 5u32, 9u32]
    } else {
        seq![3u32, 5u32, 7u32]
    }
}

pub open spec fn contains_triple(s: Seq<u32>, t: Seq<u32>) -> bool {
    forall|j: int| 0 <= j < t.len() ==> s.contains(#[trigger] t[j])
}

/// A side has a complete line when its cells fully contain one of the
/// eight winning triples.
pub open spec fn wins(s: Seq<u32>) -> bool {
    exists|i: int| 0 <= i < 8 && contains_triple(s, #[trigger] winning_triple(i))
}

pub open spec fn cell_free(b: BoardModel, c: u32) -> bool {
    !b.opponent.contains(c) && !b.perfect_player.contains(c)
}

/// The unclaimed cells from `lo` up to 9, in ascending order.
pub open spec fn avail_from(b: BoardModel, lo: u32) -> Seq<u32>
    decreases 10 - lo,
{
    if lo >= 10 {
        Seq::empty()
    } else if cell_free(b, lo) {
        seq![lo] + avail_from(b, (lo + 1) as u32)
    } else {
        avail_from(b, (lo + 1) as u32)
    }
}

/// The unclaimed cells of the whole grid, in ascending order.
pub open spec fn spec_available(b: BoardModel) -> Seq<u32> {
    avail_from(b, 1)
}

/// Whether `cells` holds the cell `c`.
fn contains_cell(cells: &Vec<u32>, c: u32) -> (r: bool)
    ensures
        r == cells@.contains(c),
{
    let mut i: usize = 0;
    while i < cells.len()
        invariant
            0 <= i <= cells@.len(),
            forall|j: int| 0 <= j < i ==> cells@[j] != c,
        decreases cells@.len() - i,
    {
        if cells[i] == c {
            assert(cells@.contains(c)) by {
                assert(cells@[i as int] == c);
            }
            return true;
        }
        i += 1;
    }
    false
}

/// A fresh vector with the same cells.
fn copy_cells(cells: &Vec<u32>) -> (r: Vec<u32>)
    ensures
        r@ == cells@,
{
    let mut copied: Vec<u32> = Vec::new();
    let mut i: usize = 0;
    while i < cells.len()
        invariant
            0 <= i <= cells@.len(),
            copied@ == cells@.take(i as int),
        decreases cells@.len() - i,
    {
        copied.push(cells[i]);
        proof {
            assert(cells@.take(i as int).push(cells@[i as int]) =~= cells@.take(i + 1));
        }
        i += 1;
    }
    proof {
        assert(cells@.take(cells@.len() as int) =~= cells@);
    }
    copied
}

impl Board {
    /// The eight cell triples that complete a line on the grid.
    pub fn winning_combinations() -> (r: [[u32; 3]; 8])
        ensures
            forall|i: int| 0 <= i < 8 ==> (#[trigger] r@[i])@ == winning_triple(i),
    {
        let combinations: [[u32; 3]; 8] = [
            [1, 2, 3],
            [4, 5, 6],
            [7, 8, 9],
            [1, 4, 7],
            [2, 5, 8],
            [3, 6, 9],
            [1, 5, 9],
            [3, 5, 7],
        ];
        proof {
            assert forall|i: int| 0 <= i < 8 implies (#[trigger] combinations@[i])@ == winning_triple(i) by {
                assert(combinations@[i]@ =~= winning_triple(i));
            }
        }
        combinations
    }

    /// Whether every cell is claimed.
    pub fn draw(&self) -> (r: bool)
        ensures
            r == is_draw(self@),
    {
        self.step_count() == 9
    }

    /// Whether the perfect player holds a complete line.
    pub fn won(&self) -> (r: bool)
        ensures
            r == wins(self@.perfect_player),
    {
        Self::can_win(copy_cells(&self.perfect_player))
    }

    /// Whether the opponent holds a complete line.
    pub fn lose(&self) -> (r: bool)
        ensures
            r == wins(self@.opponent),
    {
        Self::can_win(copy_cells(&self.opponent))
    }

    /// Whether `selected` fully contains one of the eight winning triples.
    pub fn can_win(selected: Vec<u32>) -> (r: bool)
        ensures
            r == wins(selected@),
    {
        if selected.len() < 3 {
            proof {
                lemma_few_cells_no_line(selected@);
            }
            return false;
        }
        let combinations = Self::winning_combinations();
        let mut i: usize = 0;
        while i < 8
            invariant
                0 <= i <= 8,
                forall|k: int| 0 <= k < i ==> !contains_triple(selected@, winning_triple(k)),
                forall|k: int| 0 <= k < 8 ==> (#[trigger] combinations@[k])@ == winning_triple(k),
            decreases 8 - i,
        {
            let combination = combinations[i];
            if contains_cell(&selected, combination[0]) && contains_cell(&selected, combination[1])
                && contains_cell(&selected, combination[2]) {
                proof {
                    let t = winning_triple(i as int);
                    assert(t.len() == 3);
                    assert forall|j: int| 0 <= j < t.len() implies selected@.contains(#[trigger] t[j]) by {
                        assert(t[j] == combination@[j]);
                    }
                    assert(contains_triple(selected@, winning_triple(i as int)));
                }
                return true;
            }
            proof {
                let t = winning_triple(i as int);
                assert(!selected@.contains(t[0]) || !selected@.contains(t[1]) || !selected@.contains(t[2]));
            }
            i += 1;
        }
        false
    }

    /// How many cells are claimed in all.
    pub fn step_count(&self) -> (r: usize)
        ensures
            r as int == occupied(self@),
    {
        Self::occupied_steps(&self.opponent, &self.perfect_player).len()
    }

    /// The claimed cells of both sides, the opponent's first.
    pub fn occupied_steps(opponent: &Vec<u32>, perfect_player: &Vec<u32>) -> (r: Vec<u32>)
        ensures
            r@ == opponent@ + perfect_player@,
    {
        let mut merged = copy_cells(opponent);
        let mut i: usize = 0;
        while i < perfect_player.len()
            invariant
                0 <= i <= perfect_player@.len(),
                merged@ == opponent@ + perfect_player@.take(i as int),
            decreases perfect_player@.len() - i,
        {
            merged.push(perfect_player[i]);
            proof {
                assert((opponent@ + perfect_player@.take(i as int)).push(perfect_player@[i as int])
                    =~= opponent@ + perfect_player@.take(i + 1));
            }
            i += 1;
        }
        proof {
            assert(opponent@ + perfect_player@.take(perfect_player@.len() as int) =~= opponent@ + perfect_player@);
        }
        merged
    }

    /// The unclaimed cells, in ascending order.
    pub fn available_steps(&self) -> (r: Vec<u32>)
        ensures
            r@ == spec_available(self@),
    {
        let mut steps: Vec<u32> = Vec::new();
        let mut c: u32 = 1;
        while c <= 9
            invariant
                1 <= c <= 10,
                steps@ + avail_from(self@, c) == spec_available(self@),
            decreases 10 - c,
        {
            let claimed = contains_cell(&self.opponent, c) || contains_cell(&self.perfect_player, c);
            proof {
                assert(claimed == !cell_free(self@, c));
            }
            if !claimed {
                let ghost prev = steps@;
                steps.push(c);
                proof {
                    assert(prev.push(c) + avail_from(self@, (c + 1) as u32)
                        =~= prev + (seq![c] + avail_from(self@, (c + 1) as u32)));
                }
            }
            c += 1;
        }
        proof {
            assert(avail_from(self@, c) =~= Seq::<u32>::empty());
            assert(steps@ + avail_from(self@, c) =~= steps@);
        }
        steps
    }

    /// The side to move.
    pub fn current_player(&self) -> (r: Player)
        ensures
            r == spec_current_player(self@),
    {
        let first = match self.first_hand {
            Some(v) => v,
            None => false,
        };
        let count = self.step_count();
        if (count % 2 == 0 && first) || (count % 2 != 0 && !first) {
            Player::PerfectPlayer
        } else {
            Player::Opponent
        }
    }

    /// The position after the side to move claims `step`; this board is
    /// left untouched.
    pub fn try_next_step(&self, step: u32) -> (r: Board)
        ensures
            r@ == spec_step(self@, step),
    {
        let mut board = Board {
            opponent: copy_cells(&self.opponent),
            perfect_player: copy_cells(&self.perfect_player),
            first_hand: self.first_hand,
        };
        if self.current_player() == Player::Opponent {
            board.opponent.push(step);
        } else {
            board.perfect_player.push(step);
        }
        board
    }
}

/// A side with fewer than three claimed cells never holds a complete line:
/// the three cells of a winning triple are pairwise distinct.
pub proof fn lemma_few_cells_no_line(s: Seq<u32>)
    requires
        s.len() < 3,
    ensures
        !wins(s),
{
    assert forall|i: int| 0 <= i < 8 implies !contains_triple(s, winning_triple(i)) by {
        let t = winning_triple(i);
        if contains_triple(s, t) {
            assert(s.contains(t[0]));
            assert(s.contains(t[1]));
            assert(s.contains(t[2]));
            let k0 = choose|k: int| 0 <= k < s.len() && s[k] == t[0];
            let k1 = choose|k: int| 0 <= k < s.len() && s[k] == t[1];
            let k2 = choose|k: int| 0 <= k < s.len() && s[k] == t[2];
            assert(t[0] != t[1] && t[0] != t[2] && t[1] != t[2]);
            assert(false);
        }
    }
}

/// A side that holds all three cells of some winning triple has won,
/// whatever else it holds.
pub proof fn lemma_triple_wins(s: Seq<u32>, i: int)
    requires
        0 <= i < 8,
        contains_triple(s, winning_triple(i)),
    ensures
        wins(s),
{
}

/// The cells listed from `lo` upward are exactly the free, valid cells
/// at or above `lo`, in strictly ascending order.
proof fn lemma_avail_from_props(b: BoardModel, lo: u32)
    requires
        1 <= lo <= 10,
    ensures
        forall|c: u32| #[trigger] avail_from(b, lo).contains(c) <==> (lo <= c <= 9 && cell_free(b, c)),
        forall|i: int, j: int| 0 <= i < j < avail_from(b, lo).len()
            ==> avail_from(b, lo)[i] < avail_from(b, lo)[j],
        forall|k: int| 0 <= k < avail_from(b, lo).len() ==> lo <= #[trigger] avail_from(b, lo)[k] <= 9,
    decreases 10 - lo,
{
    if lo == 10 {
        assert(avail_from(b, lo) =~= Seq::<u32>::empty());
    } else {
        lemma_avail_from_props(b, (lo + 1) as u32);
        let s = avail_from(b, lo);
        let rest = avail_from(b, (lo + 1) as u32);
        if cell_free(b, lo) {
            assert(s == seq![lo] + rest);
            assert(s[0] == lo);
            assert forall|k: int| 0 <= k < s.len() implies lo <= #[trigger] s[k] <= 9 by {
                if k > 0 {
                    assert(s[k] == rest[k - 1]);
                }
            }
            assert forall|c: u32| #[trigger] s.contains(c) implies (lo <= c <= 9 && cell_free(b, c)) by {
                let k = choose|k: int| 0 <= k < s.len() && s[k] == c;
                if k > 0 {
                    assert(rest[k - 1] == c);
                    assert(rest.contains(c));
                }
            }
            assert forall|c: u32| (lo <= c <= 9 && cell_free(b, c)) implies #[trigger] s.contains(c) by {
                if c == lo {
                    assert(s[0] == c);
                } else {
                    assert(rest.contains(c));
                    let k = choose|k: int| 0 <= k < rest.len() && rest[k] == c;
                    assert(s[k + 1] == c);
                }
            }
            assert forall|i: int, j: int| 0 <= i < j < s.len() implies s[i] < s[j] by {
                assert(s[j] == rest[j - 1]);
                if i > 0 {
                    assert(s[i] == rest[i - 1]);
                }
            }
        } else {
            assert forall|c: u32| (lo <= c <= 9 && cell_free(b, c)) implies #[trigger] s.contains(c) by {
                assert(c != lo);
                assert(rest.contains(c));
            }
        }
    }
}

/// The free cells and the two sides' holdings cover the grid exactly:
/// every valid cell lies in exactly one of the three collections, and the
/// available cells come in strictly ascending order without repeats.
pub proof fn lemma_board_partition(b: BoardModel)
    requires
        cells_wf(b.perfect_player, b.opponent),
    ensures
        forall|c: u32| #[trigger] valid_cell(c)
            ==> (spec_available(b).contains(c) || b.perfect_player.contains(c) || b.opponent.contains(c)),
        forall|c: u32| #[trigger] spec_available(b).contains(c)
            ==> valid_cell(c) && !b.perfect_player.contains(c) && !b.opponent.contains(c),
        forall|c: u32| #[trigger] b.perfect_player.contains(c) ==> valid_cell(c) && !b.opponent.contains(c),
        forall|c: u32| #[trigger] b.opponent.contains(c) ==> valid_cell(c) && !b.perfect_player.contains(c),
        forall|i: int, j: int| 0 <= i < j < spec_available(b).len()
            ==> spec_available(b)[i] != spec_available(b)[j],
{
    lemma_avail_from_props(b, 1);
    assert forall|c: u32| #[trigger] b.perfect_player.contains(c) implies valid_cell(c) by {
        let k = choose|k: int| 0 <= k < b.perfect_player.len() && b.perfect_player[k] == c;
        assert(valid_cell(b.perfect_player[k]));
    }
    assert forall|c: u32| #[trigger] b.opponent.contains(c) implies valid_cell(c) by {
        let k = choose|k: int| 0 <= k < b.opponent.len() && b.opponent[k] == c;
        assert(valid_cell(b.opponent[k]));
    }
}

} // verus!

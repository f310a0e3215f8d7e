//! A player that picks uniformly among the legal moves.

use vstd::prelude::*;

use rand::seq::SliceRandom;

use crate::board::{Board, spec_move_is_valid};
use crate::game::{GamePlayer, Move};

verus! {

/// A player that shuffles the legal moves and plays the first of the
/// shuffled order.
pub struct Random {}

impl Random {
    pub fn new() -> (r: Self) {
        Random {  }
    }
}

/// Relies on rand's `SliceRandom::shuffle`: it reorders the elements in
/// place, so what the vector holds afterwards is a permutation of what
/// it held before.
#[verifier::external_body]
fn shuffle_moves(moves: &mut Vec<Move>)
    ensures
        final(moves)@.len() == old(moves)@.len(),
        final(moves)@.to_multiset() == old(moves)@.to_multiset(),
{
    let mut rng = rand::thread_rng();
    moves.shuffle(&mut rng);
}

impl GamePlayer for Random {
    /// Some legal move, chosen by shuffling the list of legal moves.
    fn make_move(&self, board: &Board) -> (m: Move) {
        let mut avail = board.available_moves();
        let ghost orig = avail@;
        shuffle_moves(&mut avail);
        proof {
            broadcast use vstd::seq_lib::group_to_multiset_ensures;

            assert(avail@.contains(avail@[0]));
            assert(orig.to_multiset().count(avail@[0]) > 0);
            assert(orig.contains(avail@[0]));
            let j = choose|j: int| 0 <= j < orig.len() && orig[j] == avail@[0];
            assert(spec_move_is_valid(board@, orig[j].0 as int, orig[j].1 as int));
        }
        avail[0]
    }

    fn name(&self) -> (r: &'static str) {
        "Random"
    }
}

} // verus!

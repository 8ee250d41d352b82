//! Victory points and the end of a game.

use vstd::prelude::*;
use crate::types::PlayerId;

verus! {

/// The score a player needs to win.
#[derive(Clone, Copy, Debug, PartialEq, Eq, Structural)]
pub struct Score {
    pub n: i32,
}

/// The score a player needs to win: five.
pub fn target_score() -> (s: Score)
    ensures
        s.n == 5,
{
    Score { n: 5 }
}

/// Index of the winner among `scores`: the first entry with the highest
/// score, where that score is positive; `None` where no score is.
pub open spec fn winner_index(scores: Seq<(PlayerId, Score)>) -> Option<int>
    decreases scores.len(),
{
    if scores.len() == 0 {
        None
    } else {
        let rest = winner_index(scores.drop_last());
        let last = scores.last();
        match rest {
            Some(i) => if last.1.n > scores[i].1.n { Some(scores.len() - 1) } else { Some(i) },
            None => if last.1.n > 0 { Some(scores.len() - 1) } else { None },
        }
    }
}

/// The player with the highest positive score (the first one listed among
/// equal ones); player 0 where nobody scored.
pub fn winner_id(scores: &Vec<(PlayerId, Score)>) -> (id: PlayerId)
    ensures
        id == match winner_index(scores@) {
            Some(i) => scores@[i].0,
            None => PlayerId { id: 0 },
        },
{
    let mut winner_id = PlayerId { id: 0 };
    let mut winner_score = Score { n: 0 };
    let mut i: usize = 0;
    while i < scores.len()
        invariant
            0 <= i <= scores@.len(),
            winner_index(scores@.take(i as int)) matches Some(k) ==> 0 <= k < i && winner_id == scores@[k].0
                && winner_score == scores@[k].1 && winner_score.n > 0,
            winner_index(scores@.take(i as int)) is None ==> winner_id == (PlayerId { id: 0 }) && winner_score.n == 0,
        decreases scores@.len() - i,
    {
        proof {
            let t = scores@.take(i + 1);
            assert(t.drop_last() == scores@.take(i as int));
            match winner_index(scores@.take(i as int)) {
                Some(k) => { assert(t[k] == scores@[k]); },
                None => {},
            }
        }
        let (id, score) = scores[i];
        if score.n > winner_score.n {
            winner_id = id;
            winner_score = score;
        }
        i = i + 1;
    }
    proof { assert(scores@.take(scores@.len() as int) == scores@); }
    winner_id
}

/// Some player has reached the score that wins the game.
pub fn game_is_over(scores: &Vec<(PlayerId, Score)>) -> (over: bool)
    ensures
        over == exists|i: int| 0 <= i < scores@.len() && scores@[i].1.n >= 5,
{
    let target = target_score();
    let mut i: usize = 0;
    while i < scores.len()
        invariant
            target.n == 5,
            0 <= i <= scores@.len(),
            forall|k: int| 0 <= k < i ==> scores@[k].1.n < 5,
        decreases scores@.len() - i,
    {
        if scores[i].1.n >= target.n {
            return true;
        }
        i = i + 1;
    }
    false
}

} // verus!

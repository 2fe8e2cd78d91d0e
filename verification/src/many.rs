use vstd::prelude::*;
use rand::rngs::ThreadRng;
use rand::seq::SliceRandom;

use crate::game::play_one;
use crate::seqs::reversed;
use crate::setup::{count_penalty_cards, deal, deal_spec, penalty_count, played, GameState, StateModel};

verus! {

/// rand's thread-local generator, carried through unopened.
#[verifier::external_type_specification]
#[verifier::external_body]
pub struct ExThreadRng(rand::rngs::ThreadRng);

/// Shuffles the cards with rand's `SliceRandom::shuffle`, which only swaps
/// cards: the cards come back in some order, the same cards. Which order is
/// left to chance and not stated.
#[verifier::external_body]
fn shuffle_cards(rng: &mut ThreadRng, cards: &mut Vec<u8>)
    ensures
        final(cards)@.to_multiset() == old(cards)@.to_multiset(),
        final(cards)@.len() == old(cards)@.len(),
{
    cards.shuffle(rng);
}

/// A deck rotated right by `r`: its last `r` cards move to the front.
pub open spec fn rotate_right_spec(cards: Seq<u8>, r: int) -> Seq<u8> {
    cards.skip(cards.len() - r) + cards.take(cards.len() - r)
}

/// A deck rotated right by `r`.
pub fn rotated_right(cards: &Vec<u8>, r: usize) -> (v: Vec<u8>)
    requires
        r <= cards@.len(),
    ensures
        v@ == rotate_right_spec(cards@, r as int),
{
    let n = cards.len();
    let mut v: Vec<u8> = Vec::with_capacity(n);
    let mut i: usize = n - r;
    while i < n
        invariant
            n == cards@.len(),
            r <= n,
            n - r <= i <= n,
            v@ =~= cards@.subrange(n - r, i as int),
        decreases n - i,
    {
        v.push(cards[i]);
        i = i + 1;
    }
    let mut j: usize = 0;
    while j < n - r
        invariant
            n == cards@.len(),
            r <= n,
            j <= n - r,
            v@ =~= cards@.skip(n - r) + cards@.take(j as int),
        decreases n - r - j,
    {
        v.push(cards[j]);
        j = j + 1;
    }
    v
}

/// What one round of the search has found so far: the best step count, the
/// games that beat the best one in turn, and the number of games played.
pub type Progress = (nat, Seq<StateModel>, nat);

/// A dealt game played out; it is kept when it beats the best step count.
pub open spec fn try_game(s: StateModel, p: Progress) -> Progress {
    let g = played(s);
    if g.game.steps > p.0 {
        (g.game.steps, p.1.push(g), p.2)
    } else {
        p
    }
}

/// The four games dealt from a deck rotated right by `r`, when the first
/// player's deal holds 5 to 11 penalty cards: dealt as it is (twice), and
/// reversed with each player moving first.
pub open spec fn rotation_step(cards: Seq<u8>, r: int, p: Progress) -> Progress {
    let c = rotate_right_spec(cards, r);
    let first = deal_spec(c, false);
    let count = penalty_count(first.p1deal) as u8;
    if count > 11 || count < 5 {
        p
    } else {
        let p1 = try_game(first, p);
        let p2 = try_game(deal_spec(c, false), p1);
        let p3 = try_game(deal_spec(c.reverse(), false), p2);
        let p4 = try_game(deal_spec(c.reverse(), true), p3);
        (p4.0, p4.1, p4.2 + 4)
    }
}

/// The games of the rotations from `r` up to 50 of a deck.
pub open spec fn rotations(cards: Seq<u8>, r: int, p: Progress) -> Progress
    decreases 51 - r,
{
    if r >= 51 {
        p
    } else {
        rotations(cards, r + 1, rotation_step(cards, r, p))
    }
}

/// What a round of the search found: the games that beat the best step
/// count in turn, the best step count after the round, and the number of
/// games played.
pub struct RoundOutcome {
    pub improvements: Vec<GameState>,
    pub highscore: u16,
    pub games: u64,
}

/// The progress a round's outcome stands for.
pub open spec fn outcome_view(o: RoundOutcome) -> Progress {
    (o.highscore as nat, o.improvements@.map_values(|g: GameState| g@), o.games as nat)
}

/// Plays out a dealt game and keeps it when it beats the best step count.
fn try_deal(g: GameState, out: &mut RoundOutcome)
    requires
        g.game.steps == 0,
    ensures
        outcome_view(*final(out)) == try_game(g@, outcome_view(*old(out))),
{
    let mut g = g;
    play_one(&mut g.game);
    if g.game.steps > out.highscore {
        out.highscore = g.game.steps;
        let ghost before = out.improvements@;
        out.improvements.push(g);
        proof {
            assert(out.improvements@.map_values(|g: GameState| g@) =~= before.map_values(
                |g: GameState| g@,
            ).push(g@));
        }
    }
}

/// Plays the games of every rotation of a shuffled deck of at least 50
/// cards, from the best step count `highscore`.
pub fn play_rotations(newcards: &Vec<u8>, highscore: u16) -> (o: RoundOutcome)
    requires
        newcards@.len() >= 50,
    ensures
        outcome_view(o) == rotations(newcards@, 0, (highscore as nat, Seq::empty(), 0)),
        o.games <= 204,
{
    let mut out = RoundOutcome { improvements: Vec::new(), highscore, games: 0 };
    assert(outcome_view(out) =~= (highscore as nat, Seq::<StateModel>::empty(), 0nat));
    let mut r: usize = 0;
    while r < 51
        invariant
            newcards@.len() >= 50,
            r <= 51,
            out.games <= 4 * r,
            rotations(newcards@, r as int, outcome_view(out)) == rotations(
                newcards@,
                0,
                (highscore as nat, Seq::empty(), 0),
            ),
        decreases 51 - r,
    {
        let c = rotated_right(newcards, r);
        let p1g = deal(c.clone(), false);
        let p1_pen_card_count = count_penalty_cards(&p1g.p1deal);
        if p1_pen_card_count > 11 || p1_pen_card_count < 5 {
            r = r + 1;
            continue;
        }
        try_deal(p1g, &mut out);
        try_deal(deal(c.clone(), false), &mut out);
        let rev = reversed(&c);
        try_deal(deal(rev.clone(), false), &mut out);
        try_deal(deal(rev, true), &mut out);
        out.games = out.games + 4;
        r = r + 1;
    }
    out
}

/// One round of the search: shuffles the deck and plays the games of its
/// rotations. Gives the shuffled deck, which holds the same cards, and what
/// the round found.
pub fn play_many_round(rng: &mut ThreadRng, cards: &Vec<u8>, highscore: u16) -> (r: (Vec<u8>, RoundOutcome))
    requires
        cards@.len() >= 50,
    ensures
        r.0@.to_multiset() == cards@.to_multiset(),
        r.0@.len() == cards@.len(),
        outcome_view(r.1) == rotations(r.0@, 0, (highscore as nat, Seq::empty(), 0)),
        r.1.games <= 204,
{
    let mut newcards = cards.clone();
    assert(newcards@ =~= cards@);
    shuffle_cards(rng, &mut newcards);
    let outcome = play_rotations(&newcards, highscore);
    (newcards, outcome)
}

/// The games a round of the search keeps are four games of some rotation
/// `r` of the deck whose first deal holds 5 to 11 penalty cards.
pub open spec fn rotation_kept(cards: Seq<u8>, r: int) -> bool {
    let count = penalty_count(deal_spec(rotate_right_spec(cards, r), false).p1deal) as u8;
    5 <= count <= 11
}

/// A game dealt from the rotation `r` of a deck (as it is, or reversed with
/// either player first), played out.
pub open spec fn rotation_game(cards: Seq<u8>, r: int, g: StateModel) -> bool {
    let c = rotate_right_spec(cards, r);
    ||| g == played(deal_spec(c, false))
    ||| g == played(deal_spec(c.reverse(), false))
    ||| g == played(deal_spec(c.reverse(), true))
}

/// What holds of a search's progress from the best step count `start`: the
/// kept games take strictly more steps in turn, the first more than `start`;
/// the best step count is that of the last kept game, or `start`; and each
/// kept game is a game of a rotation the search plays.
pub open spec fn progress_rises(cards: Seq<u8>, start: nat, p: Progress) -> bool {
    &&& forall|i: int, j: int|
        0 <= i < j < p.1.len() ==> (#[trigger] p.1[i]).game.steps < (#[trigger] p.1[j]).game.steps
    &&& p.1.len() == 0 ==> p.0 == start
    &&& p.1.len() > 0 ==> p.1[0].game.steps > start && p.0 == p.1.last().game.steps
    &&& forall|i: int| 0 <= i < p.1.len() ==> #[trigger] kept_from(cards, p.1[i])
}

/// A game of some rotation of the deck that the search plays.
pub open spec fn kept_from(cards: Seq<u8>, g: StateModel) -> bool {
    exists|r: int| 0 <= r < 51 && rotation_kept(cards, r) && #[trigger] rotation_game(cards, r, g)
}

proof fn lemma_try_game_rises(cards: Seq<u8>, start: nat, r: int, s: StateModel, p: Progress)
    requires
        progress_rises(cards, start, p),
        0 <= r < 51,
        rotation_kept(cards, r),
        rotation_game(cards, r, played(s)),
    ensures
        progress_rises(cards, start, try_game(s, p)),
        try_game(s, p).2 == p.2,
{
    let q = try_game(s, p);
    if q.1.len() > p.1.len() {
        assert forall|i: int| 0 <= i < q.1.len() implies #[trigger] kept_from(cards, q.1[i]) by {
            if i < p.1.len() {
                assert(q.1[i] == p.1[i]);
            } else {
                assert(rotation_game(cards, r, q.1[i]));
            }
        }
        assert forall|i: int, j: int| 0 <= i < j < q.1.len() implies (#[trigger] q.1[i]).game.steps
            < (#[trigger] q.1[j]).game.steps by {
            if j == p.1.len() {
                if p.1.len() > 0 {
                    assert(p.1[i].game.steps <= p.1.last().game.steps);
                }
            } else {
                assert(q.1[i] == p.1[i]);
                assert(q.1[j] == p.1[j]);
            }
        }
    }
}

proof fn lemma_rotation_step_rises(cards: Seq<u8>, start: nat, r: int, p: Progress)
    requires
        progress_rises(cards, start, p),
        0 <= r < 51,
    ensures
        progress_rises(cards, start, rotation_step(cards, r, p)),
{
    let c = rotate_right_spec(cards, r);
    if rotation_kept(cards, r) {
        let p1 = try_game(deal_spec(c, false), p);
        let p2 = try_game(deal_spec(c, false), p1);
        let p3 = try_game(deal_spec(c.reverse(), false), p2);
        lemma_try_game_rises(cards, start, r, deal_spec(c, false), p);
        lemma_try_game_rises(cards, start, r, deal_spec(c, false), p1);
        lemma_try_game_rises(cards, start, r, deal_spec(c.reverse(), false), p2);
        lemma_try_game_rises(cards, start, r, deal_spec(c.reverse(), true), p3);
    }
}

proof fn lemma_rotations_rise(cards: Seq<u8>, start: nat, r: int, p: Progress)
    requires
        progress_rises(cards, start, p),
        0 <= r,
    ensures
        progress_rises(cards, start, rotations(cards, r, p)),
    decreases 51 - r,
{
    if r < 51 {
        lemma_rotation_step_rises(cards, start, r, p);
        lemma_rotations_rise(cards, start, r + 1, rotation_step(cards, r, p));
    }
}

/// A round of the search keeps games that beat the best step count in turn,
/// each strictly better than the one before, and each a game of a rotation
/// whose first deal holds 5 to 11 penalty cards; the best step count after
/// the round is that of the last game kept.
pub proof fn lemma_round_rises(cards: Seq<u8>, highscore: nat)
    ensures
        progress_rises(cards, highscore, rotations(cards, 0, (highscore, Seq::empty(), 0))),
{
    lemma_rotations_rise(cards, highscore, 0, (highscore, Seq::empty(), 0));
}

/// The number of rotations below `n` whose first deal holds 5 to 11
/// penalty cards.
pub open spec fn kept_count(cards: Seq<u8>, n: int) -> nat
    decreases n,
{
    if n <= 0 {
        0
    } else {
        kept_count(cards, n - 1) + if rotation_kept(cards, n - 1) {
            1nat
        } else {
            0nat
        }
    }
}

proof fn lemma_try_game_counts(s: StateModel, p: Progress)
    ensures
        try_game(s, p).2 == p.2,
        try_game(s, p).0 >= p.0,
        try_game(s, p).0 >= played(s).game.steps,
{
}

proof fn lemma_rotations_count(cards: Seq<u8>, r: int, p: Progress)
    requires
        0 <= r <= 51,
    ensures
        rotations(cards, r, p).2 == p.2 + 4 * (kept_count(cards, 51) - kept_count(cards, r)),
        rotations(cards, r, p).0 >= p.0,
        forall|q: int|
            r <= q < 51 && rotation_kept(cards, q) ==> {
                let c = rotate_right_spec(cards, q);
                &&& rotations(cards, r, p).0 >= played(deal_spec(c, false)).game.steps
                &&& rotations(cards, r, p).0 >= played(deal_spec(c.reverse(), false)).game.steps
                &&& rotations(cards, r, p).0 >= played(deal_spec(c.reverse(), true)).game.steps
            },
    decreases 51 - r,
{
    if r < 51 {
        let n = rotation_step(cards, r, p);
        let c = rotate_right_spec(cards, r);
        if rotation_kept(cards, r) {
            let p1 = try_game(deal_spec(c, false), p);
            let p2 = try_game(deal_spec(c, false), p1);
            let p3 = try_game(deal_spec(c.reverse(), false), p2);
            lemma_try_game_counts(deal_spec(c, false), p);
            lemma_try_game_counts(deal_spec(c, false), p1);
            lemma_try_game_counts(deal_spec(c.reverse(), false), p2);
            lemma_try_game_counts(deal_spec(c.reverse(), true), p3);
        }
        lemma_rotations_count(cards, r + 1, n);
        assert(kept_count(cards, r + 1) == kept_count(cards, r) + if rotation_kept(cards, r) {
            1nat
        } else {
            0nat
        });
        lemma_kept_count_bound(cards, r + 1);
    } else {
    }
}

proof fn lemma_kept_count_bound(cards: Seq<u8>, n: int)
    requires
        0 <= n <= 51,
    ensures
        kept_count(cards, n) <= kept_count(cards, 51),
    decreases 51 - n,
{
    if n < 51 {
        lemma_kept_count_bound(cards, n + 1);
    }
}

/// A round plays every rotation of the deck up to the 51st whose first deal
/// holds 5 to 11 penalty cards: it counts four games for each of them, and
/// its best step count is at least the starting one and at least that of
/// every game of each of those rotations.
pub proof fn lemma_round_plays_every_kept_rotation(cards: Seq<u8>, highscore: nat)
    ensures
        ({
            let q = rotations(cards, 0, (highscore, Seq::empty(), 0));
            &&& q.2 == 4 * kept_count(cards, 51)
            &&& q.0 >= highscore
            &&& forall|r: int|
                0 <= r < 51 && rotation_kept(cards, r) ==> {
                    let c = rotate_right_spec(cards, r);
                    &&& q.0 >= played(deal_spec(c, false)).game.steps
                    &&& q.0 >= played(deal_spec(c.reverse(), false)).game.steps
                    &&& q.0 >= played(deal_spec(c.reverse(), true)).game.steps
                }
        }),
{
    lemma_rotations_count(cards, 0, (highscore, Seq::empty(), 0));
}

/// The search reports its progress whenever the games played reach a
/// multiple of this.
pub const REPORT_EVERY: u64 = 1000000;

/// The search stops once more games than this have been played.
pub const GAMES_LIMIT: u64 = 10000000000;

/// Where a search stands between rounds: the games played, the best step
/// count, and the game that reached it (or the first deal, before any).
pub struct SearchState {
    pub counter: u64,
    pub highscore: u16,
    pub best_game: GameState,
}

/// What to do after a round: print a progress report, and stop.
pub struct RoundReport {
    pub report: bool,
    pub stop: bool,
}

/// A search before its first round: nothing played, the best game the
/// deck's first deal, unplayed.
pub fn start_search(cards: &Vec<u8>) -> (s: SearchState)
    requires
        cards@.len() >= 26,
    ensures
        s.counter == 0,
        s.highscore == 0,
        s.best_game@ == deal_spec(cards@, false),
{
    SearchState { counter: 0, highscore: 0, best_game: deal(cards.clone(), false) }
}

/// Takes a round's outcome into the search: the games are counted, the best
/// step count and game are the round's last kept game when it kept one;
/// then says whether to report and whether to stop.
pub fn finish_round(state: &mut SearchState, outcome: RoundOutcome) -> (r: RoundReport)
    requires
        old(state).counter <= GAMES_LIMIT,
        outcome.games <= 204,
    ensures
        final(state).counter == old(state).counter + outcome.games,
        final(state).highscore == outcome.highscore,
        final(state).best_game@ == if outcome.improvements@.len() > 0 {
            outcome.improvements@.last()@
        } else {
            old(state).best_game@
        },
        r.report == (final(state).counter % REPORT_EVERY == 0),
        r.stop == (final(state).counter > GAMES_LIMIT),
{
    let RoundOutcome { improvements, highscore, games } = outcome;
    let mut improvements = improvements;
    state.counter = state.counter + games;
    state.highscore = highscore;
    match improvements.pop() {
        Some(best) => {
            state.best_game = best;
        },
        None => {},
    }
    RoundReport { report: state.counter % REPORT_EVERY == 0, stop: state.counter > GAMES_LIMIT }
}

} // verus!

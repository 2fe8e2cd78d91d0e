use vstd::prelude::*;

use crate::seqs::reverse_in_place;

verus! {

/// The number of steps after which a game is cut off as a record breaker.
pub const STEP_LIMIT: u16 = 8500;

/// What a game is, as mathematics: the active player's hand, the other
/// player's hand and the pot (each with its top card last), the tribute still
/// owed, the number of cards played so far, and whether the first player is
/// the active one.
pub struct GameModel {
    pub p1hand: Seq<u8>,
    pub p2hand: Seq<u8>,
    pub pot: Seq<u8>,
    pub penalty: u8,
    pub steps: nat,
    pub p1active: bool,
}

/// A game in progress. `p1hand` is always the hand of the player to move.
pub struct Game {
    pub p1hand: Vec<u8>,
    pub p2hand: Vec<u8>,
    pub pot: Vec<u8>,
    pub penalty: u8,
    pub steps: u16,
    pub p1active: bool,
}

impl View for Game {
    type V = GameModel;

    open spec fn view(&self) -> GameModel {
        GameModel {
            p1hand: self.p1hand@,
            p2hand: self.p2hand@,
            pot: self.pot@,
            penalty: self.penalty,
            steps: self.steps as nat,
            p1active: self.p1active,
        }
    }
}

/// The other player becomes the active one.
pub open spec fn swapped(g: GameModel) -> GameModel {
    GameModel { p1hand: g.p2hand, p2hand: g.p1hand, p1active: !g.p1active, ..g }
}

/// A card goes onto the pot and the other player moves.
pub open spec fn after_boring(g: GameModel, card: u8) -> GameModel {
    swapped(GameModel { pot: g.pot.push(card), ..g })
}

/// A penalty card sets the tribute owed to its value, goes onto the pot, and
/// the other player moves.
pub open spec fn after_penalty(g: GameModel, card: u8) -> GameModel {
    after_boring(GameModel { penalty: card, ..g }, card)
}

/// A plain card paid as tribute goes onto the pot. When the last tribute is
/// paid, the other player takes the pot under their hand (the card played
/// first ends at the bottom) and moves next.
pub open spec fn after_tribute(g: GameModel, card: u8) -> GameModel
    recommends
        g.penalty > 0,
{
    let pot = g.pot.push(card);
    let penalty = (g.penalty - 1) as u8;
    if penalty == 0 {
        swapped(GameModel { p2hand: pot.reverse() + g.p2hand, pot: Seq::empty(), penalty, ..g })
    } else {
        GameModel { pot, penalty, ..g }
    }
}

/// The game after the active player plays their top card, before the step
/// count goes up.
pub open spec fn after_card(g: GameModel) -> GameModel
    recommends
        g.p1hand.len() > 0,
{
    let card = g.p1hand.last();
    let h = GameModel { p1hand: g.p1hand.drop_last(), ..g };
    if card > 0 {
        after_penalty(h, card)
    } else if h.penalty > 0 {
        after_tribute(h, card)
    } else {
        after_boring(h, card)
    }
}

/// One step of the game: the active player plays their top card.
pub open spec fn step(g: GameModel) -> GameModel
    recommends
        g.p1hand.len() > 0,
{
    let h = after_card(g);
    GameModel { steps: h.steps + 1, ..h }
}

/// The game played out: cards are played until the active player has none
/// left or more than `STEP_LIMIT` steps have been played.
pub open spec fn play(g: GameModel) -> GameModel
    decreases 8501 - g.steps,
{
    if g.p1hand.len() == 0 {
        g
    } else {
        let n = step(g);
        if n.steps > STEP_LIMIT {
            n
        } else {
            play(n)
        }
    }
}

/// Two hands, the one that moves (or has just won a trick) first.
pub type Deal = (Seq<u8>, Seq<u8>);

/// The positions to record after a tribute is paid in `g`: when the battle
/// ends and the winner, now to move, holds 26 cards, the winner's hand and
/// the other hand.
pub open spec fn tribute_record(g: GameModel, card: u8) -> (GameModel, Seq<Deal>)
    recommends
        g.penalty > 0,
{
    let pot = g.pot.push(card);
    let penalty = (g.penalty - 1) as u8;
    if penalty == 0 {
        let n = GameModel {
            p1hand: pot.reverse() + g.p2hand,
            p2hand: g.p1hand,
            pot: Seq::empty(),
            penalty,
            p1active: !g.p1active,
            ..g
        };
        if n.p1hand.len() == 26 {
            (n, seq![(n.p1hand, n.p2hand)])
        } else {
            (n, Seq::empty())
        }
    } else {
        (GameModel { pot, penalty, ..g }, Seq::empty())
    }
}

/// One step of the game, together with the positions it records.
pub open spec fn step_record(g: GameModel) -> (GameModel, Seq<Deal>)
    recommends
        g.p1hand.len() > 0,
{
    let card = g.p1hand.last();
    let h = GameModel { p1hand: g.p1hand.drop_last(), ..g };
    let (n, recorded) = if card > 0 {
        (after_penalty(h, card), Seq::empty())
    } else if h.penalty > 0 {
        tribute_record(h, card)
    } else {
        (after_boring(h, card), Seq::empty())
    };
    (GameModel { steps: n.steps + 1, ..n }, recorded)
}

/// The game played out as `play` does, with the positions recorded on the
/// way appended to `deals`.
pub open spec fn play_record(g: GameModel, deals: Seq<Deal>) -> (GameModel, Seq<Deal>)
    decreases 8501 - g.steps,
{
    if g.p1hand.len() == 0 {
        (g, deals)
    } else {
        let (n, recorded) = step_record(g);
        if n.steps > STEP_LIMIT {
            (n, deals + recorded)
        } else {
            play_record(n, deals + recorded)
        }
    }
}

impl Game {
    /// Hands the move to the other player.
    pub fn swap(&mut self)
        ensures
            final(self)@ == swapped(old(self)@),
    {
        std::mem::swap(&mut self.p1hand, &mut self.p2hand);
        self.p1active = !self.p1active;
    }
}

/// Plays a card onto the pot and hands the move over.
pub fn boring_card(g: &mut Game, card: u8)
    ensures
        final(g)@ == after_boring(old(g)@, card),
{
    g.pot.push(card);
    g.swap();
}

/// Plays a penalty card: the other player now owes `card` cards of tribute.
pub fn penalty_card(g: &mut Game, card: u8)
    ensures
        final(g)@ == after_penalty(old(g)@, card),
{
    g.penalty = card;
    boring_card(g, card);
}

/// Pays one card of tribute; the last one hands the pot to the other player.
pub fn pay_tribute(g: &mut Game, card: u8)
    requires
        old(g).penalty > 0,
    ensures
        final(g)@ == after_tribute(old(g)@, card),
{
    g.pot.push(card);
    g.penalty = g.penalty - 1;
    if g.penalty == 0 {
        reverse_in_place(&mut g.pot);
        g.pot.append(&mut g.p2hand);
        g.p2hand.append(&mut g.pot);
        g.swap();
    }
}

/// Plays the game out from its current position.
pub fn play_one(g: &mut Game)
    requires
        old(g).p1hand@.len() > 0 ==> old(g).steps < u16::MAX,
    ensures
        final(g)@ == play(old(g)@),
{
    let ghost target = play(g@);
    loop
        invariant_except_break
            play(g@) == target,
            g@.p1hand.len() > 0 ==> g.steps < u16::MAX,
        ensures
            g@ == target,
        decreases u16::MAX - g.steps,
    {
        match g.p1hand.pop() {
            None => {
                break;
            },
            Some(card) => {
                if card > 0 {
                    penalty_card(g, card);
                } else {
                    if g.penalty > 0 {
                        pay_tribute(g, card);
                    } else {
                        boring_card(g, card);
                    }
                }
                g.steps = g.steps + 1;
                if g.steps > STEP_LIMIT {
                    break;
                }
            },
        }
    }
}

/// Pays one card of tribute as `pay_tribute` does, and records the winner's
/// hand and the other hand when the battle ends with the winner holding 26
/// cards.
pub fn pay_tribute_check(g: &mut Game, card: u8, deals: &mut Vec<(Vec<u8>, Vec<u8>)>)
    requires
        old(g).penalty > 0,
    ensures
        (final(g)@, final(deals).deep_view()) == ({
            let (n, recorded) = tribute_record(old(g)@, card);
            (n, old(deals).deep_view() + recorded)
        }),
{
    g.pot.push(card);
    g.penalty = g.penalty - 1;
    if g.penalty == 0 {
        reverse_in_place(&mut g.pot);
        g.pot.append(&mut g.p2hand);
        g.p2hand.append(&mut g.pot);
        g.swap();
        if g.p1hand.len() == 26 {
            let ghost before = deals.deep_view();
            deals.push((g.p1hand.clone(), g.p2hand.clone()));
            assert(deals.deep_view() =~= before.push(deals@.last().deep_view()));
            assert(deals@.last().0.deep_view() =~= deals@.last().0@);
            assert(deals@.last().1.deep_view() =~= deals@.last().1@);
        }
    }
    assert(deals.deep_view() =~= old(deals).deep_view() + tribute_record(old(g)@, card).1);
}

/// Plays the game out as `play_one` does, appending to `deals` every
/// position in which a battle ends with the winner holding 26 cards.
pub fn play_one_check(g: &mut Game, deals: &mut Vec<(Vec<u8>, Vec<u8>)>)
    requires
        old(g).p1hand@.len() > 0 ==> old(g).steps < u16::MAX,
    ensures
        (final(g)@, final(deals).deep_view()) == play_record(old(g)@, old(deals).deep_view()),
{
    let ghost target = play_record(g@, deals.deep_view());
    loop
        invariant_except_break
            play_record(g@, deals.deep_view()) == target,
            g@.p1hand.len() > 0 ==> g.steps < u16::MAX,
        ensures
            (g@, deals.deep_view()) == target,
        decreases u16::MAX - g.steps,
    {
        match g.p1hand.pop() {
            None => {
                break;
            },
            Some(card) => {
                if card > 0 {
                    penalty_card(g, card);
                } else {
                    if g.penalty > 0 {
                        pay_tribute_check(g, card, deals);
                    } else {
                        boring_card(g, card);
                    }
                }
                g.steps = g.steps + 1;
                if g.steps > STEP_LIMIT {
                    break;
                }
            },
        }
    }
}

} // verus!

use vstd::prelude::*;
use vstd::multiset::Multiset;

use crate::game::{after_tribute, play, play_record, step, step_record, swapped, tribute_record, Deal, GameModel, STEP_LIMIT};
use crate::seqs::lemma_reverse_multiset;
use crate::districk::pair_cards;

verus! {

broadcast use vstd::seq_lib::group_to_multiset_ensures, vstd::multiset::group_multiset_axioms;

/// All the cards of a game: both hands and the pot.
pub open spec fn cards_in_play(g: GameModel) -> Multiset<u8> {
    g.p1hand.to_multiset().add(g.p2hand.to_multiset()).add(g.pot.to_multiset())
}

/// Handing the move over twice gives the game back.
pub proof fn lemma_swap_involution(g: GameModel)
    ensures
        swapped(swapped(g)) == g,
{
}

/// Playing a card moves it from the active hand to the pot or, at the end of
/// a battle, the pot to a hand: no card is lost or made.
pub proof fn lemma_step_keeps_cards(g: GameModel)
    requires
        g.p1hand.len() > 0,
    ensures
        cards_in_play(step(g)) =~= cards_in_play(g),
        step(g).steps == g.steps + 1,
{
    let card = g.p1hand.last();
    let rest = g.p1hand.drop_last();
    assert(g.p1hand =~= rest.push(card));
    let pot = g.pot.push(card);
    let h = GameModel { p1hand: g.p1hand.drop_last(), ..g };
    if card == 0 && h.penalty > 0 && (h.penalty - 1) as u8 == 0 {
        vstd::seq_lib::lemma_multiset_commutative(pot.reverse(), g.p2hand);
        lemma_reverse_multiset(pot);
    }
}

/// A played-out game holds the cards it started with.
pub proof fn lemma_play_keeps_cards(g: GameModel)
    ensures
        cards_in_play(play(g)) == cards_in_play(g),
    decreases 8501 - g.steps,
{
    if g.p1hand.len() > 0 {
        lemma_step_keeps_cards(g);
        let n = step(g);
        if n.steps <= STEP_LIMIT {
            lemma_play_keeps_cards(n);
        }
    }
}

/// A game stops only when the player to move has no cards or the step limit
/// is passed; steps only go up, one per card, and a game started within the
/// limit ends at most one step past it.
pub proof fn lemma_play_stops(g: GameModel)
    ensures
        play(g).p1hand.len() == 0 || play(g).steps > STEP_LIMIT,
        play(g).steps >= g.steps,
        g.steps <= STEP_LIMIT ==> play(g).steps <= STEP_LIMIT + 1,
    decreases 8501 - g.steps,
{
    if g.p1hand.len() > 0 {
        lemma_step_keeps_cards(g);
        let n = step(g);
        if n.steps <= STEP_LIMIT {
            lemma_play_stops(n);
        }
    }
}

/// Recording positions along the way does not change how the game is
/// played: the game `play_one_check` leaves is the one `play_one` leaves.
pub proof fn lemma_play_record_agrees(g: GameModel, deals: Seq<Deal>)
    ensures
        play_record(g, deals).0 == play(g),
    decreases 8501 - g.steps,
{
    if g.p1hand.len() > 0 {
        let card = g.p1hand.last();
        let h = GameModel { p1hand: g.p1hand.drop_last(), ..g };
        if card == 0 && h.penalty > 0 {
            assert(tribute_record(h, card).0 == after_tribute(h, card));
        }
        assert(step_record(g).0 == step(g));
        let (n, recorded) = step_record(g);
        if n.steps <= STEP_LIMIT {
            lemma_play_record_agrees(n, deals + recorded);
        }
    }
}

/// The positions one step records have the winner, listed first, holding 26
/// cards, and the two hands hold every card in play.
pub proof fn lemma_step_record_cards(g: GameModel)
    requires
        g.p1hand.len() > 0,
    ensures
        step_record(g).0 == step(g),
        forall|j: int|
            0 <= j < step_record(g).1.len() ==> {
                &&& (#[trigger] step_record(g).1[j]).0.len() == 26
                &&& pair_cards(step_record(g).1[j]) =~= cards_in_play(g)
            },
{
    let card = g.p1hand.last();
    let h = GameModel { p1hand: g.p1hand.drop_last(), ..g };
    if card == 0 && h.penalty > 0 {
        assert(tribute_record(h, card).0 == after_tribute(h, card));
    }
    assert(step_record(g).0 == step(g));
    lemma_step_keeps_cards(g);
    let recorded = step_record(g).1;
    if recorded.len() > 0 {
        let n = step(g);
        assert(n.pot =~= Seq::<u8>::empty());
        assert(recorded[0] == (n.p1hand, n.p2hand));
        assert(Seq::<u8>::empty().to_multiset() =~= Multiset::<u8>::empty());
    }
}

/// Every position recorded while playing has the winner, listed first,
/// holding 26 cards, and its two hands hold exactly the cards of the game.
pub proof fn lemma_play_record_26s(g: GameModel, deals: Seq<Deal>)
    ensures
        play_record(g, deals).1.len() >= deals.len(),
        play_record(g, deals).1.take(deals.len() as int) == deals,
        forall|i: int|
            deals.len() <= i < play_record(g, deals).1.len() ==> {
                &&& (#[trigger] play_record(g, deals).1[i]).0.len() == 26
                &&& pair_cards(play_record(g, deals).1[i]) == cards_in_play(g)
            },
    decreases 8501 - g.steps,
{
    if g.p1hand.len() > 0 {
        let (n, recorded) = step_record(g);
        lemma_step_record_cards(g);
        lemma_step_keeps_cards(g);
        let next = deals + recorded;
        if n.steps <= STEP_LIMIT {
            lemma_play_record_26s(n, next);
            let all = play_record(g, deals).1;
            assert(all.take(next.len() as int) == next);
            assert(all.take(deals.len() as int) =~= next.take(deals.len() as int));
            assert forall|i: int| deals.len() <= i < all.len() implies {
                &&& (#[trigger] all[i]).0.len() == 26
                &&& pair_cards(all[i]) == cards_in_play(g)
            } by {
                if i < next.len() {
                    assert(all[i] == all.take(next.len() as int)[i]);
                    assert(next[i] == recorded[i - deals.len()]);
                }
            }
        } else {
            let all = play_record(g, deals).1;
            assert(all =~= next);
            assert(all.take(deals.len() as int) =~= deals);
            assert forall|i: int| deals.len() <= i < all.len() implies {
                &&& (#[trigger] all[i]).0.len() == 26
                &&& pair_cards(all[i]) == cards_in_play(g)
            } by {
                assert(all[i] == recorded[i - deals.len()]);
            }
        }
    } else {
        assert(deals.take(deals.len() as int) =~= deals);
    }
}

/// Recording does not depend on what was recorded before: playing with some
/// positions already recorded appends exactly the positions playing from
/// nothing recorded gives, and leaves the same game.
pub proof fn lemma_play_record_prefix(g: GameModel, deals: Seq<Deal>)
    ensures
        play_record(g, deals).1 == deals + play_record(g, Seq::empty()).1,
        play_record(g, deals).0 == play_record(g, Seq::empty()).0,
    decreases 8501 - g.steps,
{
    if g.p1hand.len() > 0 {
        let (n, recorded) = step_record(g);
        if n.steps <= STEP_LIMIT {
            lemma_play_record_prefix(n, deals + recorded);
            lemma_play_record_prefix(n, Seq::<Deal>::empty() + recorded);
            assert(Seq::<Deal>::empty() + recorded =~= recorded);
            assert(deals + recorded + play_record(n, Seq::empty()).1 =~= deals + (recorded
                + play_record(n, Seq::empty()).1));
        } else {
            assert(Seq::<Deal>::empty() + recorded =~= recorded);
        }
    } else {
        assert(deals + Seq::<Deal>::empty() =~= deals);
    }
}

/// A step records a position exactly when it plays a plain card that pays
/// the last card of tribute owed and the winner then holds 26 cards: the
/// winner's hand, now to move, and the other hand.
pub proof fn lemma_step_records_when(g: GameModel)
    requires
        g.p1hand.len() > 0,
    ensures
        step_record(g).1.len() > 0 <==> (g.p1hand.last() == 0 && g.penalty == 1 && g.pot.len() + 1
            + g.p2hand.len() == 26),
        step_record(g).1.len() > 0 ==> step_record(g).1 == seq![(step(g).p1hand, step(g).p2hand)],
        step_record(g).1.len() <= 1,
{
    lemma_step_record_cards(g);
}

/// Playing on records the positions of this step, then those of the rest of
/// the game: every battle end with a 26-card winner is recorded, in order.
pub proof fn lemma_play_record_steps(g: GameModel, deals: Seq<Deal>)
    requires
        g.p1hand.len() > 0,
        step(g).steps <= STEP_LIMIT,
    ensures
        play_record(g, deals).1 == deals + step_record(g).1 + play_record(step(g), Seq::empty()).1,
{
    lemma_step_record_cards(g);
    lemma_play_record_prefix(step(g), deals + step_record(g).1);
}

} // verus!

use vstd::prelude::*;
use vstd::multiset::Multiset;

use crate::districk::{districk_spec, lemma_districk_keeps_cards, pair_cards};
use crate::seqs::lemma_reverse_multiset;
use crate::game::Deal;
use crate::untrick::{lemma_untrick_recombines, untrick_fits, untrick_spec, untrickable_spec};

verus! {

/// Walking a position back trick by trick, with at most `fuel` nested
/// steps: `None` when the walk needs more, or when taking a trick apart would
/// overflow its counts. The first hand is the one that just won a trick; a
/// position is walked back only when that hand can have just won one, or
/// holds the whole deck. Each candidate trick is taken back, and the position
/// found is listed, followed by everything found walking back from it.
pub closed spec fn unplay_fuel(hand_one: Seq<u8>, hand_two: Seq<u8>, fuel: nat) -> Option<Seq<Deal>>
    decreases fuel, 0nat,
{
    if fuel == 0 {
        None
    } else if !untrickable_spec(hand_one) && hand_one.len() < 52 {
        Some(Seq::empty())
    } else if !untrick_fits(0, 0, hand_one.reverse(), 0) {
        None
    } else {
        unplay_tricks(untrick_spec(hand_one), hand_two, (fuel - 1) as nat)
    }
}

/// Walking back each of the candidate tricks `tricks` in turn, the other
/// player holding `losing_hand`, with at most `fuel` nested steps.
pub closed spec fn unplay_tricks(tricks: Seq<Deal>, losing_hand: Seq<u8>, fuel: nat) -> Option<Seq<Deal>>
    decreases fuel, tricks.len(),
{
    if tricks.len() == 0 {
        Some(Seq::empty())
    } else {
        let d = districk_spec(losing_hand, tricks[0].0, tricks[0].1);
        match unplay_fuel(d.0, d.1, fuel) {
            None => None,
            Some(sub) => match unplay_tricks(tricks.drop_first(), losing_hand, fuel) {
                None => None,
                Some(rest) => Some(seq![d] + sub + rest),
            },
        }
    }
}

/// The walk back from a position comes to an end without overflow.
pub closed spec fn unplay_returns(hand_one: Seq<u8>, hand_two: Seq<u8>) -> bool {
    exists|fuel: nat| #[trigger] unplay_fuel(hand_one, hand_two, fuel) is Some
}

/// The least number of nested steps the walk back from a position needs.
pub closed spec fn unplay_depth(hand_one: Seq<u8>, hand_two: Seq<u8>) -> nat {
    choose|fuel: nat|
        #[trigger] unplay_fuel(hand_one, hand_two, fuel) is Some && forall|g: nat|
            g < fuel ==> #[trigger] unplay_fuel(hand_one, hand_two, g) is None
}

/// Every position found walking back from a position, in the order found.
pub closed spec fn unplay_spec(hand_one: Seq<u8>, hand_two: Seq<u8>) -> Seq<Deal> {
    unplay_fuel(hand_one, hand_two, unplay_depth(hand_one, hand_two))->Some_0
}

/// Walking back with no steps left never ends.
pub proof fn lemma_unplay_no_fuel(hand_one: Seq<u8>, hand_two: Seq<u8>)
    ensures
        unplay_fuel(hand_one, hand_two, 0) is None,
{
}

/// Walking back with a step left: nothing for a hand that cannot have just
/// won a trick (short of the whole deck); no end when taking its tricks
/// apart overflows; otherwise each candidate trick taken back.
pub proof fn lemma_unplay_fuel_step(hand_one: Seq<u8>, hand_two: Seq<u8>, fuel: nat)
    requires
        fuel > 0,
    ensures
        unplay_fuel(hand_one, hand_two, fuel) == if !untrickable_spec(hand_one) && hand_one.len() < 52 {
            Some(Seq::<Deal>::empty())
        } else if !untrick_fits(0, 0, hand_one.reverse(), 0) {
            None
        } else {
            unplay_tricks(untrick_spec(hand_one), hand_two, (fuel - 1) as nat)
        },
{
}

/// Walking back some candidate tricks: the first one's walk, then the
/// others', ending only when all of them end.
pub proof fn lemma_unplay_tricks_step(tricks: Seq<Deal>, losing_hand: Seq<u8>, fuel: nat)
    requires
        tricks.len() > 0,
    ensures
        ({
            let d = districk_spec(losing_hand, tricks[0].0, tricks[0].1);
            let sub = unplay_fuel(d.0, d.1, fuel);
            let rest = unplay_tricks(tricks.drop_first(), losing_hand, fuel);
            unplay_tricks(tricks, losing_hand, fuel) == if sub is Some && rest is Some {
                Some(seq![d] + sub->Some_0 + rest->Some_0)
            } else {
                None::<Seq<Deal>>
            }
        }),
{
}

/// A walk ends within `fuel` steps exactly when it ends at all and its
/// least number of steps is at most `fuel`.
pub proof fn lemma_unplay_fuel_enough(hand_one: Seq<u8>, hand_two: Seq<u8>, fuel: nat)
    ensures
        unplay_fuel(hand_one, hand_two, fuel) is Some <==> (unplay_returns(hand_one, hand_two)
            && unplay_depth(hand_one, hand_two) <= fuel),
        unplay_fuel(hand_one, hand_two, fuel) is Some ==> unplay_fuel(hand_one, hand_two, fuel)
            == Some(unplay_spec(hand_one, hand_two)),
{
    if unplay_fuel(hand_one, hand_two, fuel) is Some {
        lemma_unplay_spec_fuel(hand_one, hand_two, fuel);
    } else if unplay_returns(hand_one, hand_two) && unplay_depth(hand_one, hand_two) <= fuel {
        lemma_unplay_depth(hand_one, hand_two);
        lemma_unplay_fuel_mono(hand_one, hand_two, unplay_depth(hand_one, hand_two), fuel);
    }
}

/// A walk that ends within some number of steps has a least such number.
pub proof fn lemma_least_fuel(hand_one: Seq<u8>, hand_two: Seq<u8>, fuel: nat)
    requires
        unplay_fuel(hand_one, hand_two, fuel) is Some,
    ensures
        unplay_fuel(hand_one, hand_two, unplay_depth(hand_one, hand_two)) is Some,
        forall|g: nat| g < unplay_depth(hand_one, hand_two) ==> #[trigger] unplay_fuel(hand_one, hand_two, g) is None,
        unplay_depth(hand_one, hand_two) <= fuel,
    decreases fuel,
{
    if exists|g: nat| g < fuel && #[trigger] unplay_fuel(hand_one, hand_two, g) is Some {
        let g = choose|g: nat| g < fuel && #[trigger] unplay_fuel(hand_one, hand_two, g) is Some;
        lemma_least_fuel(hand_one, hand_two, g);
    } else {
        assert(unplay_fuel(hand_one, hand_two, fuel) is Some && forall|g: nat|
            g < fuel ==> #[trigger] unplay_fuel(hand_one, hand_two, g) is None);
        let d = unplay_depth(hand_one, hand_two);
        if d < fuel {
            assert(unplay_fuel(hand_one, hand_two, d) is Some);
        }
        if d > fuel {
            assert(unplay_fuel(hand_one, hand_two, fuel) is None);
        }
    }
}

/// More fuel does not change a walk that ends: the positions found do not
/// depend on the bound.
pub proof fn lemma_unplay_fuel_mono(hand_one: Seq<u8>, hand_two: Seq<u8>, f: nat, g: nat)
    requires
        f <= g,
        unplay_fuel(hand_one, hand_two, f) is Some,
    ensures
        unplay_fuel(hand_one, hand_two, g) == unplay_fuel(hand_one, hand_two, f),
    decreases f, 0nat,
{
        if !untrickable_spec(hand_one) && hand_one.len() < 52 {
    } else {
        lemma_unplay_tricks_mono(untrick_spec(hand_one), hand_two, (f - 1) as nat, (g - 1) as nat);
    }
}

/// More fuel does not change a walk over candidate tricks that ends.
pub proof fn lemma_unplay_tricks_mono(tricks: Seq<Deal>, losing_hand: Seq<u8>, f: nat, g: nat)
    requires
        f <= g,
        unplay_tricks(tricks, losing_hand, f) is Some,
    ensures
        unplay_tricks(tricks, losing_hand, g) == unplay_tricks(tricks, losing_hand, f),
    decreases f, tricks.len(),
{
        if tricks.len() > 0 {
        let d = districk_spec(losing_hand, tricks[0].0, tricks[0].1);
        lemma_unplay_fuel_mono(d.0, d.1, f, g);
        lemma_unplay_tricks_mono(tricks.drop_first(), losing_hand, f, g);
    }
}

/// The walk back from a position, within `fuel` steps, is the walk back.
pub proof fn lemma_unplay_spec_fuel(hand_one: Seq<u8>, hand_two: Seq<u8>, fuel: nat)
    requires
        unplay_fuel(hand_one, hand_two, fuel) is Some,
    ensures
        unplay_returns(hand_one, hand_two),
        unplay_depth(hand_one, hand_two) <= fuel,
        unplay_fuel(hand_one, hand_two, fuel) == Some(unplay_spec(hand_one, hand_two)),
{
    lemma_least_fuel(hand_one, hand_two, fuel);
    lemma_unplay_fuel_mono(hand_one, hand_two, unplay_depth(hand_one, hand_two), fuel);
}

/// Walking back the first of some candidate tricks, then the others.
pub proof fn lemma_unplay_tricks_first(tricks: Seq<Deal>, losing_hand: Seq<u8>, fuel: nat)
    requires
        tricks.len() > 0,
        unplay_tricks(tricks, losing_hand, fuel) is Some,
    ensures
        ({
            let d = districk_spec(losing_hand, tricks[0].0, tricks[0].1);
            &&& unplay_fuel(d.0, d.1, fuel) is Some
            &&& unplay_tricks(tricks.drop_first(), losing_hand, fuel) is Some
            &&& unplay_tricks(tricks, losing_hand, fuel)->Some_0 == seq![d] + unplay_fuel(
                d.0,
                d.1,
                fuel,
            )->Some_0 + unplay_tricks(tricks.drop_first(), losing_hand, fuel)->Some_0
        }),
{
    }

/// Walking back a position that cannot have just won a trick finds
/// nothing; walking back any other position takes each candidate trick back.
pub proof fn lemma_unplay_fuel_unfold(hand_one: Seq<u8>, hand_two: Seq<u8>, fuel: nat)
    requires
        unplay_fuel(hand_one, hand_two, fuel) is Some,
    ensures
        fuel > 0,
        !untrickable_spec(hand_one) && hand_one.len() < 52 ==> unplay_fuel(hand_one, hand_two, fuel)
            == Some(Seq::<Deal>::empty()),
        !(!untrickable_spec(hand_one) && hand_one.len() < 52) ==> {
            &&& untrick_fits(0, 0, hand_one.reverse(), 0)
            &&& unplay_fuel(hand_one, hand_two, fuel) == unplay_tricks(
                untrick_spec(hand_one),
                hand_two,
                (fuel - 1) as nat,
            )
        },
{
    }

/// A walk that ends does so within its least number of steps, and gives
/// the positions found within them.
pub proof fn lemma_unplay_depth(hand_one: Seq<u8>, hand_two: Seq<u8>)
    requires
        unplay_returns(hand_one, hand_two),
    ensures
        unplay_fuel(hand_one, hand_two, unplay_depth(hand_one, hand_two)) == Some(
            unplay_spec(hand_one, hand_two),
        ),
        unplay_depth(hand_one, hand_two) > 0,
{
    let f = choose|fuel: nat| #[trigger] unplay_fuel(hand_one, hand_two, fuel) is Some;
    lemma_least_fuel(hand_one, hand_two, f);
}

/// No candidate tricks, nothing found.
pub proof fn lemma_unplay_tricks_empty(tricks: Seq<Deal>, losing_hand: Seq<u8>, fuel: nat)
    requires
        tricks.len() == 0,
    ensures
        unplay_tricks(tricks, losing_hand, fuel) == Some(Seq::<Deal>::empty()),
{
}

/// Taking back candidate tricks that, with the losing hand, hold the cards
/// `all` gives only positions holding `all`.
pub proof fn lemma_unplay_tricks_keeps_cards(
    tricks: Seq<Deal>,
    losing_hand: Seq<u8>,
    fuel: nat,
    all: Multiset<u8>,
)
    requires
        unplay_tricks(tricks, losing_hand, fuel) is Some,
        forall|j: int|
            0 <= j < tricks.len() ==> #[trigger] pair_cards(tricks[j]).add(losing_hand.to_multiset())
                =~= all,
    ensures
        forall|i: int|
            0 <= i < unplay_tricks(tricks, losing_hand, fuel)->Some_0.len() ==> #[trigger] pair_cards(
                unplay_tricks(tricks, losing_hand, fuel)->Some_0[i],
            ) =~= all,
    decreases fuel, tricks.len(),
{
    if tricks.len() > 0 {
        let t = tricks[0];
        let d = districk_spec(losing_hand, t.0, t.1);
        assert(pair_cards(tricks[0]).add(losing_hand.to_multiset()) =~= all);
        lemma_districk_keeps_cards(losing_hand, t.0, t.1);
        assert(pair_cards(d) =~= all);
        lemma_unplay_fuel_keeps_cards(d.0, d.1, fuel);
        let rest = tricks.drop_first();
        assert forall|j: int| 0 <= j < rest.len() implies #[trigger] pair_cards(rest[j]).add(
            losing_hand.to_multiset(),
        ) =~= all by {
            assert(rest[j] == tricks[j + 1]);
        }
        lemma_unplay_tricks_keeps_cards(rest, losing_hand, fuel, all);
        let sub = unplay_fuel(d.0, d.1, fuel)->Some_0;
        let more = unplay_tricks(rest, losing_hand, fuel)->Some_0;
        let r = seq![d] + sub + more;
        assert forall|i: int| 0 <= i < r.len() implies #[trigger] pair_cards(r[i]) =~= all by {
            if i == 0 {
            } else if i < 1 + sub.len() {
                assert(r[i] == sub[i - 1]);
            } else {
                assert(r[i] == more[i - 1 - sub.len()]);
            }
        }
    }
}

/// Every position found walking back within `fuel` steps holds the cards of
/// the position walked back from.
pub proof fn lemma_unplay_fuel_keeps_cards(hand_one: Seq<u8>, hand_two: Seq<u8>, fuel: nat)
    requires
        unplay_fuel(hand_one, hand_two, fuel) is Some,
    ensures
        forall|i: int|
            0 <= i < unplay_fuel(hand_one, hand_two, fuel)->Some_0.len() ==> #[trigger] pair_cards(
                unplay_fuel(hand_one, hand_two, fuel)->Some_0[i],
            ) =~= pair_cards((hand_one, hand_two)),
    decreases fuel, 0nat,
{
    if untrickable_spec(hand_one) || hand_one.len() >= 52 {
        let ts = untrick_spec(hand_one);
        let all = pair_cards((hand_one, hand_two));
        lemma_untrick_recombines(hand_one);
        assert forall|j: int| 0 <= j < ts.len() implies #[trigger] pair_cards(ts[j]).add(
            hand_two.to_multiset(),
        ) =~= all by {
            let t = ts[j];
            assert(t.1 + t.0.reverse() == hand_one);
            vstd::seq_lib::lemma_multiset_commutative(t.1, t.0.reverse());
            lemma_reverse_multiset(t.0);
        }
        lemma_unplay_tricks_keeps_cards(ts, hand_two, (fuel - 1) as nat, all);
    }
}

/// Walking a position back keeps every card: each position found holds the
/// cards of the two hands walked back from.
pub proof fn lemma_unplay_keeps_cards(hand_one: Seq<u8>, hand_two: Seq<u8>)
    requires
        unplay_returns(hand_one, hand_two),
    ensures
        forall|i: int|
            0 <= i < unplay_spec(hand_one, hand_two).len() ==> #[trigger] pair_cards(
                unplay_spec(hand_one, hand_two)[i],
            ) == pair_cards((hand_one, hand_two)),
{
    lemma_unplay_depth(hand_one, hand_two);
    lemma_unplay_fuel_keeps_cards(hand_one, hand_two, unplay_depth(hand_one, hand_two));
    assert forall|i: int| 0 <= i < unplay_spec(hand_one, hand_two).len() implies #[trigger] pair_cards(
        unplay_spec(hand_one, hand_two)[i],
    ) == pair_cards((hand_one, hand_two)) by {
        assert(pair_cards(unplay_spec(hand_one, hand_two)[i]) =~= pair_cards((hand_one, hand_two)));
    }
}

/// Every candidate trick, taken back against `losing_hand`, leads to a
/// position whose walk back ends.
pub open spec fn tricks_return(tricks: Seq<Deal>, losing_hand: Seq<u8>) -> bool {
    forall|j: int|
        0 <= j < tricks.len() ==> unplay_returns(
            #[trigger] districk_spec(losing_hand, tricks[j].0, tricks[j].1).0,
            districk_spec(losing_hand, tricks[j].0, tricks[j].1).1,
        )
}

/// Taking back each candidate trick in turn: the position found, then every
/// position found walking back from it.
pub open spec fn walk_tricks(tricks: Seq<Deal>, losing_hand: Seq<u8>) -> Seq<Deal>
    decreases tricks.len(),
{
    if tricks.len() == 0 {
        Seq::empty()
    } else {
        let d = districk_spec(losing_hand, tricks[0].0, tricks[0].1);
        seq![d] + unplay_spec(d.0, d.1) + walk_tricks(tricks.drop_first(), losing_hand)
    }
}

/// The most steps any of the candidate tricks' walks needs.
pub open spec fn tricks_depth(tricks: Seq<Deal>, losing_hand: Seq<u8>) -> nat
    decreases tricks.len(),
{
    if tricks.len() == 0 {
        0
    } else {
        let d = districk_spec(losing_hand, tricks[0].0, tricks[0].1);
        let rest = tricks_depth(tricks.drop_first(), losing_hand);
        if unplay_depth(d.0, d.1) > rest {
            unplay_depth(d.0, d.1)
        } else {
            rest
        }
    }
}

/// With as much fuel as every trick's walk needs, walking the candidate
/// tricks gives `walk_tricks`.
proof fn lemma_tricks_enough_fuel(tricks: Seq<Deal>, losing_hand: Seq<u8>, fuel: nat)
    requires
        tricks_return(tricks, losing_hand),
        tricks_depth(tricks, losing_hand) <= fuel,
    ensures
        unplay_tricks(tricks, losing_hand, fuel) == Some(walk_tricks(tricks, losing_hand)),
    decreases tricks.len(),
{
    if tricks.len() > 0 {
        let d = districk_spec(losing_hand, tricks[0].0, tricks[0].1);
        assert(unplay_returns(d.0, d.1));
        lemma_unplay_depth(d.0, d.1);
        lemma_unplay_fuel_mono(d.0, d.1, unplay_depth(d.0, d.1), fuel);
        let rest = tricks.drop_first();
        assert forall|j: int| 0 <= j < rest.len() implies unplay_returns(
            #[trigger] districk_spec(losing_hand, rest[j].0, rest[j].1).0,
            districk_spec(losing_hand, rest[j].0, rest[j].1).1,
        ) by {
            assert(rest[j] == tricks[j + 1]);
        }
        lemma_tricks_enough_fuel(rest, losing_hand, fuel);
    }
}

/// A walk over candidate tricks that ends is `walk_tricks`, and every
/// trick's own walk ends.
#[verifier::rlimit(30)]
proof fn lemma_tricks_some(tricks: Seq<Deal>, losing_hand: Seq<u8>, fuel: nat)
    requires
        unplay_tricks(tricks, losing_hand, fuel) is Some,
    ensures
        tricks_return(tricks, losing_hand),
        unplay_tricks(tricks, losing_hand, fuel) == Some(walk_tricks(tricks, losing_hand)),
    decreases tricks.len(),
{
    if tricks.len() > 0 {
        let d = districk_spec(losing_hand, tricks[0].0, tricks[0].1);
        let rest = tricks.drop_first();
        lemma_unplay_tricks_first(tricks, losing_hand, fuel);
        lemma_unplay_spec_fuel(d.0, d.1, fuel);
        lemma_tricks_some(rest, losing_hand, fuel);
        assert(unplay_tricks(tricks, losing_hand, fuel)->Some_0 == walk_tricks(tricks, losing_hand));
        assert forall|j: int| 0 <= j < tricks.len() implies unplay_returns(
            #[trigger] districk_spec(losing_hand, tricks[j].0, tricks[j].1).0,
            districk_spec(losing_hand, tricks[j].0, tricks[j].1).1,
        ) by {
            if j > 0 {
                assert(tricks[j] == rest[j - 1]);
            }
        }
    }
}

/// A hand that cannot have just won a trick, short of the whole deck, is
/// walked back to nothing.
pub proof fn lemma_unplay_stuck(hand_one: Seq<u8>, hand_two: Seq<u8>)
    requires
        !untrickable_spec(hand_one),
        hand_one.len() < 52,
    ensures
        unplay_returns(hand_one, hand_two),
        unplay_spec(hand_one, hand_two) == Seq::<Deal>::empty(),
{
    assert(unplay_fuel(hand_one, hand_two, 1) == Some(Seq::<Deal>::empty()));
    lemma_unplay_spec_fuel(hand_one, hand_two, 1);
}

/// A hand that can have just won a trick (or holds the whole deck), whose
/// candidate tricks do not overflow and each lead to a walk that ends, has
/// a walk that ends: every candidate trick taken back in turn, each position
/// found followed by the walk back from it.
pub proof fn lemma_unplay_walks_tricks(hand_one: Seq<u8>, hand_two: Seq<u8>)
    requires
        untrickable_spec(hand_one) || hand_one.len() >= 52,
        untrick_fits(0, 0, hand_one.reverse(), 0),
        tricks_return(untrick_spec(hand_one), hand_two),
    ensures
        unplay_returns(hand_one, hand_two),
        unplay_spec(hand_one, hand_two) == walk_tricks(untrick_spec(hand_one), hand_two),
{
    let ts = untrick_spec(hand_one);
    let f = tricks_depth(ts, hand_two);
    lemma_tricks_enough_fuel(ts, hand_two, f);
    assert(unplay_fuel(hand_one, hand_two, f + 1) == unplay_tricks(ts, hand_two, f));
    lemma_unplay_spec_fuel(hand_one, hand_two, f + 1);
}

/// A walk back that ends is nothing for a hand that cannot have just won a
/// trick (short of the whole deck); otherwise the hand's candidate tricks do
/// not overflow, each leads to a walk that ends, and the walk takes each back
/// in turn, followed by the walk back from the position found.
pub proof fn lemma_unplay_walk(hand_one: Seq<u8>, hand_two: Seq<u8>)
    requires
        unplay_returns(hand_one, hand_two),
    ensures
        !untrickable_spec(hand_one) && hand_one.len() < 52 ==> unplay_spec(hand_one, hand_two)
            == Seq::<Deal>::empty(),
        untrickable_spec(hand_one) || hand_one.len() >= 52 ==> {
            &&& untrick_fits(0, 0, hand_one.reverse(), 0)
            &&& tricks_return(untrick_spec(hand_one), hand_two)
            &&& unplay_spec(hand_one, hand_two) == walk_tricks(untrick_spec(hand_one), hand_two)
        },
{
    lemma_unplay_depth(hand_one, hand_two);
    let d = unplay_depth(hand_one, hand_two);
    if untrickable_spec(hand_one) || hand_one.len() >= 52 {
        lemma_tricks_some(untrick_spec(hand_one), hand_two, (d - 1) as nat);
    }
}

} // verus!

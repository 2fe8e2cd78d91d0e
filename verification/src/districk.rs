use vstd::prelude::*;
use vstd::multiset::Multiset;

use crate::game::Deal;

verus! {

broadcast use vstd::seq_lib::group_to_multiset_ensures, vstd::multiset::group_multiset_axioms;

/// Handing back one tribute card: the two hands change places and the card
/// goes on top of the hand that paid it.
pub open spec fn zero_dealer() -> spec_fn(u8, Deal) -> Deal {
    |x: u8, acc: Deal| (acc.1, seq![x] + acc.0)
}

/// Takes back the trick `rtrick` (the card played last first) between the
/// hands `other_hand` and `taking_hand`: tribute cards collect in `zeros`, a
/// penalty card goes back on top of the hand that played it; when the trick
/// is used up, the collected tribute is handed back a card at a time.
pub open spec fn districk_go_spec(other_hand: Seq<u8>, taking_hand: Seq<u8>, zeros: Seq<u8>, rtrick: Seq<u8>) -> Deal
    decreases rtrick.len(),
{
    if rtrick.len() == 0 {
        zeros.fold_right(zero_dealer(), (taking_hand, other_hand))
    } else if rtrick[0] == 0 {
        districk_go_spec(other_hand, taking_hand, seq![rtrick[0]] + zeros, rtrick.drop_first())
    } else {
        districk_go_spec(
            seq![rtrick[0]] + taking_hand,
            zeros + other_hand,
            Seq::empty(),
            rtrick.drop_first(),
        )
    }
}

/// The two hands before the trick `rtrick` was won into `winning_hand`
/// from a game in which the other player held `losing_hand`: the hand that
/// played the last card first.
pub open spec fn districk_spec(losing_hand: Seq<u8>, rtrick: Seq<u8>, winning_hand: Seq<u8>) -> Deal {
    let (a, b) = districk_go_spec(losing_hand, winning_hand, Seq::empty(), rtrick);
    (b, a)
}

/// Takes back the trick `rtrick` between two hands, as `districk_go_spec`
/// says.
pub fn districk_go(
    other_hand: Vec<u8>,
    taking_hand: Vec<u8>,
    zeros: Vec<u8>,
    rtrick: Vec<u8>,
) -> (r: (Vec<u8>, Vec<u8>))
    ensures
        (r.0@, r.1@) == districk_go_spec(other_hand@, taking_hand@, zeros@, rtrick@),
    decreases rtrick@.len(),
{
    let mut other_hand = other_hand;
    let mut taking_hand = taking_hand;
    let mut zeros = zeros;
    let mut rtrick = rtrick;
    if rtrick.len() == 0 {
        let ghost target = districk_go_spec(other_hand@, taking_hand@, zeros@, rtrick@);
        let mut acc: (Vec<u8>, Vec<u8>) = (taking_hand, other_hand);
        let mut i: usize = zeros.len();
        assert(zeros@.take(i as int) =~= zeros@);
        while i > 0
            invariant
                i <= zeros@.len(),
                target == zeros@.take(i as int).fold_right(zero_dealer(), (acc.0@, acc.1@)),
            decreases i,
        {
            i = i - 1;
            let x = zeros[i];
            let ghost before: Deal = (acc.0@, acc.1@);
            let (a, b) = acc;
            let mut front: Vec<u8> = vec![x];
            let mut rest = a;
            front.append(&mut rest);
            acc = (b, front);
            proof {
                assert(zeros@.take(i + 1).drop_last() =~= zeros@.take(i as int));
                assert(zeros@.take(i + 1).last() == x);
                assert((acc.0@, acc.1@) =~= (zero_dealer())(x, before));
            }
        }
        assert(zeros@.take(0) =~= Seq::<u8>::empty());
        return acc;
    }
    let ghost old_rt = rtrick@;
    let ghost old_zeros = zeros@;
    if rtrick[0] == 0 {
        let c = rtrick.remove(0);
        zeros.insert(0, c);
        assert(rtrick@ =~= old_rt.drop_first());
        assert(zeros@ =~= seq![c] + old_zeros);
        return districk_go(other_hand, taking_hand, zeros, rtrick);
    }
    let c = rtrick.remove(0);
    assert(rtrick@ =~= old_rt.drop_first());
    let ghost old_taking = taking_hand@;
    taking_hand.insert(0, c);
    assert(taking_hand@ =~= seq![c] + old_taking);
    zeros.append(&mut other_hand);
    districk_go(taking_hand, zeros, Vec::new(), rtrick)
}

/// The two hands before the trick `rtrick` was won into `winning_hand`, the
/// other player holding `losing_hand`; the hand that played last comes
/// first.
pub fn districk(losing_hand: Vec<u8>, trick: (Vec<u8>, Vec<u8>)) -> (r: (Vec<u8>, Vec<u8>))
    ensures
        (r.0@, r.1@) == districk_spec(losing_hand@, trick.0@, trick.1@),
{
    let (rtrick, winning_hand) = trick;
    let (a, b) = districk_go(losing_hand, winning_hand, Vec::new(), rtrick);
    (b, a)
}

/// The cards of a pair of hands.
pub open spec fn pair_cards(d: Deal) -> Multiset<u8> {
    d.0.to_multiset().add(d.1.to_multiset())
}

/// Handing back tribute cards loses no card and makes none.
pub proof fn lemma_fold_keeps_cards(zeros: Seq<u8>, acc: Deal)
    ensures
        pair_cards(zeros.fold_right(zero_dealer(), acc)) =~= pair_cards(acc).add(
            zeros.to_multiset(),
        ),
    decreases zeros.len(),
{
    if zeros.len() > 0 {
        let x = zeros.last();
        let next = (zero_dealer())(x, acc);
        lemma_fold_keeps_cards(zeros.drop_last(), next);
        assert(zeros =~= zeros.drop_last().push(x));
        vstd::seq_lib::lemma_multiset_commutative(seq![x], acc.0);
    }
}

/// Taking back a trick loses no card and makes none.
pub proof fn lemma_districk_go_keeps_cards(
    other_hand: Seq<u8>,
    taking_hand: Seq<u8>,
    zeros: Seq<u8>,
    rtrick: Seq<u8>,
)
    ensures
        pair_cards(districk_go_spec(other_hand, taking_hand, zeros, rtrick)) =~= taking_hand.to_multiset().add(
            other_hand.to_multiset(),
        ).add(zeros.to_multiset()).add(rtrick.to_multiset()),
    decreases rtrick.len(),
{
    if rtrick.len() == 0 {
        lemma_fold_keeps_cards(zeros, (taking_hand, other_hand));
    } else {
        let c = rtrick[0];
        assert(rtrick =~= seq![c] + rtrick.drop_first());
        vstd::seq_lib::lemma_multiset_commutative(seq![c], rtrick.drop_first());
        if c == 0 {
            lemma_districk_go_keeps_cards(other_hand, taking_hand, seq![c] + zeros, rtrick.drop_first());
            vstd::seq_lib::lemma_multiset_commutative(seq![c], zeros);
        } else {
            lemma_districk_go_keeps_cards(
                seq![c] + taking_hand,
                zeros + other_hand,
                Seq::empty(),
                rtrick.drop_first(),
            );
            vstd::seq_lib::lemma_multiset_commutative(seq![c], taking_hand);
            vstd::seq_lib::lemma_multiset_commutative(zeros, other_hand);
        }
    }
}

/// Taking back a trick keeps every card: the two hands it gives hold the
/// losing hand, the trick and the winning hand.
pub proof fn lemma_districk_keeps_cards(losing_hand: Seq<u8>, rtrick: Seq<u8>, winning_hand: Seq<u8>)
    ensures
        pair_cards(districk_spec(losing_hand, rtrick, winning_hand)) =~= losing_hand.to_multiset().add(
            rtrick.to_multiset(),
        ).add(winning_hand.to_multiset()),
{
    lemma_districk_go_keeps_cards(losing_hand, winning_hand, Seq::empty(), rtrick);
    let d = districk_go_spec(losing_hand, winning_hand, Seq::empty(), rtrick);
    assert(Seq::<u8>::empty().to_multiset() =~= Multiset::<u8>::empty());
    assert(pair_cards((d.1, d.0)) =~= pair_cards(d));
}

/// `n` tribute cards.
pub open spec fn tribute(n: nat) -> Seq<u8> {
    Seq::new(n, |i: int| 0u8)
}

/// Handing back `n` tribute cards alternately, starting with the hand that
/// paid last: each hand gets back half of them on top, the hand that paid
/// last one more when `n` is odd, and the hands change places once per card.
pub proof fn lemma_hand_back_tribute(n: nat, acc: Deal)
    ensures
        tribute(n).fold_right(zero_dealer(), acc) == if n % 2 == 0 {
            (tribute(n / 2) + acc.0, tribute(n / 2) + acc.1)
        } else {
            (tribute(n / 2) + acc.1, tribute(n / 2 + 1) + acc.0)
        },
    decreases n,
{
    if n == 0 {
        assert(tribute(0) + acc.0 =~= acc.0);
        assert(tribute(0) + acc.1 =~= acc.1);
    } else {
        let m = (n - 1) as nat;
        assert(tribute(n).drop_last() =~= tribute(m));
        let next = (zero_dealer())(0u8, acc);
        lemma_hand_back_tribute(m, next);
        if n % 2 == 0 {
            assert(m / 2 + 1 == n / 2);
            assert(tribute(m / 2) + next.1 =~= tribute(n / 2) + acc.0);
            assert(tribute((m / 2 + 1) as nat) + next.0 =~= tribute(n / 2) + acc.1);
        } else {
            assert(m / 2 == n / 2);
            assert(tribute(m / 2) + next.0 =~= tribute(n / 2) + acc.1);
            assert(tribute(m / 2) + next.1 =~= tribute(n / 2 + 1) + acc.0);
        }
    }
}

} // verus!

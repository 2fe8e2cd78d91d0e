use vstd::prelude::*;

use crate::districk::{districk, districk_spec};
use crate::game::Deal;
use crate::unplay_spec::{
    lemma_unplay_depth, lemma_unplay_fuel_enough, lemma_unplay_fuel_step, lemma_unplay_no_fuel,
    lemma_unplay_tricks_step, lemma_unplay_fuel_unfold, lemma_unplay_tricks_empty, lemma_unplay_spec_fuel, lemma_unplay_tricks_first,
    unplay_depth, unplay_fuel, unplay_returns, unplay_spec, unplay_tricks,
};
use crate::untrick::{untrick, untrick_fits_check, untrickable};
use crate::seqs::reversed;

verus! {

/// Lists every position found walking back from `hand_one` (which has just
/// won a trick) and `hand_two`.
pub fn unplay(hand_one: Vec<u8>, hand_two: Vec<u8>) -> (r: Vec<(Vec<u8>, Vec<u8>)>)
    requires
        unplay_returns(hand_one@, hand_two@),
    ensures
        r.deep_view() == unplay_spec(hand_one@, hand_two@),
    decreases unplay_depth(hand_one@, hand_two@), 0nat,
{
    let ghost h1 = hand_one@;
    let ghost h2 = hand_two@;
    let ghost d = unplay_depth(h1, h2);
    proof {
        lemma_unplay_depth(h1, h2);
        lemma_unplay_fuel_unfold(h1, h2, d);
    }
    if !untrickable(hand_one.clone()) && hand_one.len() < 52 {
        return Vec::new();
    }
    let mut hand_one = hand_one;
    let tricks = untrick(&mut hand_one);
    let ghost ts = tricks.deep_view();
    let ghost fuel = (d - 1) as nat;
    let mut result: Vec<(Vec<u8>, Vec<u8>)> = Vec::new();
    let mut i: usize = 0;
    assert(ts.skip(0) =~= ts);
    #[verifier::loop_isolation(false)]
    while i < tricks.len()
        invariant
            i <= tricks@.len(),
            ts == tricks.deep_view(),
            hand_two@ == h2,
            d == unplay_depth(h1, h2),
            fuel + 1 == d,
            unplay_tricks(ts.skip(i as int), h2, fuel) is Some,
            unplay_fuel(h1, h2, d) == Some(
                result.deep_view() + unplay_tricks(ts.skip(i as int), h2, fuel)->Some_0,
            ),
        decreases tricks@.len() - i,
    {
        let ghost rest = ts.skip(i as int);
        let ghost dd = districk_spec(h2, rest[0].0, rest[0].1);
        proof {
            assert(rest[0] == ts[i as int]);
            assert(tricks@[i as int].0.deep_view() =~= tricks@[i as int].0@);
            assert(tricks@[i as int].1.deep_view() =~= tricks@[i as int].1@);
            assert(rest.drop_first() =~= ts.skip(i + 1));
            lemma_unplay_tricks_first(rest, h2, fuel);
            lemma_unplay_spec_fuel(dd.0, dd.1, fuel);
            assert(dd == districk_spec(h2, tricks@[i as int].0@, tricks@[i as int].1@));
            assert(unplay_depth(dd.0, dd.1) < d);
        }
        let mut part = loop_unplay(hand_two.clone(), &tricks[i]);
        let ghost before = result.deep_view();
        let ghost part_view = part.deep_view();
        result.append(&mut part);
        proof {
            assert(result.deep_view() =~= before + part_view);
        }
        i = i + 1;
    }
    proof {
        assert(ts.skip(i as int) =~= Seq::<Deal>::empty());
        lemma_unplay_tricks_empty(ts.skip(i as int), h2, fuel);
        assert(unplay_fuel(h1, h2, d)->Some_0 =~= result.deep_view());
    }
    result
}

/// Takes the trick `trick` back between `losing_hand` and the rest of the
/// winning hand, and lists the position found followed by every position
/// found walking back from it.
pub fn loop_unplay(losing_hand: Vec<u8>, trick: &(Vec<u8>, Vec<u8>)) -> (r: Vec<(Vec<u8>, Vec<u8>)>)
    requires
        unplay_returns(
            districk_spec(losing_hand@, trick.0@, trick.1@).0,
            districk_spec(losing_hand@, trick.0@, trick.1@).1,
        ),
    ensures
        r.deep_view() == seq![districk_spec(losing_hand@, trick.0@, trick.1@)] + unplay_spec(
            districk_spec(losing_hand@, trick.0@, trick.1@).0,
            districk_spec(losing_hand@, trick.0@, trick.1@).1,
        ),
    decreases
            unplay_depth(
                districk_spec(losing_hand@, trick.0@, trick.1@).0,
                districk_spec(losing_hand@, trick.0@, trick.1@).1,
            ),
            1nat,
{
    let (nl_new, nw_new) = districk(losing_hand, (trick.0.clone(), trick.1.clone()));
    let mut tail = unplay(nl_new.clone(), nw_new.clone());
    let mut result = vec![(nl_new, nw_new)];
    proof {
        assert(result@[0].0.deep_view() =~= result@[0].0@);
        assert(result@[0].1.deep_view() =~= result@[0].1@);
    }
    let ghost first = result.deep_view();
    let ghost tail_view = tail.deep_view();
    result.append(&mut tail);
    proof {
        assert(result.deep_view() =~= first + tail_view);
    }
    result
}

/// Walks a position back within `fuel` nested steps, as `unplay_fuel`
/// says: `None` exactly when that walk does not end within them.
fn unplay_within(hand_one: Vec<u8>, hand_two: Vec<u8>, fuel: u64) -> (r: Option<Vec<(Vec<u8>, Vec<u8>)>>)
    ensures
        match r {
            Some(v) => unplay_fuel(hand_one@, hand_two@, fuel as nat) == Some(v.deep_view()),
            None => unplay_fuel(hand_one@, hand_two@, fuel as nat) is None,
        },
    decreases fuel,
{
    let ghost h1 = hand_one@;
    let ghost h2 = hand_two@;
    if fuel == 0 {
        proof {
            lemma_unplay_no_fuel(h1, h2);
        }
        return None;
    }
    proof {
        lemma_unplay_fuel_step(h1, h2, fuel as nat);
    }
    if !untrickable(hand_one.clone()) && hand_one.len() < 52 {
        return Some(Vec::new());
    }
    if !untrick_fits_check(&reversed(&hand_one)) {
        return None;
    }
    let mut hand_one = hand_one;
    let tricks = untrick(&mut hand_one);
    let ghost ts = tricks.deep_view();
    let ghost f = (fuel - 1) as nat;
    let mut result: Vec<(Vec<u8>, Vec<u8>)> = Vec::new();
    let mut i: usize = 0;
    assert(ts.skip(0) =~= ts);
    #[verifier::loop_isolation(false)]
    while i < tricks.len()
        invariant
            i <= tricks@.len(),
            ts == tricks.deep_view(),
            hand_two@ == h2,
            fuel >= 1,
            f + 1 == fuel,
            unplay_fuel(h1, h2, fuel as nat) == unplay_tricks(ts, h2, f),
            unplay_tricks(ts, h2, f) is Some <==> unplay_tricks(ts.skip(i as int), h2, f) is Some,
            unplay_tricks(ts.skip(i as int), h2, f) is Some ==> unplay_tricks(ts, h2, f)->Some_0
                == result.deep_view() + unplay_tricks(ts.skip(i as int), h2, f)->Some_0,
        decreases tricks@.len() - i,
    {
        let ghost rest = ts.skip(i as int);
        proof {
            assert(rest[0] == ts[i as int]);
            assert(tricks@[i as int].0.deep_view() =~= tricks@[i as int].0@);
            assert(tricks@[i as int].1.deep_view() =~= tricks@[i as int].1@);
            assert(rest.drop_first() =~= ts.skip(i + 1));
            lemma_unplay_tricks_step(rest, h2, f);
        }
        let (a, b) = districk(hand_two.clone(), (tricks[i].0.clone(), tricks[i].1.clone()));
        let sub = unplay_within(a.clone(), b.clone(), fuel - 1);
        match sub {
            None => {
                proof {
                    assert((a@, b@) == districk_spec(h2, rest[0].0, rest[0].1));
                    assert(unplay_fuel(a@, b@, f) is None);
                    assert(unplay_tricks(rest, h2, f) is None);
                }
                return None;
            },
            Some(mut sub) => {
                let ghost before = result.deep_view();
                let ghost sub_view = sub.deep_view();
                result.push((a, b));
                proof {
                    assert(result@.last().0.deep_view() =~= result@.last().0@);
                    assert(result@.last().1.deep_view() =~= result@.last().1@);
                }
                let ghost pushed = result.deep_view();
                result.append(&mut sub);
                proof {
                    assert(pushed =~= before.push(result@[before.len() as int].deep_view()));
                    assert(result.deep_view() =~= pushed + sub_view);
                }
            },
        }
        i = i + 1;
    }
    proof {
        assert(ts.skip(i as int) =~= Seq::<Deal>::empty());
        lemma_unplay_tricks_empty(ts.skip(i as int), h2, f);
        assert(result.deep_view() + Seq::<Deal>::empty() =~= result.deep_view());
    }
    Some(result)
}

/// Walks a position back, as `unplay` does, but gives up after `fuel`
/// nested steps: the positions found when the walk ends within them, and
/// `None` exactly when it does not.
pub fn unplay_bounded(hand_one: Vec<u8>, hand_two: Vec<u8>, fuel: u64) -> (r: Option<Vec<(Vec<u8>, Vec<u8>)>>)
    ensures
        r is Some <==> (unplay_returns(hand_one@, hand_two@) && unplay_depth(hand_one@, hand_two@)
            <= fuel),
        r matches Some(v) ==> v.deep_view() == unplay_spec(hand_one@, hand_two@),
{
    let ghost h1 = hand_one@;
    let ghost h2 = hand_two@;
    let r = unplay_within(hand_one, hand_two, fuel);
    proof {
        lemma_unplay_fuel_enough(h1, h2, fuel as nat);
    }
    r
}

} // verus!

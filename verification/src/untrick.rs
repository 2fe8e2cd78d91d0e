use vstd::prelude::*;

use crate::game::Deal;
use crate::seqs::{lemma_reverse_reverse, lemma_reverse_split, reverse_in_place, reversed, reversed_from};

verus! {

/// The card `p` places from the top of a hand.
pub open spec fn from_top(hand: Seq<u8>, p: int) -> u8 {
    hand[hand.len() - 1 - p]
}

/// A hand can have just won a trick when its top cards are `p` plain cards
/// resting on a penalty card of value `p`: the tribute paid for that card.
pub open spec fn untrickable_spec(hand: Seq<u8>) -> bool {
    exists|p: int|
        0 <= p < hand.len() && #[trigger] from_top(hand, p) != 0 && from_top(hand, p) as int == p
            && forall|j: int| 0 <= j < p ==> #[trigger] from_top(hand, j) == 0
}

/// Whether a hand can be the winner's hand right after a trick.
pub fn untrickable(hand: Vec<u8>) -> (r: bool)
    ensures
        r == untrickable_spec(hand@),
{
    let n = hand.len();
    let mut p: usize = 0;
    while p < n
        invariant
            n == hand@.len(),
            p <= n,
            forall|j: int| 0 <= j < p ==> #[trigger] from_top(hand@, j) == 0,
        decreases n - p,
    {
        let c = hand[n - 1 - p];
        assert(c == from_top(hand@, p as int));
        if c != 0 {
            let r = p == c as usize;
            proof {
                if !r {
                    assert forall|q: int|
                        0 <= q < n && #[trigger] from_top(hand@, q) != 0 implies !(from_top(
                            hand@,
                            q,
                        ) as int == q && forall|j: int|
                            0 <= j < q ==> #[trigger] from_top(hand@, j) == 0) by {
                        if q > p && from_top(hand@, q) as int == q {
                            assert(from_top(hand@, p as int) != 0);
                        }
                    }
                }
            }
            return r;
        }
        p = p + 1;
    }
    false
}

/// The candidate tricks found walking up a reversed hand `rh` from position
/// `k`. `fvs` is the tribute owed by the penalty cards walked past and `zs`
/// the number of cards walked past that pay it. Each candidate pairs the
/// cards walked past (the last one first) followed by `trick` with the rest
/// of the hand in its original order; the walk ends where a penalty card
/// cannot have been paid for.
pub open spec fn untrick_walk(fvs: int, zs: int, trick: Seq<u8>, rh: Seq<u8>, k: int) -> Seq<Deal>
    decreases rh.len() - k,
{
    if k < 0 || k >= rh.len() {
        Seq::empty()
    } else {
        let b = rh[k] as int;
        let cut = (rh.take(k + 1).reverse() + trick, rh.skip(k + 1).reverse());
        if b == 0 && fvs > 0 {
            seq![cut] + untrick_walk(fvs, zs + 1, trick, rh, k + 1)
        } else if b == 0 {
            untrick_walk(fvs, zs + 1, trick, rh, k + 1)
        } else if fvs == 0 && b == zs {
            seq![cut] + untrick_walk(b, b, trick, rh, k + 1)
        } else if fvs + b == zs {
            Seq::empty()
        } else if fvs + b >= zs {
            seq![cut] + untrick_walk(fvs + b, fvs + b, trick, rh, k + 1)
        } else {
            Seq::empty()
        }
    }
}

/// The counts of `untrick_walk` stay within `usize` all the way.
pub open spec fn untrick_fits(fvs: int, zs: int, rh: Seq<u8>, k: int) -> bool
    decreases rh.len() - k,
{
    if k < 0 || k >= rh.len() {
        true
    } else {
        let b = rh[k] as int;
        if b == 0 {
            zs + 1 <= usize::MAX && untrick_fits(fvs, zs + 1, rh, k + 1)
        } else if fvs == 0 && b == zs {
            untrick_fits(b, b, rh, k + 1)
        } else {
            fvs + b <= usize::MAX && (fvs + b == zs || fvs + b < zs || untrick_fits(
                fvs + b,
                fvs + b,
                rh,
                k + 1,
            ))
        }
    }
}

/// The candidate tricks a hand may just have won: each pairs the cards of the
/// trick, bottom card first, with the rest of the hand.
pub open spec fn untrick_spec(hand: Seq<u8>) -> Seq<Deal> {
    untrick_walk(0, 0, Seq::empty(), hand.reverse(), 0).map_values(|d: Deal| (d.0.reverse(), d.1))
}

/// Walks up `reversed_hand` collecting candidate tricks, as `untrick_walk`
/// says; `reversed_hand` is left as it was.
pub fn untrick_go(fvs: usize, zs: usize, trick: Vec<u8>, reversed_hand: &mut Vec<u8>) -> (r: Vec<
    (Vec<u8>, Vec<u8>),
>)
    requires
        untrick_fits(fvs as int, zs as int, old(reversed_hand)@, 0),
    ensures
        final(reversed_hand)@ == old(reversed_hand)@,
        r.deep_view() == untrick_walk(fvs as int, zs as int, trick@, old(reversed_hand)@, 0),
{
    let ghost rh = reversed_hand@;
    let ghost total = untrick_walk(fvs as int, zs as int, trick@, rh, 0);
    let n = reversed_hand.len();
    let mut result: Vec<(Vec<u8>, Vec<u8>)> = Vec::new();
    let mut cur: Vec<u8> = trick.clone();
    let mut f: usize = fvs;
    let mut z: usize = zs;
    let mut k: usize = 0;
    assert(rh.take(0).reverse() + trick@ =~= trick@);
    while k < n
        invariant_except_break
            n == rh.len(),
            reversed_hand@ == rh,
            k <= n,
            untrick_fits(f as int, z as int, rh, k as int),
            cur@ == rh.take(k as int).reverse() + trick@,
            total == result.deep_view() + untrick_walk(f as int, z as int, trick@, rh, k as int),
        ensures
            reversed_hand@ == rh,
            total == result.deep_view(),
        decreases n - k,
    {
        let b = reversed_hand[k];
        let mut next: Vec<u8> = vec![b];
        let mut tail = cur.clone();
        next.append(&mut tail);
        proof {
            assert(rh.take(k + 1).reverse() =~= seq![b] + rh.take(k as int).reverse());
            assert(next@ =~= rh.take(k + 1).reverse() + trick@);
        }
        let ghost before = result.deep_view();
        let ghost cut = (next@, rh.skip(k + 1).reverse());
        let ghost walk_here = untrick_walk(f as int, z as int, trick@, rh, k as int);
        if b == 0 && f > 0 {
            result.push((next.clone(), reversed_from(reversed_hand, k + 1)));
            z = z + 1;
        } else if b == 0 {
            z = z + 1;
        } else if f == 0 && b as usize == z {
            result.push((next.clone(), reversed_from(reversed_hand, k + 1)));
            f = b as usize;
            z = b as usize;
        } else if f + b as usize == z {
            assert(untrick_walk(f as int, z as int, trick@, rh, k as int) =~= Seq::<Deal>::empty());
            assert(total =~= result.deep_view());
            break;
        } else if f + b as usize >= z {
            result.push((next.clone(), reversed_from(reversed_hand, k + 1)));
            f = f + b as usize;
            z = f;
        } else {
            assert(untrick_walk(f as int, z as int, trick@, rh, k as int) =~= Seq::<Deal>::empty());
            assert(total =~= result.deep_view());
            break;
        }
        proof {
            let walk_next = untrick_walk(f as int, z as int, trick@, rh, k + 1);
            if result.deep_view().len() > before.len() {
                assert(result@.last().0.deep_view() =~= cut.0);
                assert(result@.last().1.deep_view() =~= cut.1);
                assert(result.deep_view() =~= before.push(cut));
                assert(walk_here == seq![cut] + walk_next);
                assert(total =~= result.deep_view() + walk_next);
            } else {
                assert(result.deep_view() =~= before);
                assert(walk_here == walk_next);
            }
        }
        cur = next;
        k = k + 1;
    }
    proof {
        if k >= n {
            assert(total =~= result.deep_view());
        }
    }
    result
}

/// Reverses `hand` in place and lists the candidate tricks it may just have
/// won, each with the trick's cards bottom card first and the rest of the
/// hand.
pub fn untrick(hand: &mut Vec<u8>) -> (r: Vec<(Vec<u8>, Vec<u8>)>)
    requires
        untrick_fits(0, 0, old(hand)@.reverse(), 0),
    ensures
        final(hand)@ == old(hand)@.reverse(),
        r.deep_view() == untrick_spec(old(hand)@),
{
    reverse_in_place(hand);
    let found = untrick_go(0, 0, Vec::new(), hand);
    let ghost walked = found.deep_view();
    let mut result: Vec<(Vec<u8>, Vec<u8>)> = Vec::new();
    let mut i: usize = 0;
    while i < found.len()
        invariant
            i <= found@.len(),
            walked == found.deep_view(),
            result.deep_view() =~= walked.take(i as int).map_values(
                |d: Deal| (d.0.reverse(), d.1),
            ),
        decreases found@.len() - i,
    {
        let t = reversed(&found[i].0);
        let rest = found[i].1.clone();
        let ghost before = result.deep_view();
        result.push((t, rest));
        proof {
            let f = |d: Deal| (d.0.reverse(), d.1);
            assert(found@[i as int].0.deep_view() =~= found@[i as int].0@);
            assert(found@[i as int].1.deep_view() =~= found@[i as int].1@);
            assert(walked[i as int] == found@[i as int].deep_view());
            assert(result@.last().0.deep_view() =~= result@.last().0@);
            assert(result@.last().1.deep_view() =~= result@.last().1@);
            assert(result.deep_view() =~= before.push(f(walked[i as int])));
            assert(walked.take(i + 1) =~= walked.take(i as int).push(walked[i as int]));
            assert(walked.take(i + 1).map_values(f) =~= walked.take(i as int).map_values(f).push(
                f(walked[i as int]),
            ));
        }
        i = i + 1;
    }
    assert(walked.take(found@.len() as int) =~= walked);
    result
}

/// Every candidate trick of a walk, put back on top of the rest of the hand
/// in its walked order, gives the reversed hand followed by `trick`; and it
/// holds more cards than `trick`.
pub proof fn lemma_walk_recombines(fvs: int, zs: int, trick: Seq<u8>, rh: Seq<u8>, k: int)
    requires
        0 <= k,
    ensures
        forall|i: int|
            0 <= i < untrick_walk(fvs, zs, trick, rh, k).len() ==> {
                let d = #[trigger] untrick_walk(fvs, zs, trick, rh, k)[i];
                &&& d.1 + d.0 == rh.reverse() + trick
                &&& d.0.len() > trick.len()
            },
    decreases rh.len() - k,
{
    if k < rh.len() {
        let b = rh[k] as int;
        let cut = (rh.take(k + 1).reverse() + trick, rh.skip(k + 1).reverse());
        lemma_reverse_split(rh, k + 1);
        assert(cut.1 + cut.0 =~= rh.reverse() + trick);
        let (f2, z2) = if b == 0 {
            (fvs, zs + 1)
        } else if fvs == 0 && b == zs {
            (b, b)
        } else {
            (fvs + b, fvs + b)
        };
        lemma_walk_recombines(f2, z2, trick, rh, k + 1);
        let w = untrick_walk(fvs, zs, trick, rh, k);
        let w2 = untrick_walk(f2, z2, trick, rh, k + 1);
        assert forall|i: int| 0 <= i < w.len() implies {
            let d = #[trigger] w[i];
            &&& d.1 + d.0 == rh.reverse() + trick
            &&& d.0.len() > trick.len()
        } by {
            if w.len() > 0 && w[0] == cut && w == seq![cut] + w2 {
                if i > 0 {
                    assert(w[i] == w2[i - 1]);
                }
            } else {
                assert(w == w2);
            }
        }
    }
}

/// Every candidate trick of a hand, reversed and put on top of the rest of
/// the hand, gives the hand back; no candidate trick is empty.
pub proof fn lemma_untrick_recombines(hand: Seq<u8>)
    ensures
        forall|i: int|
            0 <= i < untrick_spec(hand).len() ==> {
                let d = #[trigger] untrick_spec(hand)[i];
                &&& d.1 + d.0.reverse() == hand
                &&& d.0.len() >= 1
            },
{
    let rh = hand.reverse();
    lemma_walk_recombines(0, 0, Seq::empty(), rh, 0);
    lemma_reverse_reverse(hand);
    assert forall|i: int| 0 <= i < untrick_spec(hand).len() implies {
        let d = #[trigger] untrick_spec(hand)[i];
        &&& d.1 + d.0.reverse() == hand
        &&& d.0.len() >= 1
    } by {
        let w = untrick_walk(0, 0, Seq::empty(), rh, 0)[i];
        assert(w.1 + w.0 == rh.reverse() + Seq::<u8>::empty());
        assert(rh.reverse() + Seq::<u8>::empty() =~= hand);
        lemma_reverse_reverse(w.0);
    }
}

/// Whether walking up the reversed hand `reversed_hand` from the start keeps
/// its counts within `usize`.
pub fn untrick_fits_check(reversed_hand: &Vec<u8>) -> (r: bool)
    ensures
        r == untrick_fits(0, 0, reversed_hand@, 0),
{
    let n = reversed_hand.len();
    let mut f: usize = 0;
    let mut z: usize = 0;
    let mut k: usize = 0;
    while k < n
        invariant
            n == reversed_hand@.len(),
            k <= n,
            untrick_fits(0, 0, reversed_hand@, 0) == untrick_fits(f as int, z as int, reversed_hand@, k as int),
        decreases n - k,
    {
        let b = reversed_hand[k];
        if b == 0 {
            if z == usize::MAX {
                return false;
            }
            z = z + 1;
        } else if f == 0 && b as usize == z {
            f = b as usize;
            z = b as usize;
        } else {
            match f.checked_add(b as usize) {
                None => {
                    return false;
                },
                Some(s) => {
                    if s <= z {
                        return true;
                    }
                    f = s;
                    z = s;
                },
            }
        }
        k = k + 1;
    }
    true
}

/// The candidate tricks of a walk from position `k` grow strictly longer in
/// turn, each holding more than `k` cards besides `trick`.
pub proof fn lemma_walk_grows(fvs: int, zs: int, trick: Seq<u8>, rh: Seq<u8>, k: int)
    requires
        0 <= k,
    ensures
        forall|i: int|
            0 <= i < untrick_walk(fvs, zs, trick, rh, k).len() ==> (#[trigger] untrick_walk(
                fvs,
                zs,
                trick,
                rh,
                k,
            )[i]).0.len() >= trick.len() + k + 1,
        forall|i: int, j: int|
            0 <= i < j < untrick_walk(fvs, zs, trick, rh, k).len() ==> (#[trigger] untrick_walk(
                fvs,
                zs,
                trick,
                rh,
                k,
            )[i]).0.len() < (#[trigger] untrick_walk(fvs, zs, trick, rh, k)[j]).0.len(),
    decreases rh.len() - k,
{
    if k < rh.len() {
        let b = rh[k] as int;
        let cut = (rh.take(k + 1).reverse() + trick, rh.skip(k + 1).reverse());
        assert(cut.0.len() == k + 1 + trick.len());
        let (f2, z2) = if b == 0 {
            (fvs, zs + 1)
        } else if fvs == 0 && b == zs {
            (b, b)
        } else {
            (fvs + b, fvs + b)
        };
        lemma_walk_grows(f2, z2, trick, rh, k + 1);
        let w = untrick_walk(fvs, zs, trick, rh, k);
        let w2 = untrick_walk(f2, z2, trick, rh, k + 1);
        if w.len() > 0 && w[0] == cut && w == seq![cut] + w2 {
            assert forall|i: int| 0 <= i < w.len() implies (#[trigger] w[i]).0.len() >= trick.len()
                + k + 1 by {
                if i > 0 {
                    assert(w[i] == w2[i - 1]);
                }
            }
            assert forall|i: int, j: int| 0 <= i < j < w.len() implies (#[trigger] w[i]).0.len() < (
            #[trigger] w[j]).0.len() by {
                assert(w[j] == w2[j - 1]);
                if i > 0 {
                    assert(w[i] == w2[i - 1]);
                }
            }
        } else if w == w2 {
        } else {
            assert(w.len() == 0);
        }
    }
}

/// Each candidate trick of a hand is the hand's top cards, bottom card first,
/// paired with the cards under them; the candidates hold strictly more cards
/// in turn.
pub proof fn lemma_untrick_cuts(hand: Seq<u8>)
    ensures
        forall|i: int|
            0 <= i < untrick_spec(hand).len() ==> {
                let d = #[trigger] untrick_spec(hand)[i];
                let m = hand.len() - d.0.len();
                &&& 0 <= m < hand.len()
                &&& d.0 == hand.skip(m).reverse()
                &&& d.1 == hand.take(m)
            },
        forall|i: int, j: int|
            0 <= i < j < untrick_spec(hand).len() ==> (#[trigger] untrick_spec(hand)[i]).0.len() < (
            #[trigger] untrick_spec(hand)[j]).0.len(),
{
    let rh = hand.reverse();
    let w = untrick_walk(0, 0, Seq::empty(), rh, 0);
    lemma_untrick_recombines(hand);
    lemma_walk_grows(0, 0, Seq::empty(), rh, 0);
    assert forall|i: int| 0 <= i < untrick_spec(hand).len() implies {
        let d = #[trigger] untrick_spec(hand)[i];
        let m = hand.len() - d.0.len();
        &&& 0 <= m < hand.len()
        &&& d.0 == hand.skip(m).reverse()
        &&& d.1 == hand.take(m)
    } by {
        let d = untrick_spec(hand)[i];
        let m = hand.len() - d.0.len();
        assert(d.1 + d.0.reverse() == hand);
        assert(d.1 =~= hand.take(m));
        assert(d.0.reverse() =~= hand.skip(m));
        lemma_reverse_reverse(d.0);
    }
    assert forall|i: int, j: int| 0 <= i < j < untrick_spec(hand).len() implies (
    #[trigger] untrick_spec(hand)[i]).0.len() < (#[trigger] untrick_spec(hand)[j]).0.len() by {
        assert(w[i].0.len() < w[j].0.len());
    }
}

/// Whether a hand can have just won a trick is decided by its first penalty
/// card from the top: when the `p` cards above it are plain, the hand can
/// have just won a trick exactly when that card's value is `p`. A hand of
/// plain cards only cannot have won one.
pub proof fn lemma_untrickable_first_penalty(hand: Seq<u8>, p: int)
    requires
        0 <= p <= hand.len(),
        forall|j: int| 0 <= j < p ==> #[trigger] from_top(hand, j) == 0,
        p < hand.len() ==> from_top(hand, p) != 0,
    ensures
        p == hand.len() ==> !untrickable_spec(hand),
        p < hand.len() ==> (untrickable_spec(hand) <==> from_top(hand, p) as int == p),
{
    if p < hand.len() && from_top(hand, p) as int == p {
        assert(0 <= p < hand.len() && from_top(hand, p) != 0 && from_top(hand, p) as int == p
            && forall|j: int| 0 <= j < p ==> #[trigger] from_top(hand, j) == 0);
    }
    if untrickable_spec(hand) {
        let q = choose|q: int|
            0 <= q < hand.len() && #[trigger] from_top(hand, q) != 0 && from_top(hand, q) as int
                == q && forall|j: int| 0 <= j < q ==> #[trigger] from_top(hand, j) == 0;
        if q < p {
            assert(from_top(hand, q) == 0);
        } else if q > p {
            assert(from_top(hand, p) == 0);
        }
    }
}

/// Walking past plain cards before any penalty card lists nothing: the walk
/// from the start is the walk from the first penalty card, with every card
/// walked past counted as unpaid.
proof fn lemma_walk_skips_plain(trick: Seq<u8>, rh: Seq<u8>, k: int)
    requires
        0 <= k <= rh.len(),
        forall|j: int| 0 <= j < k ==> #[trigger] rh[j] == 0,
    ensures
        untrick_walk(0, 0, trick, rh, 0) == untrick_walk(0, k, trick, rh, k),
    decreases k,
{
    if k > 0 {
        lemma_walk_skips_plain(trick, rh, k - 1);
        assert(rh[k - 1] == 0);
    }
}

/// The candidate tricks of a hand are decided by its first penalty card
/// from the top, with `p` plain cards above it: when its value is less than
/// `p` the tribute cannot have been paid and there is no candidate trick;
/// otherwise every candidate trick reaches down at least to that card. A
/// hand of plain cards only has no candidate trick.
pub proof fn lemma_untrick_first_penalty(hand: Seq<u8>, p: int)
    requires
        0 <= p <= hand.len(),
        forall|j: int| 0 <= j < p ==> #[trigger] from_top(hand, j) == 0,
        p < hand.len() ==> from_top(hand, p) != 0,
    ensures
        p == hand.len() ==> untrick_spec(hand).len() == 0,
        p < hand.len() && (from_top(hand, p) as int) < p ==> untrick_spec(hand).len() == 0,
        forall|i: int|
            0 <= i < untrick_spec(hand).len() ==> (#[trigger] untrick_spec(hand)[i]).0.len() > p,
{
    let rh = hand.reverse();
    assert forall|j: int| 0 <= j < p implies #[trigger] rh[j] == 0 by {
        assert(rh[j] == from_top(hand, j));
    }
    lemma_walk_skips_plain(Seq::empty(), rh, p);
    lemma_walk_grows(0, p, Seq::empty(), rh, p);
    if p < hand.len() {
        assert(rh[p] == from_top(hand, p));
    }
    let w = untrick_walk(0, 0, Seq::empty(), rh, 0);
    assert forall|i: int| 0 <= i < untrick_spec(hand).len() implies (#[trigger] untrick_spec(
        hand,
    )[i]).0.len() > p by {
        assert(untrick_spec(hand)[i].0 == w[i].0.reverse());
    }
}

/// A hand of `n` cards never overflows the walk's counts when `256 * n` fits
/// in `usize`.
pub proof fn lemma_short_hand_fits(fvs: int, zs: int, rh: Seq<u8>, k: int)
    requires
        0 <= k <= rh.len(),
        0 <= fvs <= zs,
        zs + 256 * (rh.len() - k) <= usize::MAX,
    ensures
        untrick_fits(fvs, zs, rh, k),
    decreases rh.len() - k,
{
    if k < rh.len() {
        let b = rh[k] as int;
        if b == 0 {
            lemma_short_hand_fits(fvs, zs + 1, rh, k + 1);
        } else if fvs == 0 && b == zs {
            lemma_short_hand_fits(b, b, rh, k + 1);
        } else if fvs + b != zs && fvs + b >= zs {
            lemma_short_hand_fits(fvs + b, fvs + b, rh, k + 1);
        }
    }
}

} // verus!

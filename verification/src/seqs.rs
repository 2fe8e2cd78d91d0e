use vstd::prelude::*;

verus! {

/// Reverses a vector of cards in place.
pub fn reverse_in_place(v: &mut Vec<u8>)
    ensures
        final(v)@ == old(v)@.reverse(),
{
    let n = v.len();
    let ghost orig = v@;
    let mut i: usize = 0;
    while i < n / 2
        invariant
            n == orig.len(),
            v@.len() == n,
            i <= n / 2,
            forall|j: int| 0 <= j < i ==> #[trigger] v@[j] == orig[n - 1 - j],
            forall|j: int| 0 <= j < i ==> #[trigger] v@[n - 1 - j] == orig[j],
            forall|j: int| i <= j < n - i ==> #[trigger] v@[j] == orig[j],
        decreases n / 2 - i,
    {
        let a = v[i];
        let b = v[n - 1 - i];
        v.set(i, b);
        v.set(n - 1 - i, a);
        i = i + 1;
    }
    proof {
        assert forall|j: int| 0 <= j < n implies #[trigger] v@[j] == orig.reverse()[j] by {
            if j < n / 2 {
            } else if j >= n - n / 2 {
                assert(v@[n - 1 - (n - 1 - j)] == orig[n - 1 - j]);
            } else {
            }
        }
        assert(v@ =~= orig.reverse());
    }
}

/// The cards of `v` from position `start` on, in reverse order.
pub fn reversed_from(v: &Vec<u8>, start: usize) -> (r: Vec<u8>)
    requires
        start <= v@.len(),
    ensures
        r@ == v@.skip(start as int).reverse(),
{
    let mut r: Vec<u8> = Vec::new();
    let mut i: usize = v.len();
    assert(v@.skip(i as int) =~= Seq::<u8>::empty());
    while i > start
        invariant
            start <= i <= v@.len(),
            r@ =~= v@.skip(i as int).reverse(),
        decreases i,
    {
        i = i - 1;
        r.push(v[i]);
        proof {
            assert(v@.skip(i as int).reverse() =~= v@.skip(i + 1).reverse().push(v@[i as int]));
        }
    }
    r
}

/// A reversed copy of a vector of cards.
pub fn reversed(v: &Vec<u8>) -> (r: Vec<u8>)
    ensures
        r@ == v@.reverse(),
{
    let r = reversed_from(v, 0);
    assert(v@.skip(0) =~= v@);
    r
}

/// Reversing twice gives the sequence back.
pub proof fn lemma_reverse_reverse(s: Seq<u8>)
    ensures
        s.reverse().reverse() == s,
{
    assert(s.reverse().reverse() =~= s);
}

/// Reversing a sequence reverses the order of its two parts.
pub proof fn lemma_reverse_split(s: Seq<u8>, m: int)
    requires
        0 <= m <= s.len(),
    ensures
        s.skip(m).reverse() + s.take(m).reverse() == s.reverse(),
{
    assert(s.skip(m).reverse() + s.take(m).reverse() =~= s.reverse());
}

/// A reversed sequence holds the same cards.
pub proof fn lemma_reverse_multiset(s: Seq<u8>)
    ensures
        s.reverse().to_multiset() == s.to_multiset(),
{
    s.lemma_reverse_to_multiset();
}

} // verus!

use vstd::prelude::*;

use crate::game::{play_one, play_one_check, play_record, Deal};
use crate::seqs::reversed;
use crate::setup::{make_game, make_game_spec, played, read_game, read_hand_spec, GameState, StateModel};
use crate::unplay::unplay;
use crate::unplay_spec::{unplay_returns, unplay_spec};

verus! {

/// The first position of a game, dealt from two hands given top card first,
/// in which a battle ends with the winner holding 26 cards: the winner's hand
/// and the other hand, top card first. Two empty hands when there is none.
pub open spec fn fast_play_spec(hand_one: Seq<u8>, hand_two: Seq<u8>) -> Deal {
    let deals = play_record(make_game_spec(hand_one, hand_two).game, Seq::empty()).1;
    if deals.len() > 0 {
        (deals[0].0.reverse(), deals[0].1.reverse())
    } else {
        (Seq::empty(), Seq::empty())
    }
}

/// The next position with 26 cards in each hand: a player holding the whole
/// deck against an empty hand comes first as it is; otherwise the game is
/// played until such a position.
pub open spec fn next_deck_spec(hand_one: Seq<u8>, hand_two: Seq<u8>) -> Deal {
    if hand_one.len() >= 52 && hand_two.len() <= 0 {
        (hand_one, hand_two)
    } else if hand_two.len() >= 52 && hand_one.len() <= 0 {
        (hand_two, hand_one)
    } else {
        fast_play_spec(hand_one, hand_two)
    }
}

/// Plays the game dealt from two hands (top card first) and gives the first
/// position in which a battle ends with the winner holding 26 cards.
pub fn fast_play_next_26s(hand_one: Vec<u8>, hand_two: Vec<u8>) -> (r: (Vec<u8>, Vec<u8>))
    ensures
        (r.0@, r.1@) == fast_play_spec(hand_one@, hand_two@),
{
    let mut g = make_game(hand_one, hand_two);
    let mut deals: Vec<(Vec<u8>, Vec<u8>)> = Vec::new();
    assert(deals.deep_view() =~= Seq::<Deal>::empty());
    play_one_check(&mut g.game, &mut deals);
    if deals.len() > 0 {
        let (h1, h2) = &deals[0];
        proof {
            assert(deals@[0].0.deep_view() =~= deals@[0].0@);
            assert(deals@[0].1.deep_view() =~= deals@[0].1@);
        }
        (reversed(h1), reversed(h2))
    } else {
        (Vec::new(), Vec::new())
    }
}

/// The next position with 26 cards in each hand, as `next_deck_spec` says.
pub fn next_deck_26s(hand_one: Vec<u8>, hand_two: Vec<u8>) -> (r: (Vec<u8>, Vec<u8>))
    ensures
        (r.0@, r.1@) == next_deck_spec(hand_one@, hand_two@),
{
    if hand_one.len() >= 52 && hand_two.len() <= 0 {
        return (hand_one, hand_two);
    } else if hand_two.len() >= 52 && hand_one.len() <= 0 {
        return (hand_two, hand_one);
    }
    fast_play_next_26s(hand_one, hand_two)
}

/// The positions of a list in which both hands hold 26 cards.
pub open spec fn keep_26s(s: Seq<Deal>) -> Seq<Deal>
    decreases s.len(),
{
    if s.len() == 0 {
        Seq::empty()
    } else if s.last().0.len() == 26 && s.last().1.len() == 26 {
        keep_26s(s.drop_last()).push(s.last())
    } else {
        keep_26s(s.drop_last())
    }
}

/// The game dealt from a position (hands given top card first), played out.
pub open spec fn replay(d: Deal) -> StateModel {
    played(make_game_spec(d.0, d.1))
}

/// Walks a position back, and plays out every position found with 26
/// cards in each hand: all positions found, and the games played.
pub fn record26s_alt(hand_one: Vec<u8>, hand_two: Vec<u8>) -> (r: (Vec<(Vec<u8>, Vec<u8>)>, Vec<GameState>))
    requires
        unplay_returns(hand_one@, hand_two@),
    ensures
        r.0.deep_view() == unplay_spec(hand_one@, hand_two@),
        r.1@.map_values(|g: GameState| g@) == keep_26s(unplay_spec(hand_one@, hand_two@)).map_values(
            |d: Deal| replay(d),
        ),
{
    let all_unplays = unplay(hand_one, hand_two);
    let ghost found = all_unplays.deep_view();
    let mut games: Vec<GameState> = Vec::new();
    let mut i: usize = 0;
    while i < all_unplays.len()
        invariant
            i <= all_unplays@.len(),
            found == all_unplays.deep_view(),
            games@.map_values(|g: GameState| g@) =~= keep_26s(found.take(i as int)).map_values(
                |d: Deal| replay(d),
            ),
        decreases all_unplays@.len() - i,
    {
        let (h1, h2) = &all_unplays[i];
        proof {
            assert(all_unplays@[i as int].0.deep_view() =~= h1@);
            assert(all_unplays@[i as int].1.deep_view() =~= h2@);
            assert(found.take(i + 1).drop_last() =~= found.take(i as int));
            assert(found.take(i + 1).last() == found[i as int]);
        }
        if h1.len() == 26 && h2.len() == 26 {
            let mut g = make_game(h1.clone(), h2.clone());
            play_one(&mut g.game);
            let ghost before = games@;
            games.push(g);
            proof {
                assert(games@.map_values(|g: GameState| g@) =~= before.map_values(
                    |g: GameState| g@,
                ).push(replay(found[i as int])));
            }
        }
        i = i + 1;
    }
    assert(found.take(all_unplays@.len() as int) =~= found);
    (all_unplays, games)
}

/// Whether the game written as two strings of card characters, played out,
/// takes `steps` steps.
pub open spec fn check_ok(p1: Seq<char>, p2: Seq<char>, steps: nat) -> bool {
    played(make_game_spec(read_hand_spec(p1), read_hand_spec(p2))).game.steps == steps
}

/// A game checks out at exactly one step count: the number of steps it takes
/// when played out.
pub proof fn lemma_check_ok_exactly(p1: Seq<char>, p2: Seq<char>, s: nat, t: nat)
    ensures
        check_ok(p1, p2, s) && check_ok(p1, p2, t) ==> s == t,
        check_ok(p1, p2, crate::game::play(make_game_spec(read_hand_spec(p1), read_hand_spec(p2)).game).steps),
{
}

/// Plays out the game written as two strings of card characters; gives the
/// played game and whether it took `steps` steps.
pub fn check_it(p1: &str, p2: &str, steps: u16) -> (r: (GameState, bool))
    ensures
        r.0@ == played(make_game_spec(read_hand_spec(p1@), read_hand_spec(p2@))),
        r.1 == check_ok(p1@, p2@, steps as nat),
{
    let mut game_state = read_game(p1, p2);
    play_one(&mut game_state.game);
    let ok = game_state.game.steps == steps;
    (game_state, ok)
}


/// The recorded long games: the two deals written as card characters, and
/// the number of steps each takes.
pub open spec fn check_cases_spec() -> Seq<(Seq<char>, Seq<char>, nat)> {
    seq![
        ("---AJ--Q---------QAKQJJ-QK"@, "-----A----KJ-K--------A---"@, 8345nat),
        ("------------KAQ----J------"@, "-JQQK---K----JK--QA-A-JA--"@, 4791nat),
        ("---JQ---K-A----A-J-K---QK-"@, "-J-----------AJQA----K---Q"@, 5790nat),
        ("A-QK------Q----KA-----J---"@, "-JAK----A--Q----J---QJ--K-"@, 6913nat),
        ("K-KK----K-A-----JAA--Q--J-"@, "---Q---Q-J-----J------AQ--"@, 7158nat),
        ("----Q------A--K--A-A--QJK-"@, "-Q--J--J---QK---K----JA---"@, 7208nat),
        ("--A-Q--J--J---Q--AJ-K---K-"@, "-J-------Q------A--A--QKK-"@, 7226nat),
        ("-J------Q------AAA-----QQ-"@, "K----JA-----------KQ-K-JJK"@, 7959nat),
        ("----K---A--Q-A--JJA------J"@, "-----KK---------A-JK-Q-Q-Q"@, 7972nat),
        ("---Q--Q--J-Q-J----------A-"@, "--K-K-KAQ-AA-----J-J-----K"@, 5676nat),
        ("-J-QAA-----Q---K---Q-K--K-"@, "-A-----Q---J---KJ-A-----J-"@, 5328nat),
    ]
}

/// The recorded long games, as `check_cases_spec` lists them.
pub fn check_cases() -> (r: Vec<(&'static str, &'static str, u16)>)
    ensures
        r@.map_values(|c: (&'static str, &'static str, u16)| (c.0@, c.1@, c.2 as nat))
            == check_cases_spec(),
{
    let mut v: Vec<(&'static str, &'static str, u16)> = Vec::new();
    v.push(("---AJ--Q---------QAKQJJ-QK", "-----A----KJ-K--------A---", 8345));
    v.push(("------------KAQ----J------", "-JQQK---K----JK--QA-A-JA--", 4791));
    v.push(("---JQ---K-A----A-J-K---QK-", "-J-----------AJQA----K---Q", 5790));
    v.push(("A-QK------Q----KA-----J---", "-JAK----A--Q----J---QJ--K-", 6913));
    v.push(("K-KK----K-A-----JAA--Q--J-", "---Q---Q-J-----J------AQ--", 7158));
    v.push(("----Q------A--K--A-A--QJK-", "-Q--J--J---QK---K----JA---", 7208));
    v.push(("--A-Q--J--J---Q--AJ-K---K-", "-J-------Q------A--A--QKK-", 7226));
    v.push(("-J------Q------AAA-----QQ-", "K----JA-----------KQ-K-JJK", 7959));
    v.push(("----K---A--Q-A--JJA------J", "-----KK---------A-JK-Q-Q-Q", 7972));
    v.push(("---Q--Q--J-Q-J----------A-", "--K-K-KAQ-AA-----J-J-----K", 5676));
    v.push(("-J-QAA-----Q---K---Q-K--K-", "-A-----Q---J---KJ-A-----J-", 5328));
    assert(v@.map_values(|c: (&'static str, &'static str, u16)| (c.0@, c.1@, c.2 as nat))
        =~= check_cases_spec());
    v
}

/// Whether the recorded long games all take the number of steps recorded
/// for them.
pub fn check_all() -> (r: bool)
    ensures
        r == forall|i: int|
            0 <= i < check_cases_spec().len() ==> #[trigger] check_ok(
                check_cases_spec()[i].0,
                check_cases_spec()[i].1,
                check_cases_spec()[i].2,
            ),
{
    let cases = check_cases();
    let ghost spec_cases = check_cases_spec();
    let mut all = true;
    let mut i: usize = 0;
    while i < cases.len()
        invariant
            i <= cases@.len(),
            spec_cases == check_cases_spec(),
            cases@.map_values(|c: (&'static str, &'static str, u16)| (c.0@, c.1@, c.2 as nat))
                == spec_cases,
            all == forall|j: int|
                0 <= j < i ==> #[trigger] check_ok(spec_cases[j].0, spec_cases[j].1, spec_cases[j].2),
        decreases cases@.len() - i,
    {
        let (p1, p2, steps) = cases[i];
        let (_, ok) = check_it(p1, p2, steps);
        proof {
            assert(spec_cases[i as int] == (p1@, p2@, steps as nat));
            if !ok {
                assert(!check_ok(spec_cases[i as int].0, spec_cases[i as int].1, spec_cases[i as int].2));
            }
        }
        all = all && ok;
        i = i + 1;
    }
    all
}

} // verus!

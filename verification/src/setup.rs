use vstd::prelude::*;

use crate::cards::{card_char, char_card, read_card};
use crate::game::{swapped, Game, GameModel};
use crate::seqs::reverse_in_place;

verus! {

/// A dealt game: the two hands as dealt (top card last) and the game played
/// from them.
pub struct GameState {
    pub p1deal: Vec<u8>,
    pub p2deal: Vec<u8>,
    pub game: Game,
}

/// What a dealt game is, as mathematics.
pub struct StateModel {
    pub p1deal: Seq<u8>,
    pub p2deal: Seq<u8>,
    pub game: GameModel,
}

impl View for GameState {
    type V = StateModel;

    open spec fn view(&self) -> StateModel {
        StateModel { p1deal: self.p1deal@, p2deal: self.p2deal@, game: self.game@ }
    }
}

/// The game dealt from two hands given top card first: the first player
/// moves, nothing has been played yet.
pub open spec fn make_game_spec(deal1: Seq<u8>, deal2: Seq<u8>) -> StateModel {
    StateModel {
        p1deal: deal1.reverse(),
        p2deal: deal2.reverse(),
        game: GameModel {
            p1hand: deal1.reverse(),
            p2hand: deal2.reverse(),
            pot: Seq::empty(),
            penalty: 0,
            steps: 0,
            p1active: true,
        },
    }
}

/// A dealt game played out.
pub open spec fn played(s: StateModel) -> StateModel {
    StateModel { game: crate::game::play(s.game), ..s }
}

/// Dealing a deck (top card first): the cards from the 27th on go to the
/// first player, the first 26 to the second; with `swap` the second player
/// moves first.
pub open spec fn deal_spec(cards: Seq<u8>, swap: bool) -> StateModel {
    let s = make_game_spec(cards.skip(26), cards.take(26));
    if swap {
        StateModel { game: swapped(s.game), ..s }
    } else {
        s
    }
}

/// The cards a string of card characters stands for.
pub open spec fn read_hand_spec(s: Seq<char>) -> Seq<u8> {
    s.map_values(|c: char| char_card(c))
}

/// The number of penalty cards in a hand.
pub open spec fn penalty_count(s: Seq<u8>) -> nat
    decreases s.len(),
{
    if s.len() == 0 {
        0
    } else {
        penalty_count(s.drop_last()) + if s.last() > 0 {
            1nat
        } else {
            0nat
        }
    }
}

/// The character of a digit.
pub open spec fn digit_char(d: nat) -> char {
    ((48 + d) as u8) as char
}

/// A number written in decimal.
pub open spec fn decimal(n: nat) -> Seq<char>
    decreases n,
{
    if n < 10 {
        seq![digit_char(n)]
    } else {
        decimal(n / 10) + seq![digit_char(n % 10)]
    }
}

/// A hand as dealt, written top card first.
pub open spec fn show_hand_spec(deal: Seq<u8>) -> Seq<char> {
    deal.reverse().map_values(|c: u8| card_char(c))
}

/// A dealt game written as its step count, then the deal of the player now
/// to move and the other deal, separated by spaces.
pub open spec fn show_spec(s: StateModel) -> Seq<char> {
    let p1 = show_hand_spec(s.p1deal);
    let p2 = show_hand_spec(s.p2deal);
    if s.game.p1active {
        decimal(s.game.steps) + seq![' '] + p1 + seq![' '] + p2
    } else {
        decimal(s.game.steps) + seq![' '] + p2 + seq![' '] + p1
    }
}

/// Deals a game from two hands given top card first.
pub fn make_game(deal1: Vec<u8>, deal2: Vec<u8>) -> (r: GameState)
    ensures
        r@ == make_game_spec(deal1@, deal2@),
{
    let mut deal1 = deal1;
    let mut deal2 = deal2;
    reverse_in_place(&mut deal1);
    reverse_in_place(&mut deal2);
    GameState {
        p1deal: deal1.clone(),
        p2deal: deal2.clone(),
        game: Game {
            p1hand: deal1,
            p2hand: deal2,
            pot: Vec::with_capacity(64),
            penalty: 0,
            steps: 0,
            p1active: true,
        },
    }
}

/// Deals a deck of at least 26 cards between two players.
pub fn deal(cards: Vec<u8>, swap: bool) -> (r: GameState)
    requires
        cards@.len() >= 26,
    ensures
        r@ == deal_spec(cards@, swap),
{
    let mut cards = cards;
    let mut deal1: Vec<u8> = Vec::with_capacity(64);
    let mut deal2: Vec<u8> = Vec::with_capacity(64);
    let ghost all = cards@;
    let mut top = cards.split_off(26);
    deal1.append(&mut top);
    deal2.append(&mut cards);
    assert(deal1@ =~= all.skip(26));
    assert(deal2@ =~= all.take(26));
    let mut g = make_game(deal1, deal2);
    if swap {
        g.game.swap();
    }
    g
}

/// The cards a string of card characters stands for.
pub fn read_hand(s: &str) -> (r: Vec<u8>)
    ensures
        r@ == read_hand_spec(s@),
{
    let n = s.unicode_len();
    let mut r: Vec<u8> = Vec::new();
    let mut i: usize = 0;
    while i < n
        invariant
            n == s@.len(),
            i <= n,
            r@ =~= read_hand_spec(s@.take(i as int)),
        decreases n - i,
    {
        r.push(read_card(s.get_char(i)));
        proof {
            assert(s@.take(i + 1) =~= s@.take(i as int).push(s@[i as int]));
        }
        i = i + 1;
    }
    assert(s@.take(n as int) =~= s@);
    r
}

/// The two hands written as strings of card characters.
pub fn read_hands(p1: &str, p2: &str) -> (r: (Vec<u8>, Vec<u8>))
    ensures
        r.0@ == read_hand_spec(p1@),
        r.1@ == read_hand_spec(p2@),
{
    let p1hand = read_hand(p1);
    let p2hand = read_hand(p2);
    (p1hand, p2hand)
}

/// Deals the game written as two strings of card characters.
pub fn read_game(p1: &str, p2: &str) -> (r: GameState)
    ensures
        r@ == make_game_spec(read_hand_spec(p1@), read_hand_spec(p2@)),
{
    let (p1deal, p2deal) = read_hands(p1, p2);
    make_game(p1deal, p2deal)
}

/// The number of penalty cards in a hand, as a byte (counting on from 0
/// past 255).
pub fn count_penalty_cards(vd: &Vec<u8>) -> (r: u8)
    ensures
        r == penalty_count(vd@) as u8,
{
    let mut count: usize = 0;
    let mut i: usize = 0;
    while i < vd.len()
        invariant
            i <= vd@.len(),
            count == penalty_count(vd@.take(i as int)),
            count <= i,
        decreases vd@.len() - i,
    {
        proof {
            assert(vd@.take(i + 1).drop_last() =~= vd@.take(i as int));
        }
        if vd[i] > 0 {
            count = count + 1;
        }
        i = i + 1;
    }
    assert(vd@.take(vd@.len() as int) =~= vd@);
    count as u8
}

/// A digit as a one-character string.
fn digit_text(d: u8) -> (r: &'static str)
    requires
        d < 10,
    ensures
        r@ == seq![digit_char(d as nat)],
{
    match d {
        0 => {
            proof {
                reveal_strlit("0");
            }
            "0"
        },
        1 => {
            proof {
                reveal_strlit("1");
            }
            "1"
        },
        2 => {
            proof {
                reveal_strlit("2");
            }
            "2"
        },
        3 => {
            proof {
                reveal_strlit("3");
            }
            "3"
        },
        4 => {
            proof {
                reveal_strlit("4");
            }
            "4"
        },
        5 => {
            proof {
                reveal_strlit("5");
            }
            "5"
        },
        6 => {
            proof {
                reveal_strlit("6");
            }
            "6"
        },
        7 => {
            proof {
                reveal_strlit("7");
            }
            "7"
        },
        8 => {
            proof {
                reveal_strlit("8");
            }
            "8"
        },
        _ => {
            proof {
                reveal_strlit("9");
            }
            "9"
        },
    }
}

/// A card as a one-character string.
fn card_text(c: &u8) -> (r: &'static str)
    ensures
        r@ == seq![card_char(*c)],
{
    match *c {
        4 => {
            proof {
                reveal_strlit("A");
            }
            "A"
        },
        3 => {
            proof {
                reveal_strlit("K");
            }
            "K"
        },
        2 => {
            proof {
                reveal_strlit("Q");
            }
            "Q"
        },
        1 => {
            proof {
                reveal_strlit("J");
            }
            "J"
        },
        0 => {
            proof {
                reveal_strlit("-");
            }
            "-"
        },
        _ => {
            proof {
                reveal_strlit("X");
            }
            "X"
        },
    }
}

/// Appends a space.
fn push_space(out: &mut String)
    ensures
        final(out)@ == old(out)@ + seq![' '],
{
    out.append(" ");
    proof {
        reveal_strlit(" ");
    }
}

/// Appends the decimal digits of `n` to `out`.
fn push_decimal(out: &mut String, n: u16)
    ensures
        final(out)@ == old(out)@ + decimal(n as nat),
    decreases n,
{
    let ghost start = out@;
    if n >= 10 {
        push_decimal(out, n / 10);
    }
    let d = (n % 10) as u8;
    out.append(digit_text(d));
    assert(out@ =~= start + decimal(n as nat));
}

/// Appends a dealt hand, top card first, to `out`.
fn push_hand(out: &mut String, deal: &Vec<u8>)
    ensures
        final(out)@ == old(out)@ + show_hand_spec(deal@),
{
    let ghost start = out@;
    let mut i: usize = deal.len();
    while i > 0
        invariant
            i <= deal@.len(),
            out@ =~= start + deal@.skip(i as int).reverse().map_values(|c: u8| card_char(c)),
        decreases i,
    {
        i = i - 1;
        out.append(card_text(&deal[i]));
        proof {
            assert(deal@.skip(i as int).reverse() =~= deal@.skip(i + 1).reverse().push(
                deal@[i as int],
            ));
        }
    }
    assert(deal@.skip(0) =~= deal@);
}

impl GameState {
    /// The game written as its step count, then the deal of the player now
    /// to move and the other deal.
    pub fn show(&self) -> (r: String)
        ensures
            r@ == show_spec(self@),
    {
        let mut out = String::new();
        push_decimal(&mut out, self.game.steps);
        push_space(&mut out);
        if self.game.p1active {
            push_hand(&mut out, &self.p1deal);
            push_space(&mut out);
            push_hand(&mut out, &self.p2deal);
        } else {
            push_hand(&mut out, &self.p2deal);
            push_space(&mut out);
            push_hand(&mut out, &self.p1deal);
        }
        out
    }
}

/// The two deals of a deck, put back top card first, give the deck: the
/// second player's deal first.
pub proof fn lemma_deal_holds_deck(cards: Seq<u8>, swap: bool)
    requires
        cards.len() >= 26,
    ensures
        deal_spec(cards, swap).p2deal.reverse() + deal_spec(cards, swap).p1deal.reverse() == cards,
{
    crate::seqs::lemma_reverse_reverse(cards.take(26));
    crate::seqs::lemma_reverse_reverse(cards.skip(26));
    assert(cards.take(26) + cards.skip(26) =~= cards);
}

} // verus!

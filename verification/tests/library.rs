use bmnrs::cards::{read_card, show_card};
use bmnrs::districk::{districk, districk_go};
use bmnrs::game::{boring_card, pay_tribute, pay_tribute_check, penalty_card, play_one, play_one_check, Game};
use bmnrs::many::{finish_round, play_many_round, play_rotations, rotated_right, start_search, GAMES_LIMIT};
use bmnrs::search::{check_all, check_cases, check_it, fast_play_next_26s, next_deck_26s, record26s_alt};
use bmnrs::seqs::{reverse_in_place, reversed};
use bmnrs::setup::{count_penalty_cards, deal, make_game, read_game, read_hands};
use bmnrs::unplay::{loop_unplay, unplay, unplay_bounded};
use bmnrs::untrick::{untrick, untrick_fits_check, untrick_go, untrickable};

fn sorted(mut v: Vec<u8>) -> Vec<u8> {
    v.sort();
    v
}

fn all_cards(g: &Game) -> Vec<u8> {
    let mut v = g.p1hand.clone();
    v.extend_from_slice(&g.p2hand);
    v.extend_from_slice(&g.pot);
    sorted(v)
}

fn game(p1: Vec<u8>, p2: Vec<u8>, pot: Vec<u8>, penalty: u8) -> Game {
    Game { p1hand: p1, p2hand: p2, pot, penalty, steps: 0, p1active: true }
}

#[test]
fn cards_read_back_what_they_show() {
    for c in 0u8..=4 {
        assert_eq!(read_card(show_card(&c)), c);
    }
    for ch in ['A', 'K', 'Q', 'J', '-'] {
        assert_eq!(show_card(&read_card(ch)), ch);
    }
    assert_eq!(show_card(&7), 'X');
    assert_eq!(read_card('x'), 0);
    assert_eq!(read_card('A'), 4);
    assert_eq!(show_card(&2), 'Q');
}

#[test]
fn swap_twice_is_no_change() {
    let mut g = game(vec![1, 2], vec![3], vec![4], 2);
    g.swap();
    assert_eq!(g.p1hand, vec![3]);
    assert_eq!(g.p2hand, vec![1, 2]);
    assert!(!g.p1active);
    g.swap();
    assert_eq!(g.p1hand, vec![1, 2]);
    assert_eq!(g.p2hand, vec![3]);
    assert!(g.p1active);
}

#[test]
fn boring_and_penalty_cards_go_to_the_pot() {
    let mut g = game(vec![0, 0], vec![0], vec![], 0);
    boring_card(&mut g, 0);
    assert_eq!(g.pot, vec![0]);
    assert_eq!(g.p1hand, vec![0]);
    assert_eq!(g.p2hand, vec![0, 0]);
    assert!(!g.p1active);
    penalty_card(&mut g, 3);
    assert_eq!(g.penalty, 3);
    assert_eq!(g.pot, vec![0, 3]);
    assert!(g.p1active);
}

#[test]
fn last_tribute_hands_the_pot_to_the_winner() {
    let mut g = game(vec![], vec![5, 6], vec![1, 2], 1);
    pay_tribute(&mut g, 0);
    assert_eq!(g.p1hand, vec![0, 2, 1, 5, 6]);
    assert_eq!(g.p2hand, Vec::<u8>::new());
    assert_eq!(g.pot, Vec::<u8>::new());
    assert_eq!(g.penalty, 0);
    assert!(!g.p1active);

    let mut g = game(vec![9], vec![5], vec![2], 2);
    pay_tribute(&mut g, 0);
    assert_eq!(g.pot, vec![2, 0]);
    assert_eq!(g.penalty, 1);
    assert_eq!(g.p1hand, vec![9]);
    assert!(g.p1active);
}

#[test]
fn tribute_check_records_26_card_winners() {
    let winner: Vec<u8> = vec![0; 24];
    let mut g = game(vec![7], winner.clone(), vec![3], 1);
    let mut deals = Vec::new();
    pay_tribute_check(&mut g, 0, &mut deals);
    assert_eq!(g.p1hand.len(), 26);
    assert!(!g.p1active);
    assert_eq!(deals, vec![(g.p1hand.clone(), vec![7])]);

    let mut g = game(vec![7], vec![0; 10], vec![3], 1);
    let mut deals = Vec::new();
    pay_tribute_check(&mut g, 0, &mut deals);
    assert!(deals.is_empty());
}

#[test]
fn play_keeps_the_cards_and_stops() {
    let mut gs = read_game("---AJ--Q---------QAKQJJ-QK", "-----A----KJ-K--------A---");
    let before = all_cards(&gs.game);
    play_one(&mut gs.game);
    assert_eq!(all_cards(&gs.game), before);
    assert_eq!(gs.game.steps, 8345);
    assert!(gs.game.p1hand.is_empty() || gs.game.steps > 8500);
}

#[test]
fn play_one_stops_past_the_step_limit() {
    let mut g = game(vec![0; 10], vec![0; 10], vec![], 0);
    g.steps = 8499;
    play_one(&mut g);
    assert_eq!(g.steps, 8501);
    assert_eq!(g.pot.len(), 2);
}

#[test]
fn checking_plays_the_same_game() {
    let mut a = read_game("-JA--Q-JK--------Q-JKK----", "----J----A-A---Q-A----QK--");
    let mut b = read_game("-JA--Q-JK--------Q-JKK----", "----J----A-A---Q-A----QK--");
    let mut deals = Vec::new();
    play_one(&mut a.game);
    play_one_check(&mut b.game, &mut deals);
    assert_eq!(a.game.steps, b.game.steps);
    assert_eq!(a.game.p1hand, b.game.p1hand);
    assert_eq!(a.game.p2hand, b.game.p2hand);
    assert_eq!(a.game.pot, b.game.pot);
    assert_eq!(a.game.p1active, b.game.p1active);
    assert!(!deals.is_empty());
    for (x, y) in &deals {
        assert!(x.len() == 26 || y.len() == 26);
        assert_eq!(x.len() + y.len(), 52);
    }
}

#[test]
fn all_recorded_games_take_their_steps() {
    assert!(check_all());
}

#[test]
fn check_it_reports_a_wrong_count() {
    let (g, ok) = check_it("---AJ--Q---------QAKQJJ-QK", "-----A----KJ-K--------A---", 8345);
    assert!(ok);
    assert_eq!(g.game.steps, 8345);
    let (_, ok) = check_it("---AJ--Q---------QAKQJJ-QK", "-----A----KJ-K--------A---", 1);
    assert!(!ok);
}

#[test]
fn games_show_steps_and_deals() {
    let g = read_game("A-", "K--");
    assert_eq!(g.show(), "0 A- K--");
    let mut g = read_game("A-", "K--");
    g.game.swap();
    g.game.steps = 123;
    assert_eq!(g.show(), "123 K-- A-");
}

#[test]
fn make_game_reverses_the_deals() {
    let g = make_game(vec![1, 2, 3], vec![4, 0]);
    assert_eq!(g.p1deal, vec![3, 2, 1]);
    assert_eq!(g.p2deal, vec![0, 4]);
    assert_eq!(g.game.p1hand, vec![3, 2, 1]);
    assert_eq!(g.game.p2hand, vec![0, 4]);
    assert!(g.game.pot.is_empty());
    assert_eq!(g.game.steps, 0);
    assert_eq!(g.game.penalty, 0);
    assert!(g.game.p1active);
}

#[test]
fn dealing_splits_at_26() {
    let cards: Vec<u8> = (0u8..52).collect();
    let g = deal(cards.clone(), false);
    let mut top: Vec<u8> = cards[26..].to_vec();
    top.reverse();
    let mut bottom: Vec<u8> = cards[..26].to_vec();
    bottom.reverse();
    assert_eq!(g.p1deal, top);
    assert_eq!(g.p2deal, bottom);
    assert_eq!(g.game.p1hand, top);
    assert!(g.game.p1active);
    let s = deal(cards, true);
    assert_eq!(s.game.p1hand, bottom);
    assert_eq!(s.game.p2hand, top);
    assert_eq!(s.p1deal, top);
    assert!(!s.game.p1active);
}

#[test]
fn reading_hands() {
    let (a, b) = read_hands("AKQJ-x", "");
    assert_eq!(a, vec![4, 3, 2, 1, 0, 0]);
    assert_eq!(b, Vec::<u8>::new());
}

#[test]
fn counting_penalty_cards() {
    assert_eq!(count_penalty_cards(&vec![0, 4, 0, 1, 2]), 3);
    assert_eq!(count_penalty_cards(&vec![]), 0);
    assert_eq!(count_penalty_cards(&vec![1; 300]), 44);
}

#[test]
fn reversing() {
    let mut v = vec![1, 2, 3, 4, 5];
    reverse_in_place(&mut v);
    assert_eq!(v, vec![5, 4, 3, 2, 1]);
    assert_eq!(reversed(&v), vec![1, 2, 3, 4, 5]);
    let mut e: Vec<u8> = vec![];
    reverse_in_place(&mut e);
    assert!(e.is_empty());
}

#[test]
fn untrickable_edges() {
    assert!(!untrickable(vec![]));
    assert!(!untrickable(vec![0, 0]));
    assert!(untrickable(vec![0, 0, 2, 0, 0]));
    assert!(!untrickable(vec![2, 0, 0, 1]));
}

#[test]
fn untrick_go_walks_a_reversed_hand() {
    let mut rh = vec![0, 1];
    assert_eq!(untrick_go(0, 0, vec![], &mut rh), vec![(vec![1, 0], vec![])]);
    assert_eq!(rh, vec![0, 1]);
    let mut rh = vec![2, 3, 0, 4, 0];
    assert_eq!(
        untrick_go(0, 0, vec![], &mut rh),
        vec![
            (vec![2], vec![0, 4, 0, 3]),
            (vec![3, 2], vec![0, 4, 0]),
            (vec![0, 3, 2], vec![0, 4]),
            (vec![4, 0, 3, 2], vec![0]),
            (vec![0, 4, 0, 3, 2], vec![])
        ]
    );
    let mut rh = vec![0, 0, 2];
    assert_eq!(
        untrick_go(1, 0, vec![9], &mut rh),
        vec![(vec![0, 9], vec![2, 0]), (vec![0, 0, 9], vec![2]), (vec![2, 0, 0, 9], vec![])]
    );
}

#[test]
fn untrick_reverses_the_hand_and_recombines() {
    let hand = vec![3, 0, 0, 0, 1, 0];
    let mut h = hand.clone();
    let tricks = untrick(&mut h);
    let mut rev = hand.clone();
    rev.reverse();
    assert_eq!(h, rev);
    assert!(!tricks.is_empty());
    for (t, rest) in tricks {
        assert!(!t.is_empty());
        let mut back = rest.clone();
        let mut tr = t.clone();
        tr.reverse();
        back.extend_from_slice(&tr);
        assert_eq!(back, hand);
    }
}

#[test]
fn districk_go_takes_a_trick_back() {
    assert_eq!(districk_go(vec![7], vec![8], vec![0], vec![0, 3, 0]), (vec![3, 8], vec![0, 0, 0, 7]));
    assert_eq!(districk_go(vec![1], vec![2], vec![], vec![]), (vec![2], vec![1]));
}

#[test]
fn districk_keeps_the_cards() {
    let lh = vec![4, 0, 0, 0, 1, 0];
    let trick = (vec![2, 0, 1, 0], vec![1, 0, 1]);
    let (a, b) = districk(lh.clone(), trick.clone());
    let mut x = a.clone();
    x.extend_from_slice(&b);
    let mut y = lh.clone();
    y.extend_from_slice(&trick.0);
    y.extend_from_slice(&trick.1);
    assert_eq!(sorted(x), sorted(y));
}

#[test]
fn unplay_keeps_the_cards() {
    let big = vec![
        0, 1, 2, 0, 0, 0, 0, 0, 0, 0, 0, 0, 0, 3, 0, 0, 0, 0, 0, 0, 2, 0, 0, 2, 3, 0, 0, 3, 4, 0, 4, 0, 0,
        1, 0, 0, 0, 4, 0, 0, 1, 0, 1, 0, 3, 4, 2, 0, 0,
    ];
    let found = unplay(big.clone(), vec![0, 0, 0]);
    assert!(!found.is_empty());
    let mut all = big.clone();
    all.extend_from_slice(&[0, 0, 0]);
    for (a, b) in found {
        let mut x = a.clone();
        x.extend_from_slice(&b);
        assert_eq!(sorted(x), sorted(all.clone()));
    }
    assert_eq!(unplay(vec![0, 1], vec![]), Vec::<(Vec<u8>, Vec<u8>)>::new());
}

#[test]
fn loop_unplay_lists_the_position_first() {
    assert_eq!(loop_unplay(vec![], &(vec![1, 0], vec![])), vec![(vec![0], vec![1])]);
    assert_eq!(
        loop_unplay(vec![0, 0], &(vec![2, 0, 0], vec![])),
        vec![(vec![0, 2], vec![0, 0, 0])]
    );
}

#[test]
fn whole_deck_positions_come_back_as_they_are() {
    let deck: Vec<u8> = vec![1; 52];
    assert_eq!(next_deck_26s(deck.clone(), vec![]), (deck.clone(), vec![]));
    assert_eq!(next_deck_26s(vec![], deck.clone()), (deck.clone(), vec![]));
}

#[test]
fn no_26_card_position_gives_empty_hands() {
    assert_eq!(fast_play_next_26s(vec![0, 0], vec![0]), (vec![], vec![]));
    assert_eq!(next_deck_26s(vec![0, 0], vec![0]), (vec![], vec![]));
}

#[test]
fn record26s_replays_the_26_card_positions() {
    let (h1, h2) = read_hands("-JA--Q-JK--------Q-JKK----", "----J----A-A---Q-A----QK--");
    let (n1, n2) = next_deck_26s(h1, h2);
    let (all, games) = record26s_alt(n1.clone(), n2.clone());
    assert_eq!(all, unplay(n1, n2));
    let keep: Vec<&(Vec<u8>, Vec<u8>)> =
        all.iter().filter(|(a, b)| a.len() == 26 && b.len() == 26).collect();
    assert_eq!(keep.len(), games.len());
    for (pair, g) in keep.iter().zip(games.iter()) {
        let mut fresh = make_game(pair.0.clone(), pair.1.clone());
        play_one(&mut fresh.game);
        assert_eq!(fresh.show(), g.show());
        assert_eq!(fresh.game.steps, g.game.steps);
    }
}

fn deck() -> Vec<u8> {
    let mut cards: Vec<u8> = Vec::new();
    for _c in 0..4 {
        cards.push(4);
        cards.push(3);
        cards.push(2);
        cards.push(1);
    }
    for _c in 0..36 {
        cards.push(0);
    }
    cards
}

#[test]
fn rotating_a_deck() {
    assert_eq!(rotated_right(&vec![1, 2, 3, 4], 1), vec![4, 1, 2, 3]);
    assert_eq!(rotated_right(&vec![1, 2, 3, 4], 0), vec![1, 2, 3, 4]);
    assert_eq!(rotated_right(&vec![1, 2, 3, 4], 4), vec![1, 2, 3, 4]);
}

#[test]
fn rotations_keep_improving_games() {
    let cards = deck();
    let out = play_rotations(&cards, 0);
    let mut rotations_played: u64 = 0;
    for r in 0..51 {
        let mut c = cards.clone();
        c.rotate_right(r);
        let g = deal(c, false);
        let n = count_penalty_cards(&g.p1deal);
        if !(n > 11 || n < 5) {
            rotations_played += 1;
        }
    }
    assert_eq!(out.games, 4 * rotations_played);
    let mut last = 0;
    for g in &out.improvements {
        assert!(g.game.steps > last);
        last = g.game.steps;
    }
    assert_eq!(out.highscore, last);
    let none = play_rotations(&cards, 9000);
    assert!(none.improvements.is_empty());
    assert_eq!(none.highscore, 9000);
}

#[test]
fn a_round_shuffles_the_same_cards() {
    let cards = deck();
    let mut rng = rand::thread_rng();
    let (shuffled, out) = play_many_round(&mut rng, &cards, 0);
    assert_eq!(sorted(shuffled.clone()), sorted(cards.clone()));
    assert_ne!(shuffled, cards);
    let again = play_rotations(&shuffled, 0);
    assert_eq!(again.games, out.games);
    assert_eq!(again.highscore, out.highscore);
    assert_eq!(again.improvements.len(), out.improvements.len());
}

#[test]
fn a_search_counts_and_keeps_its_best() {
    let cards = deck();
    let mut state = start_search(&cards);
    assert_eq!(state.counter, 0);
    assert_eq!(state.highscore, 0);
    assert_eq!(state.best_game.game.steps, 0);
    let out = play_rotations(&cards, 0);
    let games = out.games;
    let best = out.improvements.last().map(|g| g.show());
    let high = out.highscore;
    let report = finish_round(&mut state, out);
    assert_eq!(state.counter, games);
    assert_eq!(state.highscore, high);
    if let Some(b) = best {
        assert_eq!(state.best_game.show(), b);
    }
    assert_eq!(report.report, games % 1000000 == 0);
    assert!(!report.stop);
    state.counter = GAMES_LIMIT;
    let empty = play_rotations(&cards, 9000);
    let n = empty.games;
    let report = finish_round(&mut state, empty);
    assert_eq!(report.stop, n > 0);
}

#[test]
fn recorded_cases_are_listed() {
    let cases = check_cases();
    assert_eq!(cases.len(), 11);
    assert_eq!(cases[0], ("---AJ--Q---------QAKQJJ-QK", "-----A----KJ-K--------A---", 8345));
    assert_eq!(cases[10].2, 5328);
    for (p1, p2, steps) in cases {
        assert!(check_it(p1, p2, steps).1);
    }
}

#[test]
fn a_bounded_walk_gives_up_or_agrees() {
    assert_eq!(unplay_bounded(vec![1, 0], vec![], 0), None);
    assert_eq!(unplay_bounded(vec![1, 0], vec![], 1), None);
    assert_eq!(unplay_bounded(vec![1, 0], vec![], 2), Some(vec![(vec![1], vec![0])]));
    assert_eq!(unplay_bounded(vec![4, 0], vec![0, 2, 0], 1), Some(vec![]));
    let big = vec![
        0, 1, 2, 0, 0, 0, 0, 0, 0, 0, 0, 0, 0, 3, 0, 0, 0, 0, 0, 0, 2, 0, 0, 2, 3, 0, 0, 3, 4, 0, 4, 0, 0,
        1, 0, 0, 0, 4, 0, 0, 1, 0, 1, 0, 3, 4, 2, 0, 0,
    ];
    assert_eq!(unplay_bounded(big.clone(), vec![], 1000), Some(unplay(big.clone(), vec![])));
    assert_eq!(unplay_bounded(big, vec![], 1), None);
}

#[test]
fn short_hands_fit_the_walk() {
    assert!(untrick_fits_check(&vec![0, 1, 0, 4]));
    assert!(untrick_fits_check(&vec![]));
}

use vstd::prelude::*;

verus! {

/// The value of a card as a character: `A`, `K`, `Q`, `J` for the penalty
/// cards 4, 3, 2, 1, `-` for a plain card and `X` for anything else.
pub open spec fn card_char(c: u8) -> char {
    if c == 4 {
        'A'
    } else if c == 3 {
        'K'
    } else if c == 2 {
        'Q'
    } else if c == 1 {
        'J'
    } else if c == 0 {
        '-'
    } else {
        'X'
    }
}

/// The card a character stands for; every character other than
/// `A`, `K`, `Q`, `J` reads as a plain card.
pub open spec fn char_card(c: char) -> u8 {
    if c == 'A' {
        4
    } else if c == 'K' {
        3
    } else if c == 'Q' {
        2
    } else if c == 'J' {
        1
    } else {
        0
    }
}

pub fn show_card(c: &u8) -> (r: char)
    ensures
        r == card_char(*c),
{
    match *c {
        4 => 'A',
        3 => 'K',
        2 => 'Q',
        1 => 'J',
        0 => '-',
        _ => 'X',
    }
}

pub fn read_card(c: char) -> (r: u8)
    ensures
        r == char_card(c),
{
    match c {
        'A' => 4,
        'K' => 3,
        'Q' => 2,
        'J' => 1,
        '-' => 0,
        _ => 0,
    }
}

/// Reading back a shown card gives the card, for every card a deck holds.
pub proof fn lemma_read_show(c: u8)
    requires
        c <= 4,
    ensures
        char_card(card_char(c)) == c,
{
}

/// Showing a read card gives the character back, for every character that
/// names a card.
pub proof fn lemma_show_read(c: char)
    requires
        c == 'A' || c == 'K' || c == 'Q' || c == 'J' || c == '-',
    ensures
        card_char(char_card(c)) == c,
{
}

} // verus!

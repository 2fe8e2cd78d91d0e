use bmnrs::districk::districk;
use bmnrs::search::next_deck_26s;
use bmnrs::setup::read_hands;
use bmnrs::unplay::unplay;
use bmnrs::untrick::{untrick, untrickable};

#[test]
fn test_untrickable() {
    assert_eq!(untrickable(vec![1, 0]), true);
    assert_eq!(untrickable(vec![1]), false);
    assert_eq!(untrickable(vec![2, 0, 0]), true);
    assert_eq!(untrickable(vec![2, 0]), false);
    assert_eq!(untrickable(vec![3, 0, 0, 0]), true);
    assert_eq!(untrickable(vec![4, 0, 0, 0, 0]), true);
    assert_eq!(untrickable(vec![4, 0, 0]), false);
    assert_eq!(untrickable(vec![4, 0, 0, 0]), false);
}
#[test]
fn test_untrick() {
    assert_eq!(untrick(&mut vec![1, 0]), vec![(vec![0, 1], vec![])]);
    assert_eq!(untrick(&mut vec![2, 0, 0]), vec![(vec![0, 0, 2], vec![])]);
    assert_eq!(
        untrick(&mut vec![3, 0, 0, 0]),
        vec![(vec![0, 0, 0, 3], vec![])]
    );
    assert_eq!(untrick(&mut vec![0, 0]), vec![]);
    assert_eq!(
        untrick(&mut vec![0, 1]),
        vec![(vec![1], vec![0]), (vec![1, 0], vec![])]
    );

    assert_eq!(
        untrick(&mut vec![0, 0, 1]),
        vec![
            (vec![1], vec![0, 0]),
            (vec![1, 0], vec![0]),
            (vec![1, 0, 0], vec![])
        ]
    );

    assert_eq!(
        untrick(&mut vec![0, 4]),
        vec![(vec![4], vec![0]), (vec![4, 0], vec![]),]
    );
    assert_eq!(
        untrick(&mut vec![0, 0, 4]),
        vec![
            (vec![4], vec![0, 0]),
            (vec![4, 0], vec![0]),
            (vec![4, 0, 0], vec![]),
        ]
    );
    assert_eq!(
        untrick(&mut vec![0, 4, 0, 3, 2]),
        vec![
            (vec![2], vec![0, 4, 0, 3]),
            (vec![2, 3], vec![0, 4, 0]),
            (vec![2, 3, 0], vec![0, 4]),
            (vec![2, 3, 0, 4], vec![0]),
            (vec![2, 3, 0, 4, 0], vec![])
        ]
    );
    assert_eq!(
        untrick(&mut vec![0, 4, 0, 3, 2, 0]),
        vec![
            (vec![0, 2], vec![0, 4, 0, 3]),
            (vec![0, 2, 3], vec![0, 4, 0]),
            (vec![0, 2, 3, 0], vec![0, 4]),
            (vec![0, 2, 3, 0, 4], vec![0]),
            (vec![0, 2, 3, 0, 4, 0], vec![])
        ]
    );
    assert_eq!(
        untrick(&mut vec![3, 0, 0, 0, 1, 0]),
        vec![
            (vec![0, 1], vec![3, 0, 0, 0]),
            (vec![0, 1, 0], vec![3, 0, 0]),
            (vec![0, 1, 0, 0], vec![3, 0]),
            (vec![0, 1, 0, 0, 0], vec![3])
        ]
    );
    assert_eq!(
        untrick(&mut vec![
            0, 1, 2, 0, 0, 0, 0, 0, 0, 0, 0, 0, 0, 3, 0, 0, 0, 0, 0, 0, 2, 0, 0, 2, 3, 0, 0, 3,
            4, 0, 4, 0, 0, 1, 0, 0, 0, 4, 0, 0, 1, 0, 1, 0, 3, 4, 2, 0, 0
        ]),
        vec![
            (
                vec![0, 0, 2],
                vec![
                    0, 1, 2, 0, 0, 0, 0, 0, 0, 0, 0, 0, 0, 3, 0, 0, 0, 0, 0, 0, 2, 0, 0, 2, 3,
                    0, 0, 3, 4, 0, 4, 0, 0, 1, 0, 0, 0, 4, 0, 0, 1, 0, 1, 0, 3, 4
                ]
            ),
            (
                vec![0, 0, 2, 4],
                vec![
                    0, 1, 2, 0, 0, 0, 0, 0, 0, 0, 0, 0, 0, 3, 0, 0, 0, 0, 0, 0, 2, 0, 0, 2, 3,
                    0, 0, 3, 4, 0, 4, 0, 0, 1, 0, 0, 0, 4, 0, 0, 1, 0, 1, 0, 3
                ]
            ),
            (
                vec![0, 0, 2, 4, 3],
                vec![
                    0, 1, 2, 0, 0, 0, 0, 0, 0, 0, 0, 0, 0, 3, 0, 0, 0, 0, 0, 0, 2, 0, 0, 2, 3,
                    0, 0, 3, 4, 0, 4, 0, 0, 1, 0, 0, 0, 4, 0, 0, 1, 0, 1, 0
                ]
            ),
            (
                vec![0, 0, 2, 4, 3, 0],
                vec![
                    0, 1, 2, 0, 0, 0, 0, 0, 0, 0, 0, 0, 0, 3, 0, 0, 0, 0, 0, 0, 2, 0, 0, 2, 3,
                    0, 0, 3, 4, 0, 4, 0, 0, 1, 0, 0, 0, 4, 0, 0, 1, 0, 1
                ]
            )
        ]
    );
}
#[test]
fn test_districk() {
    assert_eq!(districk(vec![], (vec![1, 0], vec![])), (vec![0], vec![1]));
    assert_eq!(
        districk(vec![], (vec![2, 0, 0], vec![])),
        (vec![0, 2], vec![0])
    );
    assert_eq!(
        districk(vec![], (vec![0, 1, 0], vec![0])),
        (vec![0, 0], vec![1, 0])
    );
    assert_eq!(
        districk(vec![], (vec![2, 0, 1, 0], vec![1, 0])),
        (vec![0, 0, 2, 1, 0], vec![1])
    );
    assert_eq!(
        districk(vec![], (vec![2, 0, 1, 0], vec![1, 0, 1])),
        (vec![0, 0, 2, 1, 0, 1], vec![1])
    );
    assert_eq!(
        districk(vec![1], (vec![2, 0, 1, 0], vec![1, 0, 1])),
        (vec![0, 0, 2, 1, 0, 1], vec![1, 1])
    );
    assert_eq!(
        districk(vec![], (vec![2, 0, 1, 0], vec![4, 0, 0, 0, 1, 0])),
        (vec![0, 0, 2, 4, 0, 0, 0, 1, 0], vec![1])
    );
    assert_eq!(
        districk(vec![], (vec![2, 0, 1, 0], vec![4, 0, 0, 0, 1, 0])),
        (vec![0, 0, 2, 4, 0, 0, 0, 1, 0], vec![1])
    );
}
#[test]
fn test_split_at() {
    let (left, right) = [1, 2, 3].split_at(1);
    assert_eq!(left, vec![1]);
    assert_eq!(right, vec![2, 3]);
}
#[test]
fn test_find() {
    let v = vec![0, 1];
    if let Some(i) = v.iter().find(|&x| x != &0) {
        assert_eq!(i, &1);
    }
}
#[test]
fn test_unplay() {
    assert_eq!(unplay(vec![1, 0], vec![]), vec![(vec![1], vec![0])]);
    assert_eq!(
        unplay(vec![1, 0], vec![0, 1]),
        vec![(vec![1], vec![0, 0, 1])]
    );
    assert_eq!(
        unplay(vec![1, 0], vec![0, 1, 0]),
        vec![(vec![1], vec![0, 0, 1, 0])]
    );
    assert_eq!(
        unplay(vec![1, 0], vec![2, 0, 0]),
        vec![(vec![1], vec![0, 2, 0, 0])]
    );
    assert_eq!(
        unplay(vec![1, 0], vec![1, 0]),
        vec![(vec![1], vec![0, 1, 0])]
    );
    assert_eq!(unplay(vec![4, 0], vec![0, 2, 0]), vec![]);
    assert_eq!(
        unplay(vec![2, 0, 0], vec![0, 2, 0]),
        vec![(vec![2], vec![0, 0, 0, 2, 0])]
    );
    let output = vec![
        (
            vec![
                2, 0, 1, 2, 0, 0, 0, 0, 0, 0, 0, 0, 0, 0, 3, 0, 0, 0, 0, 0, 0, 2, 0, 0, 2, 3,
                0, 0, 3, 4, 0, 4, 0, 0, 1, 0, 0, 0, 4, 0, 0, 1, 0, 1, 0, 3, 4,
            ],
            vec![0, 0],
        ),
        (
            vec![4, 0, 0],
            vec![
                2, 0, 1, 2, 0, 0, 0, 0, 0, 0, 0, 0, 0, 0, 3, 0, 0, 0, 0, 0, 0, 2, 0, 0, 2, 3,
                0, 0, 3, 4, 0, 4, 0, 0, 1, 0, 0, 0, 4, 0, 0, 1, 0, 1, 0, 3,
            ],
        ),
        (
            vec![
                3, 2, 0, 1, 2, 0, 0, 0, 0, 0, 0, 0, 0, 0, 0, 3, 0, 0, 0, 0, 0, 0, 2, 0, 0, 2,
                3, 0, 0, 3, 4, 0, 4, 0, 0, 1, 0, 0, 0, 4, 0, 0, 1, 0, 1, 0,
            ],
            vec![4, 0, 0],
        ),
        (
            vec![
                1, 3, 2, 0, 1, 2, 0, 0, 0, 0, 0, 0, 0, 0, 0, 0, 3, 0, 0, 0, 0, 0, 0, 2, 0, 0,
                2, 3, 0, 0, 3, 4, 0, 4, 0, 0, 1, 0, 0, 0, 4, 0, 0, 1, 0,
            ],
            vec![0, 4, 0, 0],
        ),
        (
            vec![
                1, 1, 3, 2, 0, 1, 2, 0, 0, 0, 0, 0, 0, 0, 0, 0, 0, 3, 0, 0, 0, 0, 0, 0, 2, 0,
                0, 2, 3, 0, 0, 3, 4, 0, 4, 0, 0, 1, 0, 0, 0, 4, 0, 0,
            ],
            vec![0, 0, 4, 0, 0],
        ),
        (
            vec![0, 0, 0, 4, 0, 0],
            vec![
                1, 1, 3, 2, 0, 1, 2, 0, 0, 0, 0, 0, 0, 0, 0, 0, 0, 3, 0, 0, 0, 0, 0, 0, 2, 0,
                0, 2, 3, 0, 0, 3, 4, 0, 4, 0, 0, 1, 0, 0, 0, 4, 0,
            ],
        ),
        (
            vec![
                0, 1, 1, 3, 2, 0, 1, 2, 0, 0, 0, 0, 0, 0, 0, 0, 0, 0, 3, 0, 0, 0, 0, 0, 0, 2,
                0, 0, 2, 3, 0, 0, 3, 4, 0, 4, 0, 0, 1, 0, 0, 0, 4,
            ],
            vec![0, 0, 0, 4, 0, 0],
        ),
        (
            vec![4, 0, 0, 4, 0, 0],
            vec![
                0, 0, 1, 1, 3, 2, 0, 1, 2, 0, 0, 0, 0, 0, 0, 0, 0, 0, 0, 3, 0, 0, 0, 0, 0, 0,
                2, 0, 0, 2, 3, 0, 0, 3, 4, 0, 4, 0, 0, 1, 0, 0, 0,
            ],
        ),
        (
            vec![
                0, 0, 0, 1, 1, 3, 2, 0, 1, 2, 0, 0, 0, 0, 0, 0, 0, 0, 0, 0, 3, 0, 0, 0, 0, 0,
                0, 2, 0, 0, 2, 3, 0, 0, 3, 4, 0, 4, 0, 0, 1, 0, 0,
            ],
            vec![4, 0, 0, 4, 0, 0],
        ),
        (
            vec![0, 4, 0, 0, 4, 0, 0],
            vec![
                0, 0, 0, 1, 1, 3, 2, 0, 1, 2, 0, 0, 0, 0, 0, 0, 0, 0, 0, 0, 3, 0, 0, 0, 0, 0,
                0, 2, 0, 0, 2, 3, 0, 0, 3, 4, 0, 4, 0, 0, 1, 0,
            ],
        ),
        (
            vec![
                0, 0, 0, 0, 1, 1, 3, 2, 0, 1, 2, 0, 0, 0, 0, 0, 0, 0, 0, 0, 0, 3, 0, 0, 0, 0,
                0, 0, 2, 0, 0, 2, 3, 0, 0, 3, 4, 0, 4, 0, 0, 1,
            ],
            vec![0, 4, 0, 0, 4, 0, 0],
        ),
        (
            vec![0, 0, 4, 0, 0],
            vec![
                1, 3, 2, 0, 1, 2, 0, 0, 0, 0, 0, 0, 0, 0, 0, 0, 3, 0, 0, 0, 0, 0, 0, 2, 0, 0,
                2, 3, 0, 0, 3, 4, 0, 4, 0, 0, 1, 0, 0, 0, 4, 0, 0, 1,
            ],
        ),
        (
            vec![0, 4, 0, 0],
            vec![
                3, 2, 0, 1, 2, 0, 0, 0, 0, 0, 0, 0, 0, 0, 0, 3, 0, 0, 0, 0, 0, 0, 2, 0, 0, 2,
                3, 0, 0, 3, 4, 0, 4, 0, 0, 1, 0, 0, 0, 4, 0, 0, 1, 0, 1,
            ],
        ),
    ];
    let big = vec![
        0, 1, 2, 0, 0, 0, 0, 0, 0, 0, 0, 0, 0, 3, 0, 0, 0, 0, 0, 0, 2, 0, 0, 2, 3, 0, 0, 3, 4,
        0, 4, 0, 0, 1, 0, 0, 0, 4, 0, 0, 1, 0, 1, 0, 3, 4, 2, 0, 0,
    ];
    assert_eq!(unplay(big, vec![]), output);
}
#[test]
fn test_record_26s_top() {
    // nextDeck26s  (dispRev "-JA--Q-JK--------Q-JKK----") (dispRev "----J----A-A---Q-A----QK--")
    // ([0,0,0,0,4,0,4,0,0,0,2,0,4,0,0,0,0,2,3,0,0,4,0,0,1,0],[0,2,0,1,3,0,0,0,0,0,0,0,0,2,0,1,3,3,0,0,0,0,0,0,1,0])
    let (hand_one, hand_two) =
        read_hands("-JA--Q-JK--------Q-JKK----", "----J----A-A---Q-A----QK--");
    let res = next_deck_26s(hand_one, hand_two);
    assert_eq!(
        res,
        (
            [0, 0, 0, 0, 4, 0, 4, 0, 0, 0, 2, 0, 4, 0, 0, 0, 0, 2, 3, 0, 0, 4, 0, 0, 1, 0]
                .to_vec(),
            [0, 2, 0, 1, 3, 0, 0, 0, 0, 0, 0, 0, 0, 2, 0, 1, 3, 3, 0, 0, 0, 0, 0, 0, 1, 0]
                .to_vec()
        )
    );
    // nextDeck26s  (dispRev "-------J-J--Q-KK-------Q--") (dispRev "---Q---J--AA-A---AQKKJ----")
    // ([3,3,1,0,0,0,0,0,0,0,0,0,0,0,2,0,0,0,4,0,0,0,0,2,0,0].to_vec(),[2,0,0,0,0,0,1,0,0,1,1,0,0,0,0,4,2,4,0,3,0,4,3,0,0,0].to_vec())
    let (hand_one, hand_two) =
        read_hands("-------J-J--Q-KK-------Q--", "---Q---J--AA-A---AQKKJ----");
    let res = next_deck_26s(hand_one, hand_two);
    assert_eq!(
        res,
        (
            [3, 3, 1, 0, 0, 0, 0, 0, 0, 0, 0, 0, 0, 0, 2, 0, 0, 0, 4, 0, 0, 0, 0, 2, 0, 0]
                .to_vec(),
            [2, 0, 0, 0, 0, 0, 1, 0, 0, 1, 1, 0, 0, 0, 0, 4, 2, 4, 0, 3, 0, 4, 3, 0, 0, 0]
                .to_vec()
        )
    );
    // nextDeck26s   (dispRev "J-K---------A-Q------QQ---") (dispRev "--A-AJ----KQ---JK---KA---J")
    // ([0,0,0,1,0,0,0,0,0,3,0,3,4,2,0,0,0,0,0,0,4,0,0,4,1,0].to_vec(),[0,0,0,0,3,2,2,0,0,0,0,0,0,0,0,1,0,2,0,3,0,0,0,4,1,0].to_vec())
    let (hand_one, hand_two) =
        read_hands("J-K---------A-Q------QQ---", "--A-AJ----KQ---JK---KA---J");
    let res = next_deck_26s(hand_one, hand_two);
    assert_eq!(
        res,
        (
            [0, 0, 0, 1, 0, 0, 0, 0, 0, 3, 0, 3, 4, 2, 0, 0, 0, 0, 0, 0, 4, 0, 0, 4, 1, 0]
                .to_vec(),
            [0, 0, 0, 0, 3, 2, 2, 0, 0, 0, 0, 0, 0, 0, 0, 1, 0, 2, 0, 3, 0, 0, 0, 4, 1, 0]
                .to_vec()
        )
    );
}

#[test]
fn prop_test_untrick() {
    for a in 1..5 {
        let mut c_v: Vec<u8> = vec![a as u8];
        for _z in 1..a + 1 {
            c_v.push(0);
        }
        let mut res = c_v.clone();
        res.reverse();
        assert_eq!(untrick(&mut c_v), vec![(res, vec![])]);
    }
}

#[test]
fn prop_test_untrickable_true() {
    for a in 1..5 {
        let mut c_v: Vec<u8> = vec![a as u8];
        for _z in 1..a + 1 {
            c_v.push(0);
        }
        assert_eq!(untrickable(c_v), true);
    }
}

#[test]
fn prop_test_untrickable_false() {
    for a in 1..5 {
        let mut c_v: Vec<u8> = vec![a as u8];
        for _z in 1..a {
            c_v.push(0);
        }
        assert_eq!(untrickable(c_v), false);
    }
}

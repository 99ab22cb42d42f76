use poker_abstraction::tables::{rank_against, rank_strengths, RankedHand, Standing, CARDS, MAX_HANDS};

fn hand(rank: u32, row: u32, a: u8, b: u8) -> RankedHand {
    RankedHand { rank, row, a, b }
}

fn counted(hands: &Vec<RankedHand>, e: &RankedHand) -> u16 {
    let mut total = 0;
    for f in hands {
        if f.a == e.a || f.a == e.b || f.b == e.a || f.b == e.b {
            continue;
        }
        if f.rank < e.rank {
            total += 2;
        } else if f.rank == e.rank {
            total += 1;
        }
    }
    total
}

#[test]
fn strengths_count_the_hands_beaten_and_tied() {
    let hands = vec![
        hand(1, 0, 0, 1),
        hand(1, 1, 2, 3),
        hand(2, 2, 0, 2),
        hand(2, 3, 1, 3),
        hand(2, 4, 4, 5),
        hand(5, 5, 0, 3),
    ];
    let mut strength = vec![0; 6];
    rank_strengths(&hands, &mut strength);
    assert_eq!(strength, vec![1, 1, 2, 2, 6, 2]);
}

#[test]
fn the_last_hand_of_a_row_decides_and_other_rows_stay() {
    let hands = vec![
        hand(1, 0, 0, 1),
        hand(1, 1, 2, 3),
        hand(2, 2, 0, 2),
        hand(2, 3, 1, 3),
        hand(2, 4, 4, 5),
        hand(5, 1, 0, 3),
    ];
    let mut strength = vec![99; 6];
    rank_strengths(&hands, &mut strength);
    assert_eq!(strength, vec![1, 2, 2, 2, 6, 99]);
}

#[test]
fn no_hands_leave_the_rows_alone() {
    let mut strength = vec![7, 8];
    rank_strengths(&Vec::new(), &mut strength);
    assert_eq!(strength, vec![7, 8]);
}

#[test]
fn a_single_hand_has_no_strength() {
    let mut strength = vec![5];
    rank_strengths(&vec![hand(3, 0, 10, 11)], &mut strength);
    assert_eq!(strength, vec![0]);
}

#[test]
fn every_hand_of_a_full_board_matches_the_count() {
    // All pairs of the 47 cards that a board of five leaves, ranked by a
    // made-up rule with many ties.
    let mut hands = Vec::new();
    for a in 5..CARDS as u8 {
        for b in (a + 1)..CARDS as u8 {
            let rank = ((a as u32) * 7 + (b as u32) * 13) % 41;
            hands.push((rank, a, b));
        }
    }
    hands.sort();
    let hands: Vec<RankedHand> =
        hands.iter().enumerate().map(|(i, (rank, a, b))| hand(*rank, i as u32, *a, *b)).collect();
    assert_eq!(hands.len(), 1081);
    assert!(hands.len() <= MAX_HANDS);
    let mut strength = vec![0; hands.len()];
    rank_strengths(&hands, &mut strength);
    for e in &hands {
        assert_eq!(strength[e.row as usize], counted(&hands, e));
    }
    assert!(strength.iter().all(|s| *s <= 2162));
}

fn standing(hands: &Vec<RankedHand>, member: &Vec<bool>, e: &RankedHand) -> Standing {
    let mut score = 0;
    let mut free = 0;
    for (f, m) in hands.iter().zip(member) {
        if !*m || f.a == e.a || f.a == e.b || f.b == e.a || f.b == e.b {
            continue;
        }
        free += 1;
        if f.rank < e.rank {
            score += 2;
        } else if f.rank == e.rank {
            score += 1;
        }
    }
    Standing { score, free }
}

#[test]
fn standings_against_some_of_the_hands() {
    let hands = vec![
        hand(1, 0, 0, 1),
        hand(1, 1, 2, 3),
        hand(2, 2, 0, 2),
        hand(2, 3, 1, 3),
        hand(2, 4, 4, 5),
        hand(5, 5, 0, 3),
    ];
    let member = vec![true, false, false, true, true, false];
    let got = rank_against(&hands, &member);
    assert_eq!(
        got,
        vec![
            Standing { score: 0, free: 1 },
            Standing { score: 1, free: 2 },
            Standing { score: 2, free: 2 },
            Standing { score: 1, free: 1 },
            Standing { score: 3, free: 2 },
            Standing { score: 2, free: 1 },
        ]
    );
}

#[test]
fn standings_against_every_hand_are_the_strengths() {
    let hands = vec![
        hand(1, 0, 0, 1),
        hand(1, 1, 2, 3),
        hand(2, 2, 0, 2),
        hand(2, 3, 1, 3),
        hand(2, 4, 4, 5),
        hand(5, 5, 0, 3),
    ];
    let got = rank_against(&hands, &vec![true; 6]);
    let scores: Vec<u16> = got.iter().map(|s| s.score).collect();
    let free: Vec<u16> = got.iter().map(|s| s.free).collect();
    assert_eq!(scores, vec![1, 1, 2, 2, 6, 2]);
    assert_eq!(free, vec![2, 2, 2, 2, 5, 1]);
}

#[test]
fn standings_against_no_hand_are_nothing() {
    let hands = vec![hand(1, 0, 0, 1), hand(2, 1, 2, 3)];
    assert_eq!(rank_against(&hands, &vec![false; 2]), vec![Standing { score: 0, free: 0 }; 2]);
    assert_eq!(rank_against(&Vec::new(), &Vec::new()), Vec::new());
}

#[test]
fn standings_of_a_full_board_match_the_count_for_every_group() {
    let mut hands = Vec::new();
    for a in 5..CARDS as u8 {
        for b in (a + 1)..CARDS as u8 {
            let rank = ((a as u32) * 7 + (b as u32) * 13) % 41;
            hands.push((rank, a, b));
        }
    }
    hands.sort();
    let hands: Vec<RankedHand> =
        hands.iter().enumerate().map(|(i, (rank, a, b))| hand(*rank, i as u32, *a, *b)).collect();
    for group in 0..4 {
        let member: Vec<bool> = hands.iter().map(|h| (h.a as usize + 3 * h.b as usize) % 4 == group).collect();
        let got = rank_against(&hands, &member);
        assert_eq!(got.len(), hands.len());
        for (e, s) in hands.iter().zip(&got) {
            assert_eq!(*s, standing(&hands, &member, e));
            assert!(s.score <= 2 * s.free);
        }
    }
}

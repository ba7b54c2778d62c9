//! Whole tricks, formats and legal plays on given cards.

use std::collections::HashSet;
use std::iter::FromIterator;

use shengji_core::format::TrickFormat;
use shengji_core::hands::Hands;
use shengji_core::small::{OrderedCards, Units};
use shengji_core::trick::{Trick, TrickEnded};
use shengji_core::types::{Card, EffectiveSuit, Number, PlayerID, Suit, Trump};
use shengji_core::unit::{OrderedCard, TrickUnit, UnitLike};

const H_2: Card = Card::Suited {
    suit: Suit::Hearts,
    number: Number::Two,
};
const H_3: Card = Card::Suited {
    suit: Suit::Hearts,
    number: Number::Three,
};
const H_4: Card = Card::Suited {
    suit: Suit::Hearts,
    number: Number::Four,
};
const H_5: Card = Card::Suited {
    suit: Suit::Hearts,
    number: Number::Five,
};
const H_7: Card = Card::Suited {
    suit: Suit::Hearts,
    number: Number::Seven,
};
const H_8: Card = Card::Suited {
    suit: Suit::Hearts,
    number: Number::Eight,
};
const H_A: Card = Card::Suited {
    suit: Suit::Hearts,
    number: Number::Ace,
};
const S_2: Card = Card::Suited {
    suit: Suit::Spades,
    number: Number::Two,
};
const S_3: Card = Card::Suited {
    suit: Suit::Spades,
    number: Number::Three,
};
const S_4: Card = Card::Suited {
    suit: Suit::Spades,
    number: Number::Four,
};
const S_5: Card = Card::Suited {
    suit: Suit::Spades,
    number: Number::Five,
};
const S_6: Card = Card::Suited {
    suit: Suit::Spades,
    number: Number::Six,
};
const S_7: Card = Card::Suited {
    suit: Suit::Spades,
    number: Number::Seven,
};
const S_8: Card = Card::Suited {
    suit: Suit::Spades,
    number: Number::Eight,
};
const S_A: Card = Card::Suited {
    suit: Suit::Spades,
    number: Number::Ace,
};
const S_K: Card = Card::Suited {
    suit: Suit::Spades,
    number: Number::King,
};
const S_Q: Card = Card::Suited {
    suit: Suit::Spades,
    number: Number::Queen,
};

const TRUMP: Trump = Trump::Standard {
    number: Number::Four,
    suit: Suit::Spades,
};
const P1: PlayerID = PlayerID(1);
const P2: PlayerID = PlayerID(2);
const P3: PlayerID = PlayerID(3);
const P4: PlayerID = PlayerID(4);

fn oc(card: Card) -> OrderedCard {
    OrderedCard { card, trump: TRUMP }
}

fn shapes(units: &Units) -> Vec<UnitLike> {
    units.items().iter().map(UnitLike::from).collect()
}

fn check_formats(cards: &[Card], expected: Vec<Vec<Vec<Card>>>) {
    let plays = TrickUnit::find_plays(TRUMP, cards);
    assert_eq!(
        plays
            .items()
            .iter()
            .map(|units| {
                units
                    .items()
                    .iter()
                    .map(|u| u.cards().items().to_vec())
                    .collect::<Vec<_>>()
            })
            .collect::<HashSet<Vec<Vec<Card>>>>(),
        HashSet::from_iter(expected)
    );
    for u in plays.items() {
        let wanted = shapes(u);
        let (found, play) = UnitLike::check_play(TRUMP, cards, &wanted);
        assert!(found);
        assert_eq!(
            wanted.into_iter().collect::<HashSet<_>>(),
            shapes(&play).into_iter().collect::<HashSet<_>>()
        );
    }
}

#[test]
fn test_play_formats() {
    check_formats(
        &[H_2, H_3, H_7],
        vec![vec![vec![H_7], vec![H_3], vec![H_2]]],
    );
    check_formats(
        &[H_2, H_2, H_2],
        vec![vec![vec![H_2, H_2, H_2]]],
    );
    check_formats(
        &[H_2, H_2, H_3, H_3],
        vec![vec![vec![H_2, H_2, H_3, H_3]]],
    );
    check_formats(
        &[H_2, H_2, H_2, H_3, H_3],
        vec![vec![vec![H_2], vec![H_2, H_2, H_3, H_3]], vec![vec![H_3, H_3], vec![H_2, H_2, H_2]]],
    );
    check_formats(
        &[H_2, H_2, H_3, H_3, H_3],
        vec![vec![vec![H_3], vec![H_2, H_2, H_3, H_3]], vec![vec![H_3, H_3, H_3], vec![H_2, H_2]]],
    );
    check_formats(
        &[H_4, H_4, S_4, S_4],
        vec![vec![vec![H_4, H_4, S_4, S_4]]],
    );
    check_formats(
        &[H_4, H_4, S_A, S_A],
        vec![vec![vec![S_A, S_A, H_4, H_4]]],
    );
    check_formats(
        &[S_Q, S_Q, S_K, S_K, S_A],
        vec![vec![vec![S_A], vec![S_Q, S_Q, S_K, S_K]]],
    );
    check_formats(
        &[H_3, H_3, H_3, H_5, H_5, H_5],
        vec![vec![vec![H_3, H_3, H_3, H_5, H_5, H_5]]],
    );
    check_formats(
        &[H_2, H_2, H_3, H_3, H_3, H_5, H_5, H_5],
        vec![
            vec![vec![H_5, H_5, H_5], vec![H_3], vec![H_2, H_2, H_3, H_3]],
            vec![vec![H_3, H_3, H_3, H_5, H_5, H_5], vec![H_2, H_2]],
            vec![vec![H_5], vec![H_3], vec![H_2, H_2, H_3, H_3, H_5, H_5]],
        ],
    );
}

#[test]
fn test_play_singles_trick() {
    let mut hands = Hands::new(vec![P1, P2, P3, P4], Number::Four);
    hands.add(P1, &[S_2, S_3, S_5]).unwrap();
    hands.add(P2, &[S_2, S_3, S_5]).unwrap();
    hands.add(P3, &[S_2, S_3, S_5]).unwrap();
    hands.add(P4, &[S_2, S_3, S_5]).unwrap();
    let mut trick = Trick::new(TRUMP, vec![P1, P2, P3, P4]);

    trick.play_cards(P1, &mut hands, &[S_2]).unwrap();
    trick.play_cards(P2, &mut hands, &[S_5]).unwrap();
    trick.play_cards(P3, &mut hands, &[S_3]).unwrap();
    trick.play_cards(P4, &mut hands, &[S_5]).unwrap();
    let TrickEnded {
        winner: winner_id,
        points,
        largest_trick_unit_size,
        ..
    } = trick.complete().unwrap();
    assert_eq!(winner_id, P2);
    assert_eq!(largest_trick_unit_size, 1);
    assert_eq!(points, vec![S_5, S_5]);
}

#[test]
fn test_play_trump_trick() {
    let mut hands = Hands::new(vec![P1, P2, P3, P4], Number::Four);
    hands.add(P1, &[S_2, S_3, S_5]).unwrap();
    hands.add(P2, &[H_2, H_3, S_4]).unwrap();
    hands.add(P3, &[S_2, S_3, S_5]).unwrap();
    hands.add(P4, &[S_2, S_3, S_5]).unwrap();
    let mut trick = Trick::new(TRUMP, vec![P1, P2, P3, P4]);

    trick.play_cards(P1, &mut hands, &[S_2]).unwrap();
    trick.play_cards(P2, &mut hands, &[S_4]).unwrap();
    trick.play_cards(P3, &mut hands, &[S_3]).unwrap();
    trick.play_cards(P4, &mut hands, &[S_5]).unwrap();
    let TrickEnded {
        winner: winner_id,
        points,
        largest_trick_unit_size,
        ..
    } = trick.complete().unwrap();
    assert_eq!(winner_id, P2);
    assert_eq!(largest_trick_unit_size, 1);
    assert_eq!(points, vec![S_5]);
}

#[test]
fn test_play_pairs_trick() {
    let mut hands = Hands::new(vec![P1, P2, P3, P4], Number::Four);
    hands.add(P1, &[S_2, S_2, S_5]).unwrap();
    hands.add(P2, &[H_2, S_3, S_4]).unwrap();
    hands.add(P3, &[S_5, S_5, S_5]).unwrap();
    hands.add(P4, &[S_3, S_4, S_5]).unwrap();
    let mut trick = Trick::new(TRUMP, vec![P1, P2, P3, P4]);

    trick.play_cards(P1, &mut hands, &[S_2, S_2]).unwrap();
    trick.play_cards(P2, &mut hands, &[S_3, S_4]).unwrap();
    trick.play_cards(P3, &mut hands, &[S_5, S_5]).unwrap();
    trick.play_cards(P4, &mut hands, &[S_3, S_5]).unwrap();
    let TrickEnded {
        winner: winner_id,
        points,
        largest_trick_unit_size,
        ..
    } = trick.complete().unwrap();
    assert_eq!(winner_id, P3);
    assert_eq!(largest_trick_unit_size, 2);
    assert_eq!(points, vec![S_5, S_5, S_5]);
}

#[test]
fn test_play_tractor_trick() {
    let mut hands = Hands::new(vec![P1, P2, P3, P4], Number::Four);
    hands.add(P1, &[S_2, S_2, S_3, S_3, S_4]).unwrap();
    hands.add(P2, &[S_6, S_6, S_7, S_7, S_4]).unwrap();
    hands.add(P3, &[S_2, S_5, S_5, S_5, S_4]).unwrap();
    hands.add(P4, &[S_6, S_6, S_6, S_6, S_4]).unwrap();
    let mut trick = Trick::new(TRUMP, vec![P1, P2, P3, P4]);

    trick
        .play_cards(P1, &mut hands, &[S_2, S_2, S_3, S_3])
        .unwrap();
    trick
        .play_cards(P2, &mut hands, &[S_6, S_6, S_7, S_7])
        .unwrap();
    trick
        .play_cards(P3, &mut hands, &[S_2, S_5, S_5, S_5])
        .unwrap();
    trick
        .play_cards(P4, &mut hands, &[S_6, S_6, S_6, S_6])
        .unwrap();
    let TrickEnded {
        winner: winner_id,
        points,
        largest_trick_unit_size,
        ..
    } = trick.complete().unwrap();
    assert_eq!(winner_id, P2);
    assert_eq!(largest_trick_unit_size, 4);
    assert_eq!(points, vec![S_5, S_5, S_5]);
}

#[test]
fn test_play_throw_trick() {
    let mut hands = Hands::new(vec![P1, P2, P3, P4], Number::Four);
    hands.add(P1, &[H_8, H_8, H_7, H_2]).unwrap();
    hands.add(P2, &[H_2, S_2, S_2, S_2]).unwrap();
    hands.add(P3, &[S_2, S_2, S_3, S_4]).unwrap();
    hands.add(P4, &[S_4, S_4, S_4, S_4]).unwrap();
    let mut trick = Trick::new(TRUMP, vec![P1, P2, P3, P4]);
    trick
        .play_cards(P1, &mut hands, &[H_8, H_8, H_7, H_2])
        .unwrap();
    trick
        .play_cards(P2, &mut hands, &[H_2, S_2, S_2, S_2])
        .unwrap();
    trick
        .play_cards(P3, &mut hands, &[S_2, S_2, S_3, S_4])
        .unwrap();
    trick
        .play_cards(P4, &mut hands, &[S_4, S_4, S_4, S_4])
        .unwrap();
    let TrickEnded {
        winner: winner_id,
        points,
        largest_trick_unit_size,
        ..
    } = trick.complete().unwrap();
    assert_eq!(largest_trick_unit_size, 2);
    assert_eq!(winner_id, P3);
    assert_eq!(points, vec![]);
}

#[test]
fn test_play_throw_trick_failure() {
    let mut hands = Hands::new(vec![P1, P2, P3, P4], Number::Four);
    hands.add(P1, &[H_8, H_8, H_7, H_2]).unwrap();
    hands.add(P2, &[H_2, S_2, S_2, S_2]).unwrap();
    hands.add(P3, &[S_2, S_2, S_3, S_4]).unwrap();
    hands.add(P4, &[S_4, S_4, S_4, H_3]).unwrap();
    let mut trick = Trick::new(TRUMP, vec![P1, P2, P3, P4]);
    trick
        .play_cards(P1, &mut hands, &[H_8, H_8, H_7, H_2])
        .unwrap();
    trick.play_cards(P2, &mut hands, &[H_2]).unwrap();
    trick.play_cards(P3, &mut hands, &[S_3]).unwrap();
    trick.play_cards(P4, &mut hands, &[H_3]).unwrap();
    let TrickEnded {
        winner: winner_id,
        points,
        largest_trick_unit_size,
        failed_throw_size,
        ..
    } = trick.complete().unwrap();
    assert_eq!(largest_trick_unit_size, 1);
    assert_eq!(winner_id, P3);
    assert_eq!(points, vec![]);
    assert_eq!(failed_throw_size, 3);
}

#[test]
fn test_play_throw_tractor_extra_cards() {
    let mut hands = Hands::new(vec![P1, P2, P3, P4], Number::Four);
    hands.add(P1, &[S_Q, S_Q, S_K, S_K, S_A]).unwrap();
    hands.add(P2, &[S_2, S_3, S_3, S_5, H_3]).unwrap();
    hands.add(P3, &[S_A, S_A, H_3, H_3, H_3]).unwrap();
    hands.add(P4, &[H_3, H_3, H_3, H_3, H_3]).unwrap();
    let mut trick = Trick::new(TRUMP, vec![P1, P2, P3, P4]);
    trick
        .play_cards(P1, &mut hands, &[S_Q, S_Q, S_K, S_K, S_A])
        .unwrap();
    trick
        .play_cards(P2, &mut hands, &[S_2, S_3, S_3, S_5, H_3])
        .unwrap();
    trick
        .play_cards(P3, &mut hands, &[S_A, S_A, H_3, H_3, H_3])
        .unwrap();
    trick
        .play_cards(P4, &mut hands, &[H_3, H_3, H_3, H_3, H_3])
        .unwrap();
    let TrickEnded {
        winner: winner_id,
        points,
        largest_trick_unit_size,
        failed_throw_size,
        ..
    } = trick.complete().unwrap();
    assert_eq!(largest_trick_unit_size, 4);
    assert_eq!(winner_id, P1);
    assert_eq!(
        points.into_iter().flat_map(|c| c.points()).sum::<usize>(),
        25
    );
    assert_eq!(failed_throw_size, 0);
}

#[test]
fn test_trick_format_basic() {
    let expected_tf = TrickFormat {
        suit: EffectiveSuit::Trump,
        trump: TRUMP,
        units: Units::from_units(&[TrickUnit::Repeated {
            count: 3,
            card: oc(S_2),
        }]),
    };

    assert_eq!(
        TrickFormat::from_cards(TRUMP, &[S_2, S_2, S_2]).unwrap(),
        expected_tf
    );

    assert!(expected_tf.matches(&[S_2, S_2, S_2]).is_ok());
    assert!(expected_tf.matches(&[S_2, S_2]).is_err());
}

#[test]
fn test_trick_format_tractor() {
    let expected_tf = TrickFormat {
        suit: EffectiveSuit::Trump,
        trump: TRUMP,
        units: Units::from_units(&[TrickUnit::Tractor {
            count: 3,
            members: OrderedCards::from_cards(&[oc(S_2), oc(S_3), oc(S_5)]),
        }]),
    };

    assert_eq!(
        TrickFormat::from_cards(TRUMP, &[S_2, S_2, S_2, S_3, S_3, S_3, S_5, S_5, S_5]).unwrap(),
        expected_tf,
    );
    assert!(expected_tf
        .matches(&[S_2, S_2, S_2, S_3, S_3, S_3, S_5, S_5, S_5])
        .is_ok());
    assert!(expected_tf
        .matches(&[S_3, S_3, S_3, S_5, S_5, S_5, S_6, S_6, S_6])
        .is_ok());
    assert!(expected_tf
        .matches(&[S_2, S_2, S_2, S_3, S_3, S_3, S_6, S_6, S_6])
        .is_err());
}

#[test]
fn test_trick_tractor_throw() {
    let expected_tf = TrickFormat {
        suit: EffectiveSuit::Trump,
        trump: TRUMP,
        units: Units::from_units(&[
            TrickUnit::Tractor {
                count: 2,
                members: OrderedCards::from_cards(&[oc(S_3), oc(S_5)]),
            },
            TrickUnit::Repeated {
                count: 7,
                card: oc(S_2),
            },
        ]),
    };

    assert_eq!(
        TrickFormat::from_cards(
            TRUMP,
            &[S_2, S_2, S_2, S_2, S_2, S_2, S_2, S_3, S_3, S_5, S_5]
        )
        .unwrap(),
        expected_tf
    );
    assert!(expected_tf
        .matches(&[S_2, S_2, S_2, S_2, S_2, S_2, S_2, S_3, S_3, S_5, S_5])
        .is_ok());
    assert!(expected_tf
        .matches(&[S_8, S_8, S_8, S_8, S_8, S_8, S_8, S_3, S_3, S_5, S_5])
        .is_ok());

    assert!(
        TrickFormat::from_cards(TRUMP, &[S_2, S_2, S_3, S_3, S_5, S_5, S_8, S_8, S_8])
            .unwrap()
            .matches(&[S_2, S_2, S_2, S_2, S_2, S_3, S_3, S_5, S_5])
            .is_ok()
    );
}

#[test]
fn test_trick_simple_throw() {
    let expected_tf = TrickFormat {
        suit: EffectiveSuit::Trump,
        trump: TRUMP,
        units: Units::from_units(&[
            TrickUnit::Repeated {
                count: 1,
                card: oc(S_3),
            },
            TrickUnit::Repeated {
                count: 3,
                card: oc(S_2),
            },
            TrickUnit::Repeated {
                count: 3,
                card: oc(S_5),
            },
        ]),
    };

    assert_eq!(
        TrickFormat::from_cards(TRUMP, &[S_2, S_2, S_2, S_3, S_5, S_5, S_5]).unwrap(),
        expected_tf
    );

    assert!(expected_tf
        .matches(&[S_5, S_5, S_5, S_3, S_3, S_3, S_2])
        .is_ok());
}

#[test]
fn test_legal_play_pairs() {
    let tf = TrickFormat {
        suit: EffectiveSuit::Trump,
        trump: TRUMP,
        units: Units::from_units(&[TrickUnit::Repeated {
            count: 2,
            card: oc(S_3),
        }]),
    };

    let hand = Card::count(&[S_2, S_2, S_3, S_3, S_5, S_5]);
    assert!(tf.is_legal_play(&hand, &[S_2, S_2]));
    assert!(!tf.is_legal_play(&hand, &[S_2, S_3]));
    assert!(!tf.is_legal_play(&hand, &[S_2, S_3, S_3]));

    let tf = TrickFormat {
        suit: EffectiveSuit::Trump,
        trump: TRUMP,
        units: Units::from_units(&[TrickUnit::Repeated {
            count: 3,
            card: oc(S_3),
        }]),
    };

    let hand = Card::count(&[S_2, S_2, S_3, S_3, S_5, S_5]);
    assert!(tf.is_legal_play(&hand, &[S_2, S_2, S_5]));
    assert!(!tf.is_legal_play(&hand, &[S_2, S_3, S_5]));

    let tf = TrickFormat {
        suit: EffectiveSuit::Trump,
        trump: TRUMP,
        units: Units::from_units(&[TrickUnit::Repeated {
            count: 5,
            card: oc(S_3),
        }]),
    };
    assert!(tf.is_legal_play(&hand, &[S_2, S_2, S_3, S_3, S_5]));

    let hand = Card::count(&[S_2, S_2, S_2, S_2, S_3, S_3, S_5, S_5]);
    assert!(tf.is_legal_play(&hand, &[S_2, S_2, S_2, S_2, S_5]));

    let tf = TrickFormat {
        suit: EffectiveSuit::Trump,
        trump: TRUMP,
        units: Units::from_units(&[TrickUnit::Tractor {
            count: 2,
            members: OrderedCards::from_cards(&[oc(S_2), oc(S_3)]),
        }]),
    };
    assert!(!tf.is_legal_play(&hand, &[S_2, S_2, S_2, S_2]));
    assert!(tf.is_legal_play(&hand, &[S_2, S_2, S_3, S_3]));
    assert!(tf.is_legal_play(&hand, &[S_3, S_3, S_5, S_5]));

    let hand = Card::count(&[S_2, S_2, S_2, S_2, S_3, S_5, S_5]);
    assert!(tf.is_legal_play(&hand, &[S_2, S_2, S_2, S_2]));
    assert!(tf.is_legal_play(&hand, &[S_2, S_2, S_5, S_5]));
    assert!(!tf.is_legal_play(&hand, &[S_2, S_2, S_5, S_3]));

    let tf = TrickFormat {
        suit: EffectiveSuit::Trump,
        trump: TRUMP,
        units: Units::from_units(&[
            TrickUnit::Repeated {
                count: 2,
                card: oc(S_2),
            },
            TrickUnit::Repeated {
                count: 1,
                card: oc(S_3),
            },
        ]),
    };
    let hand = Card::count(&[S_2, S_2, S_2, S_5]);
    assert!(tf.is_legal_play(&hand, &[S_2, S_2, S_2]));
    assert!(tf.is_legal_play(&hand, &[S_2, S_2, S_5]));
}

#[test]
fn test_play_throw_tractor_with_other_tractor_in_game() {
    let trump = Trump::Standard {
        number: Number::Four,
        suit: Suit::Hearts,
    };

    let mut hands = Hands::new(vec![P1, P2, P3, P4], Number::Four);
    let p2_hand = vec![H_2, H_2, H_3, H_A, H_3];
    let p1_hand = vec![S_Q, S_Q, S_K, S_K, S_A];
    let p3_hand = vec![S_A, S_A, S_3, S_3, S_3];
    let p4_hand = vec![S_3, S_3, S_3, S_3, S_3];

    hands.add(P1, &p1_hand).unwrap();
    hands.add(P2, &p2_hand).unwrap();
    hands.add(P3, &p3_hand).unwrap();
    hands.add(P4, &p4_hand).unwrap();
    let mut trick = Trick::new(trump, vec![P1, P2, P3, P4]);
    trick.play_cards(P1, &mut hands, &p1_hand).unwrap();
    trick.play_cards(P2, &mut hands, &p2_hand).unwrap();
    trick.play_cards(P3, &mut hands, &p3_hand).unwrap();
    trick.play_cards(P4, &mut hands, &p4_hand).unwrap();
    let TrickEnded {
        winner: winner_id,
        points,
        largest_trick_unit_size,
        failed_throw_size,
        ..
    } = trick.complete().unwrap();
    assert_eq!(largest_trick_unit_size, 4);
    assert_eq!(winner_id, P2);
    assert_eq!(points, vec![S_K, S_K]);
    assert_eq!(failed_throw_size, 0);
}

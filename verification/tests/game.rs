//! Hands, throws, and tricks in play.

use shengji_core::format::TrickFormat;
use shengji_core::hands::{HandError, Hands};
use shengji_core::message::MessageVariant;
use shengji_core::throw::check_throw;
use shengji_core::trick::{PlayedCards, Trick, TrickError};
use shengji_core::types::{Card, Number, PlayerID, Suit, Trump};

const TRUMP: Trump = Trump::Standard {
    number: Number::Four,
    suit: Suit::Spades,
};
const P1: PlayerID = PlayerID(1);
const P2: PlayerID = PlayerID(2);
const P3: PlayerID = PlayerID(3);
const P9: PlayerID = PlayerID(9);

fn hearts(number: Number) -> Card {
    Card::Suited {
        suit: Suit::Hearts,
        number,
    }
}

fn spades(number: Number) -> Card {
    Card::Suited {
        suit: Suit::Spades,
        number,
    }
}

fn clubs(number: Number) -> Card {
    Card::Suited {
        suit: Suit::Clubs,
        number,
    }
}

fn hands_of(hands: &[(PlayerID, &[Card])]) -> Hands {
    let players = hands.iter().map(|(id, _)| *id).collect();
    let mut all = Hands::new(players, Number::Four);
    for (id, cards) in hands {
        all.add(*id, cards).unwrap();
    }
    all
}

fn ids(played: &[PlayedCards]) -> Vec<PlayerID> {
    played.iter().map(|p| p.id).collect()
}

#[test]
fn hands_give_and_take() {
    let mut hands = Hands::new(vec![P1, P2, P1], Number::Four);
    assert_eq!(hands.level(), Number::Four);
    let two = hearts(Number::Two);
    assert_eq!(hands.add(P9, &[two]), Err(HandError::PlayerNotFound));
    assert_eq!(hands.add(P1, &[two, two]), Ok(()));
    assert_eq!(hands.contains(P1, &[two, two]), Ok(()));
    assert_eq!(
        hands.contains(P1, &[two, two, two]),
        Err(HandError::CardsNotFound)
    );
    assert_eq!(hands.contains(P9, &[]), Err(HandError::PlayerNotFound));
    assert_eq!(hands.remove(P2, &[two]), Err(HandError::CardsNotFound));
    assert_eq!(hands.remove(P1, &[two]), Ok(()));
    assert_eq!(hands.get(P1).unwrap().get(two), 1);
    assert!(matches!(hands.get(P9), Err(HandError::PlayerNotFound)));
}

#[test]
fn errors_of_hands_become_errors_of_tricks() {
    assert_eq!(
        TrickError::from(HandError::CardsNotFound),
        TrickError::HandError {
            source: HandError::CardsNotFound
        }
    );
}

#[test]
fn only_the_next_player_may_play() {
    let mut hands = hands_of(&[(P1, &[hearts(Number::Two)]), (P2, &[hearts(Number::Three)])]);
    let mut trick = Trick::new(TRUMP, vec![P1, P2]);
    assert_eq!(trick.next_player(), Some(P1));
    assert_eq!(trick.player_queue(), vec![P1, P2]);
    assert_eq!(
        trick.can_play_cards(P2, &hands, &[hearts(Number::Three)]),
        Err(TrickError::OutOfOrder)
    );
    assert_eq!(
        trick.play_cards(P2, &mut hands, &[hearts(Number::Three)]),
        Err(TrickError::OutOfOrder)
    );
    assert!(trick.played_cards().is_empty());
    assert_eq!(
        hands.contains(P2, &[hearts(Number::Three)]),
        Ok(())
    );
    assert_eq!(
        trick.can_play_cards(P1, &hands, &[hearts(Number::Two)]),
        Ok(())
    );
    trick
        .play_cards(P1, &mut hands, &[hearts(Number::Two)])
        .unwrap();
    assert_eq!(ids(trick.played_cards()), vec![P1]);
    assert_eq!(trick.next_player(), Some(P2));
    trick
        .play_cards(P2, &mut hands, &[hearts(Number::Three)])
        .unwrap();
    assert_eq!(trick.next_player(), None);
    assert_eq!(trick.player_queue(), vec![]);
}

#[test]
fn refused_plays_change_nothing() {
    let mut hands = hands_of(&[
        (P1, &[hearts(Number::Two), spades(Number::Two)]),
        (P2, &[hearts(Number::Three), clubs(Number::Three)]),
    ]);
    let mut trick = Trick::new(TRUMP, vec![P1, P2]);
    assert_eq!(
        trick.play_cards(P9, &mut hands, &[hearts(Number::Two)]),
        Err(TrickError::HandError {
            source: HandError::PlayerNotFound
        })
    );
    assert_eq!(
        trick.play_cards(P1, &mut hands, &[hearts(Number::Ace)]),
        Err(TrickError::HandError {
            source: HandError::CardsNotFound
        })
    );
    assert_eq!(
        trick.play_cards(P1, &mut hands, &[]),
        Err(TrickError::WrongNumberOfSuits)
    );
    assert_eq!(
        trick.play_cards(P1, &mut hands, &[hearts(Number::Two), spades(Number::Two)]),
        Err(TrickError::WrongNumberOfSuits)
    );
    assert!(trick.played_cards().is_empty());
    trick
        .play_cards(P1, &mut hands, &[hearts(Number::Two)])
        .unwrap();
    assert_eq!(
        trick.play_cards(P2, &mut hands, &[clubs(Number::Three)]),
        Err(TrickError::IllegalPlay)
    );
    assert_eq!(ids(trick.played_cards()), vec![P1]);
    assert_eq!(
        hands.contains(P2, &[hearts(Number::Three), clubs(Number::Three)]),
        Ok(())
    );
}

#[test]
fn taking_back_restores_trick_and_hands() {
    let mut hands = hands_of(&[
        (P1, &[hearts(Number::Five), hearts(Number::Two)]),
        (P2, &[hearts(Number::Seven), spades(Number::Two)]),
    ]);
    let mut trick = Trick::new(TRUMP, vec![P1, P2]);
    trick
        .play_cards(P1, &mut hands, &[hearts(Number::Five)])
        .unwrap();
    assert_eq!(trick.current_winner, Some(P1));
    trick
        .play_cards(P2, &mut hands, &[hearts(Number::Seven)])
        .unwrap();
    assert_eq!(trick.current_winner, Some(P2));
    assert_eq!(trick.take_back(P1, &mut hands), Err(TrickError::OutOfOrder));

    assert_eq!(trick.take_back(P2, &mut hands), Ok(()));
    assert_eq!(trick.current_winner, Some(P1));
    assert_eq!(trick.player_queue(), vec![P2]);
    assert!(trick.trick_format.is_some());
    assert_eq!(hands.contains(P2, &[hearts(Number::Seven)]), Ok(()));

    assert_eq!(trick.take_back(P1, &mut hands), Ok(()));
    assert_eq!(trick.current_winner, None);
    assert_eq!(trick.player_queue(), vec![P1, P2]);
    assert!(trick.trick_format.is_none());
    assert!(trick.played_cards().is_empty());
    assert_eq!(
        hands.contains(P1, &[hearts(Number::Five), hearts(Number::Two)]),
        Ok(())
    );
    assert_eq!(trick.take_back(P1, &mut hands), Err(TrickError::OutOfOrder));
}

#[test]
fn a_trick_is_complete_when_everyone_has_played() {
    let mut hands = hands_of(&[
        (P1, &[hearts(Number::Five)]),
        (P2, &[hearts(Number::King)]),
    ]);
    assert!(matches!(
        Trick::new(TRUMP, vec![]).complete(),
        Err(TrickError::OutOfOrder)
    ));
    let mut trick = Trick::new(TRUMP, vec![P1, P2]);
    trick
        .play_cards(P1, &mut hands, &[hearts(Number::Five)])
        .unwrap();
    assert!(matches!(trick.complete(), Err(TrickError::OutOfOrder)));
    trick
        .play_cards(P2, &mut hands, &[hearts(Number::King)])
        .unwrap();
    let ended = trick.complete().unwrap();
    assert_eq!(ended.winner, P2);
    assert_eq!(
        ended.points,
        vec![hearts(Number::Five), hearts(Number::King)]
    );
    assert_eq!(ended.largest_trick_unit_size, 1);
    assert_eq!(ended.failed_throw_size, 0);
}

#[test]
fn the_first_of_equally_strong_plays_wins() {
    let mut hands = hands_of(&[
        (P1, &[spades(Number::Two)]),
        (P2, &[clubs(Number::Four)]),
        (P3, &[hearts(Number::Four)]),
    ]);
    let mut trick = Trick::new(TRUMP, vec![P1, P2, P3]);
    trick
        .play_cards(P1, &mut hands, &[spades(Number::Two)])
        .unwrap();
    trick
        .play_cards(P2, &mut hands, &[clubs(Number::Four)])
        .unwrap();
    trick
        .play_cards(P3, &mut hands, &[hearts(Number::Four)])
        .unwrap();
    assert_eq!(trick.complete().unwrap().winner, P2);
}

#[test]
fn a_failed_throw_is_cut_down_to_the_beaten_unit() {
    let ace = hearts(Number::Ace);
    let two = hearts(Number::Two);
    let mut hands = hands_of(&[
        (P1, &[ace, ace, two]),
        (P2, &[hearts(Number::Three), clubs(Number::Two), clubs(Number::Two)]),
    ]);
    let mut trick = Trick::new(TRUMP, vec![P1, P2]);
    let messages = trick.play_cards(P1, &mut hands, &[ace, two, ace]).unwrap();
    assert_eq!(
        messages,
        vec![
            MessageVariant::ThrowFailed {
                original_cards: vec![two, ace, ace],
                better_player: P2
            },
            MessageVariant::PlayedCards { cards: vec![two] },
        ]
    );
    let played = &trick.played_cards()[0];
    assert_eq!(played.cards, vec![two]);
    assert_eq!(played.bad_throw_cards, vec![ace, ace]);
    assert_eq!(played.better_player, Some(P2));
    assert_eq!(hands.contains(P1, &[ace, ace]), Ok(()));
    assert_eq!(
        hands.contains(P1, &[two]),
        Err(HandError::CardsNotFound)
    );
    assert_eq!(
        trick
            .play_cards(P2, &mut hands, &[hearts(Number::Three)])
            .unwrap(),
        vec![MessageVariant::PlayedCards {
            cards: vec![hearts(Number::Three)]
        }]
    );
    assert_eq!(trick.complete().unwrap().failed_throw_size, 2);
}

#[test]
fn a_throw_is_judged_player_by_player() {
    let ace = hearts(Number::Ace);
    let throw = [hearts(Number::Two), ace, ace];
    let format = TrickFormat::from_cards(TRUMP, &throw).unwrap();
    let safe = hands_of(&[(P1, &[]), (P2, &[clubs(Number::Two)])]);
    assert_eq!(check_throw(&format, &safe, &[P2]), Ok(None));
    assert_eq!(
        check_throw(&format, &safe, &[P2, P9]),
        Err(HandError::PlayerNotFound)
    );
    let beaten = hands_of(&[
        (P2, &[clubs(Number::Two)]),
        (P3, &[hearts(Number::Three)]),
    ]);
    assert_eq!(
        check_throw(&format, &beaten, &[P2, P3, P9]),
        Ok(Some((P3, 0)))
    );
}

#[test]
fn a_thrown_tractor_is_beaten_by_a_higher_one() {
    let tractor = [
        hearts(Number::Two),
        hearts(Number::Two),
        hearts(Number::Three),
        hearts(Number::Three),
        hearts(Number::Ace),
    ];
    let format = TrickFormat::from_cards(TRUMP, &tractor).unwrap();
    let overlapping = hands_of(&[(
        P2,
        &[
            hearts(Number::Three),
            hearts(Number::Three),
            hearts(Number::Five),
            hearts(Number::Five),
        ],
    )]);
    assert_eq!(
        check_throw(&format, &overlapping, &[P2]),
        Ok(Some((P2, 1)))
    );
    let apart = hands_of(&[(
        P2,
        &[
            hearts(Number::Five),
            hearts(Number::Five),
            hearts(Number::Seven),
            hearts(Number::Seven),
        ],
    )]);
    assert_eq!(check_throw(&format, &apart, &[P2]), Ok(None));
}

#[test]
fn throws_need_hands_for_everyone() {
    let mut hands = hands_of(&[(P1, &[hearts(Number::Ace), hearts(Number::King)])]);
    let mut trick = Trick::new(TRUMP, vec![P1, P9]);
    assert_eq!(
        trick.play_cards(
            P1,
            &mut hands,
            &[hearts(Number::Ace), hearts(Number::King)]
        ),
        Err(TrickError::HandError {
            source: HandError::PlayerNotFound
        })
    );
    assert!(trick.played_cards().is_empty());
    assert!(trick
        .play_cards(P1, &mut hands, &[hearts(Number::Ace)])
        .is_ok());
}

#[test]
fn tricks_stay_valid() {
    let mut hands = hands_of(&[
        (P1, &[hearts(Number::Five)]),
        (P2, &[hearts(Number::King)]),
    ]);
    let mut trick = Trick::new(TRUMP, vec![P1, P2]);
    assert!(trick.is_valid());
    trick
        .play_cards(P1, &mut hands, &[hearts(Number::Five)])
        .unwrap();
    assert!(trick.is_valid());
    let mut copy = trick.clone();
    assert!(copy.is_valid());
    assert_eq!(ids(copy.played_cards()), vec![P1]);
    copy.current_winner = Some(P2);
    assert!(!copy.is_valid());
    copy.current_winner = None;
    copy.trick_format = None;
    assert!(!copy.is_valid());
    let mut other = trick.clone();
    other.played_cards[0].cards.push(hearts(Number::Two));
    assert!(!other.is_valid());
}

#[test]
fn a_history_of_plays_keeps_order_and_cards() {
    let ace = hearts(Number::Ace);
    let two = hearts(Number::Two);
    let three = hearts(Number::Three);
    let mut hands = hands_of(&[(P1, &[ace, ace, two]), (P2, &[three, three]), (P3, &[two])]);
    let mut trick = Trick::new(TRUMP, vec![P1, P2, P3]);
    trick.play_cards(P1, &mut hands, &[ace, ace, two]).unwrap();
    assert!(trick.play_cards(P3, &mut hands, &[two]).is_err());
    trick.play_cards(P2, &mut hands, &[three]).unwrap();
    trick.take_back(P2, &mut hands).unwrap();
    trick.play_cards(P2, &mut hands, &[three]).unwrap();
    trick.play_cards(P3, &mut hands, &[two]).unwrap();

    let mut players = ids(trick.played_cards());
    players.extend(trick.player_queue());
    assert_eq!(players, vec![P1, P2, P3]);
    assert_eq!(trick.played_cards()[0].better_player, Some(P2));
    for played in &trick.played_cards()[1..] {
        assert!(played.bad_throw_cards.is_empty());
        assert_eq!(played.better_player, None);
    }
    assert_eq!(hands.contains(P1, &[ace, ace]), Ok(()));
    assert_eq!(hands.contains(P2, &[three]), Ok(()));
    let led = TrickFormat::from_cards(TRUMP, &trick.played_cards()[0].cards).unwrap();
    assert_eq!(trick.trick_format, Some(led));
    assert_eq!(trick.complete().unwrap().largest_trick_unit_size, 1);

    trick.take_back(P3, &mut hands).unwrap();
    trick.take_back(P2, &mut hands).unwrap();
    trick.take_back(P1, &mut hands).unwrap();
    assert_eq!(hands.contains(P1, &[ace, ace, two]), Ok(()));
    assert_eq!(hands.contains(P2, &[three, three]), Ok(()));
    assert_eq!(hands.contains(P3, &[two]), Ok(()));
}

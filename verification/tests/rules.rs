//! The parts that the rules are made of: cards, units, tractors, plays and formats.

use std::cmp::Ordering;

use shengji_core::counts::SortedCounts;
use shengji_core::format::{hand_in_suit, TrickFormat};
use shengji_core::order::{sort_cards, sort_units};
use shengji_core::plays::find_plays_inner;
use shengji_core::search::{
    append, check_format_inner, count_in_order, with_cards, without_cards,
};
use shengji_core::small::{OrderedCards, Shapes, Units};
use shengji_core::tractor::find_tractors_from_start;
use shengji_core::trick::TrickError;
use shengji_core::types::{Card, EffectiveSuit, Number, Suit, Trump};
use shengji_core::unit::{OrderedCard, TrickUnit, UnitLike};

const TRUMP: Trump = Trump::Standard {
    number: Number::Four,
    suit: Suit::Spades,
};
const NO_TRUMP: Trump = Trump::NoTrump {
    number: Number::Four,
};

fn hearts(number: Number) -> Card {
    Card::Suited {
        suit: Suit::Hearts,
        number,
    }
}

fn spades(number: Number) -> Card {
    Card::Suited {
        suit: Suit::Spades,
        number,
    }
}

fn clubs(number: Number) -> Card {
    Card::Suited {
        suit: Suit::Clubs,
        number,
    }
}

fn diamonds(number: Number) -> Card {
    Card::Suited {
        suit: Suit::Diamonds,
        number,
    }
}

fn oc(card: Card) -> OrderedCard {
    OrderedCard { card, trump: TRUMP }
}

fn many(cards: &[(Card, usize)]) -> Vec<Card> {
    cards
        .iter()
        .flat_map(|(card, count)| vec![*card; *count])
        .collect()
}

fn repeated(count: usize, card: Card) -> TrickUnit {
    TrickUnit::Repeated {
        count,
        card: oc(card),
    }
}

fn tractor(count: usize, cards: &[Card]) -> TrickUnit {
    let members: Vec<OrderedCard> = cards.iter().map(|c| oc(*c)).collect();
    TrickUnit::Tractor {
        count,
        members: OrderedCards::from_cards(&members),
    }
}

fn format_of(suit: EffectiveSuit, units: &[TrickUnit]) -> TrickFormat {
    TrickFormat {
        suit,
        trump: TRUMP,
        units: Units::from_units(units),
    }
}

#[test]
fn fives_tens_and_kings_are_worth_points() {
    assert_eq!(clubs(Number::Five).points(), Some(5));
    assert_eq!(hearts(Number::Ten).points(), Some(10));
    assert_eq!(spades(Number::King).points(), Some(10));
    assert_eq!(spades(Number::Ace).points(), None);
    assert_eq!(Card::BigJoker.points(), None);
}

#[test]
fn trumps_are_a_suit_of_their_own() {
    assert_eq!(TRUMP.number(), Number::Four);
    assert_eq!(
        TRUMP.effective_suit(hearts(Number::Two)),
        EffectiveSuit::Hearts
    );
    assert_eq!(
        TRUMP.effective_suit(hearts(Number::Four)),
        EffectiveSuit::Trump
    );
    assert_eq!(
        TRUMP.effective_suit(spades(Number::Two)),
        EffectiveSuit::Trump
    );
    assert_eq!(
        NO_TRUMP.effective_suit(spades(Number::Two)),
        EffectiveSuit::Spades
    );
    assert_eq!(TRUMP.effective_suit(Card::SmallJoker), EffectiveSuit::Trump);
}

#[test]
fn different_cards_never_compare_equal() {
    let numbers = [Number::Two, Number::Four, Number::Ace];
    let mut cards = vec![Card::SmallJoker, Card::BigJoker];
    for number in numbers {
        cards.push(clubs(number));
        cards.push(diamonds(number));
        cards.push(hearts(number));
        cards.push(spades(number));
    }
    for trump in [TRUMP, NO_TRUMP] {
        for a in &cards {
            for b in &cards {
                assert_eq!(trump.compare(*a, *b) == Ordering::Equal, a == b);
                assert_eq!(trump.compare(*a, *b), trump.compare(*b, *a).reverse());
                assert_eq!(
                    trump.before(*a, *b),
                    trump.compare(*a, *b) == Ordering::Less
                );
            }
        }
    }
}

#[test]
fn trump_numbers_outside_the_trump_suit_are_equally_strong() {
    let four = hearts(Number::Four);
    assert_eq!(
        TRUMP.compare_effective(four, clubs(Number::Four)),
        Ordering::Equal
    );
    assert_eq!(
        TRUMP.compare_effective(four, spades(Number::Four)),
        Ordering::Less
    );
    assert_eq!(
        TRUMP.compare_effective(four, spades(Number::Ace)),
        Ordering::Greater
    );
    assert_eq!(
        TRUMP.compare_effective(spades(Number::Two), hearts(Number::Ace)),
        Ordering::Greater
    );
}

#[test]
fn successors_skip_the_trump_number() {
    assert_eq!(
        TRUMP.successor(hearts(Number::Three)),
        vec![hearts(Number::Five)]
    );
    assert_eq!(TRUMP.successor(hearts(Number::Ace)), vec![]);
    assert_eq!(
        TRUMP.successor(spades(Number::Ace)),
        vec![
            clubs(Number::Four),
            diamonds(Number::Four),
            hearts(Number::Four)
        ]
    );
    assert_eq!(
        TRUMP.successor(hearts(Number::Four)),
        vec![spades(Number::Four)]
    );
    assert_eq!(
        TRUMP.successor(spades(Number::Four)),
        vec![Card::SmallJoker]
    );
    assert_eq!(TRUMP.successor(Card::SmallJoker), vec![Card::BigJoker]);
    assert_eq!(TRUMP.successor(Card::BigJoker), vec![]);
}

#[test]
fn ordered_cards_compare_by_their_trump() {
    let low = oc(hearts(Number::Ace));
    let high = oc(spades(Number::Two));
    assert!(low < high);
    assert_eq!(low.cmp(&high), Ordering::Less);
    assert_eq!(
        oc(spades(Number::Ace)).successor().items(),
        &[
            oc(clubs(Number::Four)),
            oc(diamonds(Number::Four)),
            oc(hearts(Number::Four))
        ]
    );
    assert_eq!(
        OrderedCard::cards(&[(low, 2), (high, 1)]),
        vec![low, low, high]
    );
}

#[test]
fn units_know_their_cards() {
    let pair = repeated(2, hearts(Number::Two));
    let wide = tractor(3, &[hearts(Number::Two), hearts(Number::Three)]);
    assert!(pair.is_repeated() && !pair.is_tractor());
    assert!(wide.is_tractor() && !wide.is_repeated());
    assert_eq!(pair.size(), 2);
    assert_eq!(wide.size(), 6);
    assert_eq!(wide.first_card(), oc(hearts(Number::Two)));
    assert_eq!(
        wide.cards().items().to_vec(),
        many(&[(hearts(Number::Two), 3), (hearts(Number::Three), 3)])
    );
    assert_eq!(pair.cards().items().len(), pair.size());
    assert_eq!(
        UnitLike::from(&wide),
        UnitLike::Tractor {
            count: 3,
            length: 2
        }
    );
    assert_eq!(wide.clone(), wide);
}

#[test]
fn shapes_weaken_step_by_step() {
    let wide = UnitLike::Tractor {
        count: 3,
        length: 3,
    };
    let weaker = wide.decompose();
    let lists: Vec<Vec<UnitLike>> = weaker
        .items()
        .iter()
        .map(|shapes| shapes.items().to_vec())
        .collect();
    assert_eq!(
        lists,
        vec![
            vec![UnitLike::Tractor {
                count: 2,
                length: 3
            }],
            vec![
                UnitLike::Tractor {
                    count: 3,
                    length: 2
                },
                UnitLike::Repeated { count: 3 }
            ],
        ]
    );
    let narrow = UnitLike::Tractor {
        count: 2,
        length: 2,
    };
    assert_eq!(
        narrow.decompose().items(),
        &[Shapes::copy_of(&[
            UnitLike::Repeated { count: 2 },
            UnitLike::Repeated { count: 2 }
        ])]
    );
    assert_eq!(
        UnitLike::Repeated { count: 3 }.decompose().items(),
        &[Shapes::copy_of(&[UnitLike::Repeated { count: 2 }])]
    );
    assert!(UnitLike::Repeated { count: 2 }
        .decompose()
        .items()
        .is_empty());
}

#[test]
fn counts_keep_cards_in_order() {
    let mut counts = SortedCounts::new(TRUMP);
    counts.put(spades(Number::Two), 2);
    counts.put(hearts(Number::Ace), 1);
    assert_eq!(counts.trump(), TRUMP);
    assert_eq!(
        counts.entries(),
        &[(hearts(Number::Ace), 1), (spades(Number::Two), 2)]
    );
    counts.take(spades(Number::Two), 1);
    assert_eq!(counts.get(spades(Number::Two)), 1);
    counts.take(hearts(Number::Ace), 1);
    assert_eq!(counts.entries(), &[(spades(Number::Two), 1)]);

    let mut hand = Card::count(&[hearts(Number::Two), hearts(Number::Two)]);
    assert_eq!(hand.get(hearts(Number::Two)), 2);
    hand.insert(spades(Number::Two));
    hand.remove(hearts(Number::Two));
    assert_eq!(hand.get(hearts(Number::Two)), 1);
    let trumps = hand_in_suit(&hand, TRUMP, EffectiveSuit::Trump);
    assert_eq!(trumps.entries(), &[(spades(Number::Two), 1)]);
}

#[test]
fn every_run_makes_a_tractor() {
    let cards = many(&[
        (hearts(Number::Two), 2),
        (hearts(Number::Three), 2),
        (hearts(Number::Five), 2),
        (hearts(Number::Six), 1),
    ]);
    let counts = count_in_order(TRUMP, &cards);
    let found = find_tractors_from_start(oc(hearts(Number::Two)), 2, &counts, 2, 2);
    assert_eq!(
        found.items(),
        &[
            tractor(2, &[hearts(Number::Two), hearts(Number::Three)]),
            tractor(
                2,
                &[
                    hearts(Number::Two),
                    hearts(Number::Three),
                    hearts(Number::Five)
                ]
            ),
        ]
    );
    let long = find_tractors_from_start(oc(hearts(Number::Two)), 2, &counts, 2, 3);
    assert_eq!(long.items().len(), 1);
    let wide = find_tractors_from_start(oc(hearts(Number::Two)), 2, &counts, 3, 2);
    assert!(wide.items().is_empty());
}

#[test]
fn a_narrow_branch_narrows_the_ones_behind_it() {
    let cards = many(&[
        (spades(Number::Ace), 3),
        (clubs(Number::Four), 2),
        (hearts(Number::Four), 3),
    ]);
    let counts = count_in_order(TRUMP, &cards);
    let found = find_tractors_from_start(oc(spades(Number::Ace)), 3, &counts, 2, 2);
    assert_eq!(
        found.items(),
        &[
            tractor(2, &[spades(Number::Ace), clubs(Number::Four)]),
            tractor(2, &[spades(Number::Ace), hearts(Number::Four)]),
        ]
    );
}

#[test]
fn cards_taken_out_can_be_put_back() {
    let cards = many(&[(hearts(Number::Two), 3), (hearts(Number::Three), 2)]);
    let mut counts = count_in_order(TRUMP, &cards);
    let before = counts.entries().to_vec();
    let unit = tractor(2, &[hearts(Number::Two), hearts(Number::Three)]);
    without_cards(&mut counts, &unit);
    assert_eq!(counts.entries(), &[(hearts(Number::Two), 1)]);
    with_cards(&mut counts, &unit);
    assert_eq!(counts.entries(), &before[..]);
}

#[test]
fn the_search_lists_units_from_the_last_shape_to_the_first() {
    let cards = many(&[(hearts(Number::Two), 2), (hearts(Number::Three), 1)]);
    let wanted = [
        UnitLike::Repeated { count: 1 },
        UnitLike::Repeated { count: 2 },
    ];
    let mut counts = count_in_order(TRUMP, &cards);
    let before = counts.entries().to_vec();
    let (found, units) = check_format_inner(&mut counts, &wanted, 0);
    assert!(found);
    assert_eq!(
        units.items(),
        &[
            repeated(2, hearts(Number::Two)),
            repeated(1, hearts(Number::Three))
        ]
    );
    assert_eq!(counts.entries(), &before[..]);

    let (found, units) = UnitLike::check_play(TRUMP, &cards, &[UnitLike::Repeated { count: 3 }]);
    assert!(!found);
    assert!(units.items().is_empty());
    let (found, units) = UnitLike::check_play(TRUMP, &[], &[]);
    assert!(found);
    assert!(units.items().is_empty());
}

#[test]
fn units_can_be_appended() {
    let mut units = Units::from_units(&[repeated(1, hearts(Number::Two))]);
    append(
        &mut units,
        &Units::from_units(&[repeated(2, hearts(Number::Five))]),
    );
    assert_eq!(
        units.items(),
        &[
            repeated(1, hearts(Number::Two)),
            repeated(2, hearts(Number::Five))
        ]
    );
    assert_eq!(units.clone(), units);
}

#[test]
fn plays_split_all_cards_and_descend() {
    let cards = many(&[
        (hearts(Number::Two), 3),
        (hearts(Number::Three), 2),
        (hearts(Number::Seven), 1),
    ]);
    let plays = TrickUnit::find_plays(TRUMP, &cards);
    assert_eq!(plays.items().len(), 2);
    for play in plays.items() {
        let mut all: Vec<Card> = Vec::new();
        let mut highest = oc(Card::BigJoker);
        for unit in play.items() {
            all.extend(unit.cards().items());
            assert!(unit.first_card() <= highest);
            highest = unit.first_card();
        }
        assert_eq!(sort_cards(TRUMP, &all), cards);
    }
    assert!(TrickUnit::find_plays(TRUMP, &[]).items().is_empty());
}

#[test]
fn splitting_leaves_the_counts_alone() {
    let cards = many(&[(hearts(Number::Two), 3), (hearts(Number::Three), 2)]);
    let mut counts = count_in_order(TRUMP, &cards);
    let before = counts.entries().to_vec();
    let plays = find_plays_inner(&mut counts, 5);
    assert_eq!(plays.items().len(), 2);
    assert_eq!(counts.entries(), &before[..]);
}

#[test]
fn cards_and_units_are_sorted() {
    let cards = [
        Card::BigJoker,
        spades(Number::Two),
        hearts(Number::Ace),
        hearts(Number::Two),
    ];
    assert_eq!(
        sort_cards(TRUMP, &cards),
        vec![
            hearts(Number::Two),
            hearts(Number::Ace),
            spades(Number::Two),
            Card::BigJoker
        ]
    );
    let units = Units::from_units(&[
        repeated(3, hearts(Number::Five)),
        repeated(1, hearts(Number::Ace)),
        repeated(3, hearts(Number::Two)),
        tractor(2, &[hearts(Number::Six), hearts(Number::Seven)]),
        repeated(4, hearts(Number::Six)),
    ]);
    assert_eq!(
        sort_units(&units).items(),
        &[
            repeated(1, hearts(Number::Ace)),
            repeated(3, hearts(Number::Two)),
            repeated(3, hearts(Number::Five)),
            tractor(2, &[hearts(Number::Six), hearts(Number::Seven)]),
            repeated(4, hearts(Number::Six)),
        ]
    );
}

#[test]
fn a_format_needs_cards_of_one_suit() {
    assert_eq!(
        TrickFormat::from_cards(TRUMP, &[]),
        Err(TrickError::WrongNumberOfSuits)
    );
    assert_eq!(
        TrickFormat::from_cards(TRUMP, &[hearts(Number::Two), spades(Number::Two)]),
        Err(TrickError::WrongNumberOfSuits)
    );
    let format = TrickFormat::from_cards(TRUMP, &[hearts(Number::Four), Card::BigJoker]).unwrap();
    assert_eq!(
        format,
        format_of(
            EffectiveSuit::Trump,
            &[
                repeated(1, hearts(Number::Four)),
                repeated(1, Card::BigJoker)
            ]
        )
    );
    assert_eq!(format.clone(), format);
}

#[test]
fn a_match_has_the_units_of_the_format() {
    let format = format_of(
        EffectiveSuit::Hearts,
        &[
            repeated(1, hearts(Number::Two)),
            repeated(2, hearts(Number::Three)),
        ],
    );
    let cards = many(&[(spades(Number::Five), 2), (spades(Number::Six), 1)]);
    assert_eq!(
        format.matches(&cards).unwrap().items(),
        &[
            repeated(2, spades(Number::Five)),
            repeated(1, spades(Number::Six))
        ]
    );
    let off_suit = many(&[(clubs(Number::Five), 2), (clubs(Number::Six), 1)]);
    assert_eq!(format.matches(&off_suit), Err(TrickError::NonMatchingPlay));
    let mixed = [
        hearts(Number::Five),
        hearts(Number::Five),
        spades(Number::Five),
    ];
    assert_eq!(format.matches(&mixed), Err(TrickError::NonMatchingPlay));
    let short = [hearts(Number::Five), hearts(Number::Five)];
    assert_eq!(format.matches(&short), Err(TrickError::NonMatchingPlay));
    let singles = [
        hearts(Number::Five),
        hearts(Number::Six),
        hearts(Number::Seven),
    ];
    assert_eq!(format.matches(&singles), Err(TrickError::NonMatchingPlay));
}

#[test]
fn a_lead_with_its_tractor_last_matches_itself() {
    let cards = many(&[
        (hearts(Number::Two), 3),
        (hearts(Number::Three), 2),
        (hearts(Number::Nine), 1),
    ]);
    let format = TrickFormat::from_cards(TRUMP, &cards).unwrap();
    assert_eq!(
        format.units.items(),
        &[
            repeated(1, hearts(Number::Two)),
            repeated(1, hearts(Number::Nine)),
            tractor(2, &[hearts(Number::Two), hearts(Number::Three)]),
        ]
    );
    assert!(format.matches(&cards).is_ok());
}

#[test]
fn a_short_tractor_inside_a_long_one_is_not_found_again() {
    let cards = many(&[
        (hearts(Number::Two), 4),
        (hearts(Number::Three), 4),
        (hearts(Number::Five), 2),
        (hearts(Number::Six), 2),
        (hearts(Number::Seven), 2),
        (hearts(Number::Eight), 2),
    ]);
    let format = TrickFormat::from_cards(TRUMP, &cards).unwrap();
    assert_eq!(
        format.units.items(),
        &[
            tractor(2, &[hearts(Number::Two), hearts(Number::Three)]),
            tractor(
                2,
                &[
                    hearts(Number::Two),
                    hearts(Number::Three),
                    hearts(Number::Five),
                    hearts(Number::Six),
                    hearts(Number::Seven),
                    hearts(Number::Eight)
                ]
            ),
        ]
    );
    assert_eq!(format.matches(&cards), Err(TrickError::NonMatchingPlay));
}

#[test]
fn legal_plays_follow_suit_as_far_as_possible() {
    let format = format_of(EffectiveSuit::Hearts, &[repeated(2, hearts(Number::Two))]);
    let hand = Card::count(&[
        hearts(Number::Five),
        clubs(Number::Two),
        clubs(Number::Three),
    ]);
    assert!(format.is_legal_play(&hand, &[hearts(Number::Five), clubs(Number::Two)]));
    assert!(!format.is_legal_play(&hand, &[clubs(Number::Two), clubs(Number::Three)]));
    assert!(!format.is_legal_play(&hand, &[hearts(Number::Five)]));

    let void = Card::count(&[clubs(Number::Two), clubs(Number::Three)]);
    assert!(format.is_legal_play(&void, &[clubs(Number::Two), clubs(Number::Three)]));
}

#[test]
fn plays_that_match_or_use_up_the_suit_are_legal() {
    let format = format_of(EffectiveSuit::Hearts, &[repeated(2, hearts(Number::Two))]);
    let hand = Card::count(&many(&[
        (hearts(Number::Five), 2),
        (hearts(Number::Six), 2),
        (hearts(Number::Seven), 1),
    ]));
    assert!(format.is_legal_play(&hand, &[hearts(Number::Six), hearts(Number::Six)]));
    assert!(!format.is_legal_play(&hand, &[hearts(Number::Six), hearts(Number::Seven)]));

    let rest = Card::count(&[hearts(Number::Six), hearts(Number::Seven)]);
    assert!(format.is_legal_play(&rest, &[hearts(Number::Six), hearts(Number::Seven)]));
}

#[test]
fn a_wide_tractor_is_answered_with_the_next_best_thing() {
    let format = format_of(
        EffectiveSuit::Hearts,
        &[tractor(3, &[hearts(Number::Two), hearts(Number::Three)])],
    );
    let hand = Card::count(&many(&[
        (hearts(Number::Five), 3),
        (hearts(Number::Seven), 3),
        (hearts(Number::Nine), 2),
    ]));
    assert!(format.is_legal_play(
        &hand,
        &many(&[(hearts(Number::Five), 3), (hearts(Number::Seven), 3)])
    ));
    assert!(!format.is_legal_play(
        &hand,
        &many(&[
            (hearts(Number::Five), 3),
            (hearts(Number::Seven), 1),
            (hearts(Number::Nine), 2)
        ])
    ));
}

#[test]
fn units_show_their_cards() {
    let two = hearts(Number::Two);
    let three = hearts(Number::Three);
    assert_eq!(format!("{:?}", oc(two)), format!("{:?}", two));
    assert_eq!(format!("{:#?}", oc(two)), format!("{:?}", two));
    let pair = repeated(2, two);
    let cards = format!("{:?}", vec![two, two]);
    assert_eq!(format!("{:?}", pair), cards);
    assert_eq!(format!("{:#?}", pair), cards);
    assert_eq!(format!("{:?}", pair.cards()), cards);
    let members = OrderedCards::from_cards(&[oc(two), oc(three)]);
    assert_eq!(
        format!("{:?}", members),
        format!("{:?}", vec![two, three])
    );
    let format = format_of(EffectiveSuit::Hearts, &[pair]);
    assert_eq!(format!("{:?}", format.units), format!("[{}]", cards));
    assert_eq!(
        format!("{:?}", format),
        format!(
            "TrickFormat {{ suit: Hearts, trump: {:?}, units: [{}] }}",
            TRUMP, cards
        )
    );
}

#[test]
fn a_lead_with_one_tractor_anywhere_matches_itself() {
    let cards = many(&[
        (hearts(Number::Two), 2),
        (hearts(Number::Three), 2),
        (hearts(Number::Nine), 4),
        (hearts(Number::King), 5),
    ]);
    let format = TrickFormat::from_cards(TRUMP, &cards).unwrap();
    assert_eq!(
        format.units.items(),
        &[
            tractor(2, &[hearts(Number::Two), hearts(Number::Three)]),
            repeated(4, hearts(Number::Nine)),
            repeated(5, hearts(Number::King)),
        ]
    );
    assert!(format.matches(&cards).is_ok());
}

#[test]
fn splits_with_one_tractor_are_found_again() {
    let cards = many(&[
        (hearts(Number::Two), 2),
        (hearts(Number::Three), 3),
        (hearts(Number::Five), 3),
        (hearts(Number::Nine), 1),
    ]);
    let mut tractor_first = false;
    for play in TrickUnit::find_plays(TRUMP, &cards).items() {
        let units = play.items();
        if units.iter().filter(|u| u.is_tractor()).count() <= 1 {
            let wanted: Vec<UnitLike> = units.iter().map(UnitLike::from).collect();
            assert!(UnitLike::check_play(TRUMP, &cards, &wanted).0);
            tractor_first = tractor_first || units[units.len() - 2].is_tractor();
        }
    }
    assert!(tractor_first);
}

#[test]
fn the_last_split_uses_all_copies_of_each_card() {
    let cards = many(&[(hearts(Number::Two), 3), (hearts(Number::Three), 2)]);
    let plays = TrickUnit::find_plays(TRUMP, &cards);
    assert_eq!(
        plays.items()[plays.items().len() - 1].items(),
        &[
            repeated(2, hearts(Number::Three)),
            repeated(3, hearts(Number::Two))
        ]
    );
}

#[test]
fn a_unit_leads_as_itself() {
    for unit in [
        repeated(3, hearts(Number::Two)),
        tractor(
            2,
            &[
                spades(Number::Ace),
                hearts(Number::Four),
                spades(Number::Four),
            ],
        ),
    ] {
        let format = TrickFormat::from_cards(TRUMP, unit.cards().items()).unwrap();
        assert_eq!(format.units.items(), &[unit]);
    }
}

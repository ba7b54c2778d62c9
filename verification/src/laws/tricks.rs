//! Laws of tricks: who may play, what is put down, who leads, and what is won.

use crate::format::{in_suit, lead_format, legal_play, matching, Format};
use crate::hands::{has_room, held, HandError};
use crate::laws::cards::sorting_cards;
use crate::laws::throws::{how_a_throw_is_judged, nobody_beats, withstands};
use crate::message::{Message, MessageVariant};
use crate::order::sorted_cards;
use crate::search::total_size;
use crate::throw::{is_beaten, judge_throw};
use crate::trick::{
    beats, can_play, ending, largest_size, leader, left_over, lemma_leader, lemma_left_over,
    lemma_move, move_with, play, point_cards, points_played, undo, valid, winner_of, Outcome,
    Played, PlayedCards, Trick, TrickEnded, TrickError, TrickState,
};
use crate::types::{Card, PlayerID, Trump};
use crate::unit::Unit;
use vstd::multiset::Multiset;
use vstd::prelude::*;

verus! {

broadcast use {vstd::multiset::group_multiset_axioms, vstd::seq_lib::group_to_multiset_ensures};

/// Each of `units` starts with a stronger card than the one at the same place in `best`.
pub open spec fn stronger_everywhere(t: Trump, units: Seq<Unit>, best: Seq<Unit>) -> bool {
    forall|i: int|
        0 <= i < units.len() && 0 <= i < best.len() ==> t.strength(best[i].first().card)
            < t.strength((#[trigger] units[i]).first().card)
}

/// The first play leads with the units of the format. A later one takes the lead exactly if it
/// matches the format and each of its units, the first one included, starts with a stronger card
/// than the unit at the same place in the play that leads; else the lead stays where it is.
pub proof fn who_takes_the_lead(f: Format, played: Seq<Played>, n: nat)
    requires
        0 < n < played.len(),
    ensures
        leader(f, played, 1) == (0int, f.units),
        match matching(f, played[n as int].cards) {
            Some(units) => if stronger_everywhere(f.trump, units, leader(f, played, n).1) {
                leader(f, played, n + 1) == (n as int, units)
            } else {
                leader(f, played, n + 1) == leader(f, played, n)
            },
            None => leader(f, played, n + 1) == leader(f, played, n),
        },
{
    let best = leader(f, played, n).1;
    match matching(f, played[n as int].cards) {
        Some(units) => {
            if beats(f.trump, units, best) {
                assert(stronger_everywhere(f.trump, units, best));
            }
            if stronger_everywhere(f.trump, units, best) {
                assert(beats(f.trump, units, best));
            }
        },
        None => {},
    }
}

/// A play of which one unit starts with a card no stronger than that of the unit at the same
/// place in the play that leads never takes the lead.
pub proof fn one_weak_unit_keeps_from_the_lead(
    f: Format,
    played: Seq<Played>,
    n: nat,
    units: Seq<Unit>,
    i: int,
)
    requires
        0 < n < played.len(),
        matching(f, played[n as int].cards) == Some(units),
        0 <= i < units.len(),
        i < leader(f, played, n).1.len(),
        f.trump.strength(units[i].first().card) <= f.trump.strength(
            leader(f, played, n).1[i].first().card,
        ),
    ensures
        leader(f, played, n + 1) == leader(f, played, n),
{
    who_takes_the_lead(f, played, n);
}

/// The plays that come later do not change who led before.
proof fn lemma_leader_prefix(f: Format, a: Seq<Played>, b: Seq<Played>, n: nat)
    requires
        n <= a.len(),
        n <= b.len(),
        forall|i: int| 0 <= i < n ==> #[trigger] a[i] == b[i],
    ensures
        leader(f, a, n) == leader(f, b, n),
    decreases n,
{
    if n > 1 {
        lemma_leader_prefix(f, a, b, (n - 1) as nat);
        assert(a[n - 1] == b[n - 1]);
    }
}

/// Whoever opens a trick wins it for the time being. Whoever answers wins it exactly if their
/// cards match the format and each unit starts with a stronger card than the unit at the same
/// place in the play that led so far; else the winner stays the same.
pub proof fn who_wins_after_a_play(
    s: TrickState,
    hands: Map<PlayerID, Multiset<Card>>,
    id: PlayerID,
    cards: Seq<Card>,
)
    requires
        valid(s),
        play(s, hands, id, cards) is Ok,
    ensures
        ({
            let now = play(s, hands, id, cards)->Ok_0.state;
            match s.format {
                None => now.winner == Some(id),
                Some(f) => {
                    let best = leader(f, s.played, s.played.len()).1;
                    match matching(f, now.played.last().cards) {
                        Some(units) => if stronger_everywhere(f.trump, units, best) {
                            now.winner == Some(id)
                        } else {
                            now.winner == s.winner
                        },
                        None => now.winner == s.winner,
                    }
                },
            }
        }),
{
    let now = play(s, hands, id, cards)->Ok_0.state;
    let n = s.played.len();
    assert(now.played[n as int].id == id);
    match s.format {
        None => {},
        Some(f) => {
            who_takes_the_lead(f, now.played, n);
            lemma_leader_prefix(f, s.played, now.played, n);
            lemma_leader(f, s.played, n);
            let k = leader(f, s.played, n).0;
            assert(now.played[k] == s.played[k]);
        },
    }
}

/// The winner is whoever made the play that leads.
pub proof fn the_leader_wins(format: Option<Format>, played: Seq<Played>)
    ensures
        match format {
            Some(f) => winner_of(format, played) == Some(
                played[leader(f, played, played.len()).0].id,
            ),
            None => winner_of(format, played) is None,
        },
{
}

/// A player holds cards if they have a hand with each of the cards at least as often.
pub proof fn what_it_is_to_hold(
    hands: Map<PlayerID, Multiset<Card>>,
    id: PlayerID,
    cards: Seq<Card>,
)
    ensures
        held(hands, id, cards) is Ok <==> hands.dom().contains(id) && forall|c: Card| #[trigger]
            cards.to_multiset().count(c) <= hands[id].count(c),
        held(hands, id, cards) == Err::<(), HandError>(HandError::PlayerNotFound)
            <==> !hands.dom().contains(id),
        held(hands, id, cards) == Err::<(), HandError>(HandError::CardsNotFound)
            <==> hands.dom().contains(id) && exists|c: Card| #[trigger]
            cards.to_multiset().count(c) > hands[id].count(c),
{
    let m = cards.to_multiset();
    if hands.dom().contains(id) {
        if m.subset_of(hands[id]) {
            assert forall|c: Card| #[trigger] m.count(c) <= hands[id].count(c) by {}
        } else if forall|c: Card| #[trigger] m.count(c) <= hands[id].count(c) {
            assert(m.subset_of(hands[id]));
        } else {
            let c = choose|c: Card| #[trigger] m.count(c) > hands[id].count(c);
            assert(m.count(c) > hands[id].count(c));
        }
    }
}

/// There is room for cards where no count grows beyond a machine integer.
pub proof fn what_room_is(m: Multiset<Card>, cards: Seq<Card>)
    ensures
        has_room(m, cards) <==> forall|c: Card| #[trigger]
            m.add(cards.to_multiset()).count(c) <= usize::MAX,
{
    let more = cards.to_multiset();
    if has_room(m, cards) {
        assert forall|c: Card| #[trigger] m.add(more).count(c) <= usize::MAX by {
            assert(m.count(c) + more.count(c) <= usize::MAX);
        }
    }
    if forall|c: Card| #[trigger] m.add(more).count(c) <= usize::MAX {
        assert forall|c: Card| #[trigger] m.count(c) + more.count(c) <= usize::MAX by {
            assert(m.add(more).count(c) <= usize::MAX);
        }
    }
}

/// Cards may be played exactly by the next player, who must hold them. A first play has cards of
/// one suit; any other is a legal answer to it.
pub proof fn who_may_play(
    s: TrickState,
    hands: Map<PlayerID, Multiset<Card>>,
    id: PlayerID,
    cards: Seq<Card>,
)
    ensures
        can_play(s, hands, id, cards) is Ok <==> {
            &&& hands.dom().contains(id)
            &&& forall|c: Card| #[trigger] cards.to_multiset().count(c) <= hands[id].count(c)
            &&& s.queue.len() > 0
            &&& s.queue[0] == id
            &&& match s.format {
                Some(f) => legal_play(f, hands[id], cards),
                None => cards.len() > 0 && forall|i: int, j: int|
                    0 <= i < cards.len() && 0 <= j < cards.len() ==> s.trump.suit_of(
                        #[trigger] cards[i],
                    ) == s.trump.suit_of(#[trigger] cards[j]),
            }
        },
        match can_play(s, hands, id, cards) {
            Ok(()) => true,
            Err(TrickError::HandError { source }) => held(hands, id, cards) == Err::<
                (),
                HandError,
            >(source),
            Err(TrickError::OutOfOrder) => held(hands, id, cards) is Ok && (s.queue.len() == 0
                || s.queue[0] != id),
            Err(TrickError::IllegalPlay) => held(hands, id, cards) is Ok && s.queue.len() > 0
                && s.queue[0] == id && s.format is Some,
            Err(TrickError::WrongNumberOfSuits) => held(hands, id, cards) is Ok && s.queue.len()
                > 0 && s.queue[0] == id && s.format is None,
            Err(_) => false,
        },
{
    what_it_is_to_hold(hands, id, cards);
}

/// `cards` go from low to high.
pub open spec fn from_low_to_high(t: Trump, cards: Seq<Card>) -> bool {
    forall|i: int, j: int|
        0 <= i < j < cards.len() ==> t.rank(#[trigger] cards[i]) <= t.rank(#[trigger] cards[j])
}

proof fn lemma_left_over_in_order(t: Trump, cards: Seq<Card>, taken: Seq<Card>)
    requires
        from_low_to_high(t, cards),
    ensures
        from_low_to_high(t, left_over(cards, taken)),
    decreases taken.len(),
{
    if taken.len() > 0 {
        let rest = left_over(cards, taken.drop_last());
        lemma_left_over_in_order(t, cards, taken.drop_last());
        rest.index_of_first_ensures(taken.last());
        if let Some(at) = rest.index_of_first(taken.last()) {
            let now = rest.remove(at);
            assert forall|i: int, j: int| 0 <= i < j < now.len() implies t.rank(
                #[trigger] now[i],
            ) <= t.rank(#[trigger] now[j]) by {
                let a = if i < at {
                    i
                } else {
                    i + 1
                };
                let b = if j < at {
                    j
                } else {
                    j + 1
                };
                assert(now[i] == rest[a] && now[j] == rest[b]);
            }
        }
    }
}

/// What is left over when cards are taken out: the others, in the order in which they were.
pub proof fn what_is_left_over(t: Trump, cards: Seq<Card>, taken: Seq<Card>)
    requires
        forall|c: Card| #[trigger] taken.to_multiset().count(c) <= cards.to_multiset().count(c),
    ensures
        forall|c: Card|
            #[trigger] left_over(cards, taken).to_multiset().count(c) == cards.to_multiset().count(
                c,
            ) - taken.to_multiset().count(c),
        from_low_to_high(t, cards) ==> from_low_to_high(t, left_over(cards, taken)),
{
    assert(taken.to_multiset().subset_of(cards.to_multiset()));
    lemma_left_over(cards, taken);
    if from_low_to_high(t, cards) {
        lemma_left_over_in_order(t, cards, taken);
    }
}

/// An answer puts down all the cards, from low to high, and tells the others so. The format stays.
pub proof fn what_an_answer_does(
    s: TrickState,
    hands: Map<PlayerID, Multiset<Card>>,
    id: PlayerID,
    cards: Seq<Card>,
)
    requires
        s.format is Some,
    ensures
        play(s, hands, id, cards) is Ok <==> can_play(s, hands, id, cards) is Ok,
        play(s, hands, id, cards) matches Ok(now) ==> {
            let put = now.state.played.last();
            &&& now.state.format == s.format
            &&& put.cards.to_multiset() == cards.to_multiset()
            &&& from_low_to_high(s.trump, put.cards)
            &&& put.bad_throw_cards.len() == 0
            &&& put.better_player is None
            &&& now.messages == seq![Message::PlayedCards { cards: put.cards }]
        },
{
    sorting_cards(s.trump, cards);
}

/// A first play of one unit stands. So does one of several units that none of the others can
/// beat: it puts down all the cards, from low to high, and tells the others so. Its format is that
/// of the cards.
pub proof fn what_a_lead_that_stands_does(
    s: TrickState,
    hands: Map<PlayerID, Multiset<Card>>,
    id: PlayerID,
    cards: Seq<Card>,
)
    requires
        s.format is None,
        can_play(s, hands, id, cards) is Ok,
        ({
            let f = lead_format(s.trump, sorted_cards(s.trump, cards));
            f.units.len() <= 1 || nobody_beats(f, hands, s.queue.skip(1))
        }),
    ensures
        play(s, hands, id, cards) is Ok,
        ({
            let now = play(s, hands, id, cards)->Ok_0;
            let put = now.state.played.last();
            &&& now.state.format == Some(lead_format(s.trump, sorted_cards(s.trump, cards)))
            &&& put.cards.to_multiset() == cards.to_multiset()
            &&& from_low_to_high(s.trump, put.cards)
            &&& put.bad_throw_cards.len() == 0
            &&& put.better_player is None
            &&& now.messages == seq![Message::PlayedCards { cards: put.cards }]
        }),
{
    let f = lead_format(s.trump, sorted_cards(s.trump, cards));
    let others = s.queue.skip(1);
    sorting_cards(s.trump, cards);
    if f.units.len() > 1 {
        how_a_throw_is_judged(f, hands, others);
        match judge_throw(f, hands, others) {
            Ok(None) => {},
            Ok(Some((p, u))) => {
                let (i, k) = choose|i: int, k: int|
                    {
                        &&& 0 <= i < others.len()
                        &&& #[trigger] others[i] == p
                        &&& nobody_beats(f, hands, others.take(i))
                        &&& hands.dom().contains(p)
                        &&& 0 <= k < f.units.len()
                        &&& #[trigger] f.units[k] == u
                        &&& is_beaten(f.trump, in_suit(f.trump, f.suit, hands[p]), u)
                        &&& withstands(
                            f.trump,
                            in_suit(f.trump, f.suit, hands[p]),
                            f.units.take(k),
                        )
                    };
                assert(withstands(
                    f.trump,
                    in_suit(f.trump, f.suit, hands[others[i]]),
                    f.units,
                ));
                assert(!is_beaten(
                    f.trump,
                    in_suit(f.trump, f.suit, hands[others[i]]),
                    f.units[k],
                ));
            },
            Err(_) => {
                let i = choose|i: int|
                    {
                        &&& 0 <= i < others.len()
                        &&& !hands.dom().contains(#[trigger] others[i])
                        &&& nobody_beats(f, hands, others.take(i))
                    };
                assert(hands.dom().contains(others[i]));
            },
        }
    }
}

/// A first play of several units, of which the first of the others to beat any, `players[i]`,
/// beats the unit `k` and none before it, puts down that unit alone. The rest stays in the hand,
/// from low to high, and the others are told of the failure and of what was put down.
pub proof fn what_a_failed_throw_does(
    s: TrickState,
    hands: Map<PlayerID, Multiset<Card>>,
    id: PlayerID,
    cards: Seq<Card>,
    i: int,
    k: int,
)
    requires
        valid(s),
        s.format is None,
        can_play(s, hands, id, cards) is Ok,
        0 < i < s.queue.len(),
        ({
            let f = lead_format(s.trump, sorted_cards(s.trump, cards));
            let held = in_suit(f.trump, f.suit, hands[s.queue[i]]);
            &&& f.units.len() > 1
            &&& 0 <= k < f.units.len()
            &&& nobody_beats(f, hands, s.queue.skip(1).take(i - 1))
            &&& hands.dom().contains(s.queue[i])
            &&& is_beaten(f.trump, held, f.units[k])
            &&& withstands(f.trump, held, f.units.take(k))
        }),
    ensures
        play(s, hands, id, cards) is Ok,
        ({
            let f = lead_format(s.trump, sorted_cards(s.trump, cards));
            let now = play(s, hands, id, cards)->Ok_0;
            let put = now.state.played.last();
            &&& now.state.format == Some(
                Format { suit: f.suit, trump: f.trump, units: seq![f.units[k]] },
            )
            &&& put.cards == f.units[k].cards()
            &&& put.cards.to_multiset().add(put.bad_throw_cards.to_multiset())
                == cards.to_multiset()
            &&& from_low_to_high(s.trump, put.bad_throw_cards)
            &&& put.better_player == Some(s.queue[i])
            &&& now.messages == seq![
                Message::ThrowFailed {
                    original_cards: sorted_cards(s.trump, cards),
                    better_player: s.queue[i],
                },
                Message::PlayedCards { cards: put.cards },
            ]
        }),
{
    let sorted = sorted_cards(s.trump, cards);
    let f = lead_format(s.trump, sorted);
    let others = s.queue.skip(1);
    sorting_cards(s.trump, cards);
    lemma_judged(f, hands, others, i - 1, k);
    assert(others[i - 1] == s.queue[i]);
    let m = move_with(s, hands, cards)->Ok_0;
    lemma_move(s, hands, id, cards, m);
    lemma_left_over_in_order(s.trump, sorted, f.units[k].cards());
}

proof fn lemma_judged(
    f: Format,
    hands: Map<PlayerID, Multiset<Card>>,
    players: Seq<PlayerID>,
    i: int,
    k: int,
)
    requires
        0 <= i < players.len(),
        0 <= k < f.units.len(),
        nobody_beats(f, hands, players.take(i)),
        hands.dom().contains(players[i]),
        is_beaten(f.trump, in_suit(f.trump, f.suit, hands[players[i]]), f.units[k]),
        withstands(f.trump, in_suit(f.trump, f.suit, hands[players[i]]), f.units.take(k)),
    ensures
        judge_throw(f, hands, players) == Ok::<Option<(PlayerID, Unit)>, HandError>(
            Some((players[i], f.units[k])),
        ),
    decreases players.len(),
{
    let held = in_suit(f.trump, f.suit, hands[players[0]]);
    if i == 0 {
        lemma_first_beaten(f.trump, held, f.units, k);
    } else {
        let before = players.take(i);
        assert(before[0] == players[0]);
        assert(withstands(f.trump, held, f.units));
        lemma_none_beaten(f.trump, held, f.units);
        let rest = players.skip(1);
        assert forall|j: int| 0 <= j < rest.take(i - 1).len() implies hands.dom().contains(
            #[trigger] rest.take(i - 1)[j],
        ) && withstands(
            f.trump,
            in_suit(f.trump, f.suit, hands[rest.take(i - 1)[j]]),
            f.units,
        ) by {
            assert(before[j + 1] == rest.take(i - 1)[j]);
        }
        assert(rest[i - 1] == players[i]);
        lemma_judged(f, hands, rest, i - 1, k);
    }
}

proof fn lemma_first_beaten(t: Trump, held: Multiset<Card>, units: Seq<Unit>, k: int)
    requires
        0 <= k < units.len(),
        is_beaten(t, held, units[k]),
        withstands(t, held, units.take(k)),
    ensures
        crate::throw::beaten_unit(t, held, units) == Some(units[k]),
    decreases units.len(),
{
    if k > 0 {
        let before = units.take(k);
        assert(before[0] == units[0]);
        let rest = units.skip(1);
        assert forall|j: int| 0 <= j < rest.take(k - 1).len() implies !is_beaten(
            t,
            held,
            #[trigger] rest.take(k - 1)[j],
        ) by {
            assert(before[j + 1] == rest.take(k - 1)[j]);
        }
        assert(rest[k - 1] == units[k]);
        lemma_first_beaten(t, held, rest, k - 1);
    }
}

proof fn lemma_none_beaten(t: Trump, held: Multiset<Card>, units: Seq<Unit>)
    requires
        withstands(t, held, units),
    ensures
        crate::throw::beaten_unit(t, held, units) is None,
    decreases units.len(),
{
    if units.len() > 0 {
        assert(!is_beaten(t, held, units[0]));
        let rest = units.skip(1);
        assert forall|j: int| 0 <= j < rest.len() implies !is_beaten(
            t,
            held,
            #[trigger] rest[j],
        ) by {
            assert(rest[j] == units[j + 1]);
        }
        lemma_none_beaten(t, held, rest);
    }
}

/// A play that may be made is refused only if it is a first play of several units and someone
/// without a hand is asked before anyone can beat a unit.
pub proof fn when_an_allowed_play_is_refused(
    s: TrickState,
    hands: Map<PlayerID, Multiset<Card>>,
    id: PlayerID,
    cards: Seq<Card>,
)
    requires
        can_play(s, hands, id, cards) is Ok,
        play(s, hands, id, cards) is Err,
    ensures
        play(s, hands, id, cards) == Err::<Outcome, TrickError>(
            TrickError::HandError { source: HandError::PlayerNotFound },
        ),
        s.format is None,
        ({
            let f = lead_format(s.trump, sorted_cards(s.trump, cards));
            let others = s.queue.skip(1);
            &&& f.units.len() > 1
            &&& exists|i: int|
                {
                    &&& 0 <= i < others.len()
                    &&& !hands.dom().contains(#[trigger] others[i])
                    &&& nobody_beats(f, hands, others.take(i))
                }
        }),
{
    let f = lead_format(s.trump, sorted_cards(s.trump, cards));
    how_a_throw_is_judged(f, hands, s.queue.skip(1));
}

/// A play that may not be made is refused for that reason.
pub proof fn when_a_play_is_not_allowed(
    s: TrickState,
    hands: Map<PlayerID, Multiset<Card>>,
    id: PlayerID,
    cards: Seq<Card>,
    e: TrickError,
)
    requires
        can_play(s, hands, id, cards) == Err::<(), TrickError>(e),
    ensures
        play(s, hands, id, cards) == Err::<Outcome, TrickError>(e),
{
}

/// A play moves on to the next player, and takes from the hand of the player what is put down.
pub proof fn how_a_play_moves_on(
    s: TrickState,
    hands: Map<PlayerID, Multiset<Card>>,
    id: PlayerID,
    cards: Seq<Card>,
)
    requires
        valid(s),
        play(s, hands, id, cards) is Ok,
    ensures
        ({
            let now = play(s, hands, id, cards)->Ok_0;
            let put = now.state.played.last();
            &&& s.queue == seq![id] + now.state.queue
            &&& now.state.played == s.played.push(put)
            &&& put.id == id
            &&& now.state.trump == s.trump
            &&& now.hands.dom() == hands.dom()
            &&& forall|p: PlayerID| p != id ==> #[trigger] now.hands[p] == hands[p]
            &&& forall|c: Card|
                #[trigger] now.hands[id].count(c) == hands[id].count(c)
                    - put.cards.to_multiset().count(c)
        }),
{
    let m = move_with(s, hands, cards)->Ok_0;
    lemma_move(s, hands, id, cards, m);
    let now = play(s, hands, id, cards)->Ok_0;
    assert(s.queue =~= seq![id] + now.state.queue);
    assert(now.hands.dom() =~= hands.dom());
    let put = m.cards.to_multiset();
    assert forall|c: Card| #[trigger] now.hands[id].count(c) == hands[id].count(c) - put.count(
        c,
    ) by {
        assert(put.count(c) <= hands[id].count(c));
    }
}

/// Only whoever played last can take back. It returns their cards, makes them the next player
/// and forgets the play; with the last play gone, the format is gone too. The winner is whoever
/// leads then.
pub proof fn what_taking_back_does(
    s: TrickState,
    hands: Map<PlayerID, Multiset<Card>>,
    id: PlayerID,
)
    ensures
        undo(s, hands, id) is Ok <==> s.played.len() > 0 && s.played[s.played.len() - 1].id == id,
        match undo(s, hands, id) {
            Err(e) => e == TrickError::OutOfOrder,
            Ok((now, back)) => {
                let taken = s.played[s.played.len() - 1];
                &&& s.played == now.played.push(taken)
                &&& now.queue == seq![id] + s.queue
                &&& now.trump == s.trump
                &&& s.played.len() == 1 ==> now.format is None && now.winner is None
                &&& s.played.len() > 1 ==> now.format == s.format
                &&& s.played.len() > 1 && s.format is Some ==> now.winner == Some(
                    s.played[leader(
                        s.format->Some_0,
                        s.played,
                        (s.played.len() - 1) as nat,
                    ).0].id,
                )
                &&& back == hands.insert(id, hands[id].add(taken.cards.to_multiset()))
            },
        },
{
    if s.played.len() > 0 && s.played.last().id == id {
        let rest = s.played.drop_last();
        assert(s.played =~= rest.push(s.played.last()));
        if s.format is Some && s.played.len() > 1 {
            let f = s.format->Some_0;
            lemma_leader_prefix(f, s.played, rest, rest.len());
            let k = leader(f, rest, rest.len()).0;
            lemma_leader_range(f, rest, rest.len());
            assert(rest[k] == s.played[k]);
        }
    }
}

proof fn lemma_leader_range(f: Format, played: Seq<Played>, n: nat)
    requires
        0 < n <= played.len(),
    ensures
        0 <= leader(f, played, n).0 < n,
    decreases n,
{
    if n > 1 {
        lemma_leader_range(f, played, (n - 1) as nat);
    }
}

/// How often `c` was put down.
pub open spec fn times_put_down(played: Seq<Played>, c: Card) -> nat
    decreases played.len(),
{
    if played.len() == 0 {
        0
    } else {
        times_put_down(played.drop_last(), c) + played.last().cards.to_multiset().count(c)
    }
}

proof fn lemma_point_cards(cards: Seq<Card>, c: Card)
    ensures
        point_cards(cards).to_multiset().count(c) == if c.worth() is Some {
            cards.to_multiset().count(c)
        } else {
            0
        },
    decreases cards.len(),
{
    reveal(Seq::filter);
    let pays = |x: Card| x.worth() is Some;
    assert(point_cards(cards) == cards.filter(pays));
    if cards.len() == 0 {
        assert(point_cards(cards) =~= seq![]);
    } else {
        let rest = cards.drop_last();
        let last = cards.last();
        lemma_point_cards(rest, c);
        assert(cards =~= rest.push(last));
        assert(point_cards(rest) == rest.filter(pays));
    }
}

/// A completed trick is won by the winner so far, and its points hold every card that scores
/// exactly as often as it was put down, and no other card.
pub proof fn which_points_are_won(s: TrickState, c: Card)
    requires
        ending(s) is Ok,
    ensures
        ending(s)->Ok_0.points.to_multiset().count(c) == if c.worth() is Some {
            times_put_down(s.played, c)
        } else {
            0
        },
        Some(ending(s)->Ok_0.winner) == s.winner,
{
    lemma_points_played(s.played, c);
}

proof fn lemma_points_played(played: Seq<Played>, c: Card)
    ensures
        points_played(played).to_multiset().count(c) == if c.worth() is Some {
            times_put_down(played, c)
        } else {
            0
        },
    decreases played.len(),
{
    if played.len() == 0 {
        assert(points_played(played) =~= seq![]);
    } else {
        lemma_points_played(played.drop_last(), c);
        lemma_point_cards(played.last().cards, c);
        vstd::seq_lib::lemma_multiset_commutative(
            points_played(played.drop_last()),
            point_cards(played.last().cards),
        );
    }
}

/// The points are listed play by play, and within a play in the order of its cards.
pub proof fn the_order_of_points(
    a: Seq<Played>,
    b: Seq<Played>,
    x: Seq<Card>,
    y: Seq<Card>,
    p: Played,
    c: Card,
)
    ensures
        points_played(a + b) == points_played(a) + points_played(b),
        points_played(seq![p]) == point_cards(p.cards),
        point_cards(x + y) == point_cards(x) + point_cards(y),
        point_cards(seq![c]) == if c.worth() is Some {
            seq![c]
        } else {
            seq![]
        },
    decreases b.len(), y.len(),
{
    reveal(Seq::filter);
    reveal_with_fuel(points_played, 2);
    let pays = |z: Card| z.worth() is Some;
    assert(seq![p].drop_last() =~= seq![]);
    assert(points_played(seq![p]) =~= point_cards(p.cards));
    assert(seq![c].drop_last() =~= seq![]);
    assert(seq![c].drop_last().filter(pays) =~= seq![]);
    assert(point_cards(seq![c]) =~= if c.worth() is Some {
        seq![c]
    } else {
        seq![]
    });
    if y.len() == 0 {
        assert(x + y =~= x);
        assert(point_cards(y) =~= seq![]);
        assert(point_cards(x) + point_cards(y) =~= point_cards(x));
    } else {
        the_order_of_points(seq![], seq![], x, y.drop_last(), p, c);
        assert((x + y).drop_last() =~= x + y.drop_last());
        assert((x + y).last() == y.last());
        assert(point_cards(x + y) =~= point_cards(x) + point_cards(y));
    }
    if b.len() == 0 {
        assert(a + b =~= a);
        assert(points_played(a) + points_played(b) =~= points_played(a));
    } else {
        the_order_of_points(a, b.drop_last(), seq![], seq![], p, c);
        assert((a + b).drop_last() =~= a + b.drop_last());
        assert((a + b).last() == b.last());
        assert(points_played(a + b) =~= points_played(a) + points_played(b));
    }
}

/// The largest size is that of some unit, and no unit is larger.
pub proof fn which_size_is_largest(units: Seq<Unit>)
    ensures
        forall|i: int| 0 <= i < units.len() ==> (#[trigger] units[i]).size() <= largest_size(units),
        units.len() > 0 ==> exists|i: int|
            0 <= i < units.len() && (#[trigger] units[i]).size() == largest_size(units),
        units.len() == 0 ==> largest_size(units) == 0,
    decreases units.len(),
{
    if units.len() > 0 {
        let rest = units.drop_last();
        let end = units.len() - 1;
        which_size_is_largest(rest);
        assert forall|i: int| 0 <= i < units.len() implies (#[trigger] units[i]).size()
            <= largest_size(units) by {
            if i < end {
                assert(rest[i] == units[i]);
            }
        }
        if largest_size(rest) > units[end].size() {
            let i = choose|i: int|
                0 <= i < rest.len() && (#[trigger] rest[i]).size() == largest_size(rest);
            assert(units[i] == rest[i]);
        } else {
            assert(units[end].size() == largest_size(units));
        }
    }
}

/// A trick is completed once everyone has played, and refused as out of order before. What is
/// reported is the winner, the points, the largest unit that was asked for, and how many cards
/// of the first play were held back.
pub proof fn what_completing_reports(s: TrickState)
    requires
        valid(s),
    ensures
        ending(s) is Ok <==> s.queue.len() == 0 && s.played.len() > 0,
        match ending(s) {
            Err(e) => e == TrickError::OutOfOrder,
            Ok(ended) => {
                let units = s.format->Some_0.units;
                &&& s.format is Some
                &&& s.winner == Some(ended.winner)
                &&& ended.failed_throw_size == s.played[0].bad_throw_cards.len()
                &&& forall|i: int|
                    0 <= i < units.len() ==> (#[trigger] units[i]).size()
                        <= ended.largest_trick_unit_size
                &&& exists|i: int|
                    0 <= i < units.len() && (#[trigger] units[i]).size()
                        == ended.largest_trick_unit_size
            },
        },
{
    if s.format is Some {
        let units = s.format->Some_0.units;
        which_size_is_largest(units);
        assert(units.len() > 0);
    }
}

/// The states that a trick can be in: nothing was played, there is no format and nobody wins; or
/// there is a format under the trick's trump that asks for cards, everyone put down as many as it
/// asks for, and whoever leads wins.
pub proof fn what_a_valid_trick_is(s: TrickState)
    ensures
        valid(s) <==> match s.format {
            None => s.played.len() == 0 && s.winner is None,
            Some(f) => {
                &&& s.played.len() > 0
                &&& f.trump == s.trump
                &&& total_size(f.units) > 0
                &&& forall|i: int|
                    0 <= i < f.units.len() ==> (#[trigger] f.units[i]).members().len() > 0
                &&& forall|i: int|
                    0 <= i < s.played.len() ==> (#[trigger] s.played[i]).cards.len()
                        == total_size(f.units)
                &&& s.winner == Some(s.played[leader(f, s.played, s.played.len()).0].id)
            },
        },
{
}

/// A trick, a play, an outcome and a message stand for what they hold.
pub proof fn what_tricks_stand_for(
    trick: Trick,
    played: PlayedCards,
    ended: TrickEnded,
    message: MessageVariant,
)
    ensures
        trick@.queue == trick.player_queue@,
        trick@.played.len() == trick.played_cards@.len(),
        forall|i: int|
            0 <= i < trick.played_cards@.len() ==> #[trigger] trick@.played[i]
                == trick.played_cards@[i]@,
        trick@.winner == trick.current_winner,
        trick@.trump == trick.trump,
        match trick.trick_format {
            Some(f) => trick@.format == Some(f@),
            None => trick@.format is None,
        },
        played@.id == played.id,
        played@.cards == played.cards@,
        played@.bad_throw_cards == played.bad_throw_cards@,
        played@.better_player == played.better_player,
        ended@.winner == ended.winner,
        ended@.points == ended.points@,
        ended@.largest_trick_unit_size == ended.largest_trick_unit_size,
        ended@.failed_throw_size == ended.failed_throw_size,
        match message {
            MessageVariant::ThrowFailed { original_cards, better_player } => message@
                == (Message::ThrowFailed { original_cards: original_cards@, better_player }),
            MessageVariant::PlayedCards { cards } => message@ == (Message::PlayedCards {
                cards: cards@,
            }),
        },
{
}

} // verus!

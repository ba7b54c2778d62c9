//! Throws: first plays of several units, which stand only if nobody can beat one of them.

use crate::counts::{ascending, lemma_ascending, SortedCounts};
use crate::format::{hand_in_suit, in_suit, Format, TrickFormat};
use crate::hands::{HandError, Hands};
use crate::small::Units;
use crate::tractor::{find_tractors_from_start, tractors_from};
use crate::types::{Card, PlayerID, Trump};
use crate::unit::{OrderedCard, TrickUnit, Unit};
use vstd::multiset::Multiset;
use vstd::prelude::*;

verus! {

broadcast use {vstd::multiset::group_multiset_axioms, vstd::seq_lib::group_to_multiset_ensures};

/// Whether someone who holds the cards `held` in the suit can beat `u`: with as many copies of a
/// higher card, or with a tractor as wide and as long that starts no lower than the second
/// member.
pub open spec fn is_beaten(t: Trump, held: Multiset<Card>, u: Unit) -> bool {
    match u {
        Unit::Repeated { count, card } => exists|c: Card|
            #[trigger] held.count(c) > 0 && held.count(c) >= count && t.rank(c) > t.rank(card.card),
        Unit::Tractor { count, members } => exists|c: Card|
            #[trigger] held.count(c) > 0 && t.rank(c) >= t.rank(members[1].card) && tractors_from(
                held,
                OrderedCard { card: c, trump: t },
                held.count(c),
                count,
                members.len(),
            ).len() > 0,
    }
}

/// The first of `units` that is beaten.
pub open spec fn beaten_unit(t: Trump, held: Multiset<Card>, units: Seq<Unit>) -> Option<Unit>
    decreases units.len(),
{
    if units.len() == 0 {
        None
    } else if is_beaten(t, held, units[0]) {
        Some(units[0])
    } else {
        beaten_unit(t, held, units.skip(1))
    }
}

/// The first of `players` who can beat a unit of the throw, with the first unit that they can
/// beat. Each of the players asked must have a hand.
pub open spec fn judge_throw(
    f: Format,
    hands: Map<PlayerID, Multiset<Card>>,
    players: Seq<PlayerID>,
) -> Result<Option<(PlayerID, Unit)>, HandError>
    decreases players.len(),
{
    if players.len() == 0 {
        Ok(None)
    } else if !hands.dom().contains(players[0]) {
        Err(HandError::PlayerNotFound)
    } else {
        match beaten_unit(f.trump, in_suit(f.trump, f.suit, hands[players[0]]), f.units) {
            Some(u) => Ok(Some((players[0], u))),
            None => judge_throw(f, hands, players.skip(1)),
        }
    }
}

/// A beaten unit is one of the units.
pub proof fn lemma_beaten_unit(t: Trump, held: Multiset<Card>, units: Seq<Unit>)
    ensures
        match beaten_unit(t, held, units) {
            Some(u) => units.contains(u) && is_beaten(t, held, u),
            None => forall|i: int|
                0 <= i < units.len() ==> !is_beaten(t, held, #[trigger] units[i]),
        },
    decreases units.len(),
{
    if units.len() > 0 {
        if is_beaten(t, held, units[0]) {
            assert(units.contains(units[0]));
        } else {
            let rest = units.skip(1);
            lemma_beaten_unit(t, held, rest);
            match beaten_unit(t, held, rest) {
                Some(u) => {
                    assert(units[rest.index_of(u) + 1] == u);
                },
                None => {
                    assert forall|i: int| 0 <= i < units.len() implies !is_beaten(
                        t,
                        held,
                        #[trigger] units[i],
                    ) by {
                        if i > 0 {
                            assert(rest[i - 1] == units[i]);
                        }
                    }
                },
            }
        }
    }
}

/// A unit that makes a throw fail is one of its units.
pub proof fn lemma_judged_unit(
    f: Format,
    hands: Map<PlayerID, Multiset<Card>>,
    players: Seq<PlayerID>,
)
    ensures
        match judge_throw(f, hands, players) {
            Ok(Some((_, u))) => f.units.contains(u),
            _ => true,
        },
    decreases players.len(),
{
    if players.len() > 0 {
        lemma_beaten_unit(f.trump, in_suit(f.trump, f.suit, hands[players[0]]), f.units);
        lemma_judged_unit(f, hands, players.skip(1));
    }
}

/// A throw fails exactly if one of the players can beat one of its units, provided that all of
/// them have hands; the player named can beat the unit named.
pub proof fn throw_fails_if_beaten(
    f: Format,
    hands: Map<PlayerID, Multiset<Card>>,
    players: Seq<PlayerID>,
)
    requires
        forall|i: int| 0 <= i < players.len() ==> hands.dom().contains(#[trigger] players[i]),
    ensures
        match judge_throw(f, hands, players) {
            Ok(Some((p, u))) => players.contains(p) && f.units.contains(u) && is_beaten(
                f.trump,
                in_suit(f.trump, f.suit, hands[p]),
                u,
            ),
            Ok(None) => forall|i: int, j: int|
                0 <= i < players.len() && 0 <= j < f.units.len() ==> !is_beaten(
                    f.trump,
                    in_suit(f.trump, f.suit, hands[#[trigger] players[i]]),
                    #[trigger] f.units[j],
                ),
            Err(_) => false,
        },
    decreases players.len(),
{
    if players.len() > 0 {
        let p = players[0];
        let held = in_suit(f.trump, f.suit, hands[p]);
        assert(hands.dom().contains(p));
        lemma_beaten_unit(f.trump, held, f.units);
        let rest = players.skip(1);
        assert forall|i: int| 0 <= i < rest.len() implies hands.dom().contains(
            #[trigger] rest[i],
        ) by {
            assert(rest[i] == players[i + 1]);
        }
        throw_fails_if_beaten(f, hands, rest);
        match beaten_unit(f.trump, held, f.units) {
            Some(_) => {
                assert(players.contains(p));
            },
            None => match judge_throw(f, hands, rest) {
                Ok(Some((q, _))) => {
                    assert(players[rest.index_of(q) + 1] == q);
                },
                Ok(None) => {
                    assert forall|i: int, j: int|
                        0 <= i < players.len() && 0 <= j < f.units.len() implies !is_beaten(
                        f.trump,
                        in_suit(f.trump, f.suit, hands[#[trigger] players[i]]),
                        #[trigger] f.units[j],
                    ) by {
                        if i > 0 {
                            assert(rest[i - 1] == players[i]);
                        }
                    }
                },
                Err(_) => {},
            },
        }
    }
}

/// Whether someone who holds `held` can beat `unit`.
fn can_beat(held: &SortedCounts, unit: &TrickUnit) -> (r: bool)
    requires
        held.wf(),
        unit@ is Tractor ==> unit@.members().len() >= 2,
    ensures
        r == is_beaten(held.order(), held@, unit@),
{
    let entries = held.entries();
    let trump = held.trump();
    let ghost m = held@;
    let ghost cards = ascending(trump, m);
    proof {
        lemma_ascending(trump, m);
        assert(cards.len() == entries@.len());
        assert forall|i: int| 0 <= i < entries@.len() implies cards[i] == (
        #[trigger] entries@[i]).0 by {}
    }
    match unit {
        TrickUnit::Repeated { count, card } => {
            for i in 0..entries.len()
                invariant
                    m == held@,
                    unit@ == (Unit::Repeated { count: *count as nat, card: *card }),
                    trump == held.order(),
                    cards.len() == entries@.len(),
                    forall|i: int|
                        0 <= i < entries@.len() ==> m.count((#[trigger] entries@[i]).0)
                            == entries@[i].1 && cards[i] == entries@[i].0 && entries@[i].1 > 0,
                    forall|j: int|
                        0 <= j < i ==> !(m.count(#[trigger] cards[j]) >= *count && trump.rank(
                            cards[j],
                        ) > trump.rank(card.card)),
            {
                assert(cards[i as int] == entries@[i as int].0);
                if entries[i].1 >= *count && trump.before(card.card, entries[i].0) {
                    return true;
                }
            }
            proof {
                assert forall|c: Card| #[trigger]
                    m.count(c) > 0 && m.count(c) >= *count implies !(trump.rank(c) > trump.rank(
                    card.card,
                )) by {
                    assert(cards.contains(c));
                    let j = cards.index_of(c);
                    assert(cards[j] == c);
                }
            }
            false
        },
        TrickUnit::Tractor { count, members } => {
            let run = members.as_slice();
            let lowest = run[1].card;
            let length = run.len();
            for i in 0..entries.len()
                invariant
                    m == held@,
                    held.wf(),
                    length == run@.len(),
                    run@ == members@,
                    length >= 2,
                    lowest == run@[1].card,
                    unit@ == (Unit::Tractor { count: *count as nat, members: members@ }),
                    trump == held.order(),
                    cards.len() == entries@.len(),
                    forall|i: int|
                        0 <= i < entries@.len() ==> m.count((#[trigger] entries@[i]).0)
                            == entries@[i].1 && cards[i] == entries@[i].0 && entries@[i].1 > 0,
                    forall|j: int|
                        0 <= j < i ==> !(trump.rank(#[trigger] cards[j]) >= trump.rank(lowest)
                            && tractors_from(
                            m,
                            OrderedCard { card: cards[j], trump },
                            m.count(cards[j]),
                            *count as nat,
                            length as nat,
                        ).len() > 0),
            {
                assert(cards[i as int] == entries@[i as int].0);
                let (c, ct) = entries[i];
                if !trump.before(c, lowest) {
                    let higher_tractors = find_tractors_from_start(
                        OrderedCard { card: c, trump },
                        ct,
                        held,
                        *count,
                        length,
                    );
                    assert(higher_tractors.model().len() == higher_tractors@.len());
                    if higher_tractors.as_slice().len() > 0 {
                        assert(m.count(c) > 0);
                        return true;
                    }
                }
            }
            proof {
                assert forall|c: Card| #[trigger]
                    m.count(c) > 0 && trump.rank(c) >= trump.rank(lowest) implies !(tractors_from(
                    m,
                    OrderedCard { card: c, trump },
                    m.count(c),
                    *count as nat,
                    length as nat,
                ).len() > 0) by {
                    assert(cards.contains(c));
                    let j = cards.index_of(c);
                    assert(cards[j] == c);
                }
            }
            false
        },
    }
}

/// The index of the first of `units` that is beaten.
fn find_beaten(held: &SortedCounts, units: &Units) -> (r: Option<usize>)
    requires
        held.wf(),
        forall|i: int|
            0 <= i < units.model().len() ==> ((#[trigger] units.model()[i]) is Tractor
                ==> units.model()[i].members().len() >= 2),
    ensures
        match r {
            Some(k) => k < units@.len() && beaten_unit(held.order(), held@, units.model()) == Some(
                units.model()[k as int],
            ),
            None => beaten_unit(held.order(), held@, units.model()) is None,
        },
{
    let list = units.as_slice();
    let ghost model = units.model();
    let ghost t = held.order();
    let ghost m = held@;
    assert(model.skip(0) =~= model);
    for i in 0..list.len()
        invariant
            held.wf(),
            t == held.order(),
            m == held@,
            list@ == units@,
            model == units.model(),
            forall|i: int|
                0 <= i < model.len() ==> ((#[trigger] model[i]) is Tractor
                    ==> model[i].members().len() >= 2),
            beaten_unit(t, m, model) == beaten_unit(t, m, model.skip(i as int)),
    {
        assert(model[i as int] == list@[i as int]@);
        assert(model.skip(i as int)[0] == model[i as int]);
        assert(model.skip(i as int).skip(1) =~= model.skip(i + 1));
        if can_beat(held, &list[i]) {
            return Some(i);
        }
    }
    None
}

/// The first of `players` who can beat a unit of the throw, with the index of the first unit that
/// they can beat.
pub fn check_throw(format: &TrickFormat, hands: &Hands, players: &[PlayerID]) -> (r: Result<
    Option<(PlayerID, usize)>,
    HandError,
>)
    requires
        hands.wf(),
        forall|i: int|
            0 <= i < format@.units.len() ==> ((#[trigger] format@.units[i]) is Tractor
                ==> format@.units[i].members().len() >= 2),
    ensures
        match r {
            Ok(Some((p, k))) => k < format.units@.len() && judge_throw(format@, hands@, players@)
                == Ok::<Option<(PlayerID, Unit)>, HandError>(
                Some((p, format@.units[k as int])),
            ),
            Ok(None) => judge_throw(format@, hands@, players@) == Ok::<
                Option<(PlayerID, Unit)>,
                HandError,
            >(None),
            Err(e) => judge_throw(format@, hands@, players@) == Err::<
                Option<(PlayerID, Unit)>,
                HandError,
            >(e),
        },
{
    assert(players@.skip(0) =~= players@);
    for i in 0..players.len()
        invariant
            hands.wf(),
            forall|i: int|
                0 <= i < format@.units.len() ==> ((#[trigger] format@.units[i]) is Tractor
                    ==> format@.units[i].members().len() >= 2),
            judge_throw(format@, hands@, players@) == judge_throw(
                format@,
                hands@,
                players@.skip(i as int),
            ),
    {
        let player = players[i];
        assert(players@.skip(i as int)[0] == player);
        assert(players@.skip(i as int).skip(1) =~= players@.skip(i + 1));
        let hand = match hands.get(player) {
            Ok(hand) => hand,
            Err(e) => {
                return Err(e);
            },
        };
        let held = hand_in_suit(hand, format.trump, format.suit);
        if let Some(k) = find_beaten(&held, &format.units) {
            return Ok(Some((player, k)));
        }
    }
    Ok(None)
}

} // verus!

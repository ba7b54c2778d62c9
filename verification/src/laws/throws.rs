//! Laws of throws: who can beat what.

use crate::format::{in_suit, Format};
use crate::hands::HandError;
use crate::laws::finding::{consecutive, lemma_run_is_consecutive, paired, runs_are_found};
use crate::throw::{beaten_unit, is_beaten, judge_throw};
use crate::tractor::{tractors_are_sound, tractors_from};
use crate::types::{Card, PlayerID, Trump};
use crate::unit::{OrderedCard, Unit};
use vstd::multiset::Multiset;
use vstd::prelude::*;

verus! {

broadcast use {vstd::multiset::group_multiset_axioms, vstd::seq_lib::group_to_multiset_ensures};

/// So many copies of a card are beaten exactly by as many copies, or more, of one higher card.
pub proof fn who_beats_repeated_cards(t: Trump, held: Multiset<Card>, k: nat, card: OrderedCard)
    requires
        k > 0,
    ensures
        is_beaten(t, held, Unit::Repeated { count: k, card }) <==> exists|c: Card| #[trigger]
            held.count(c) >= k && t.rank(c) > t.rank(card.card),
{
    if exists|c: Card| #[trigger] held.count(c) >= k && t.rank(c) > t.rank(card.card) {
        let c = choose|c: Card| #[trigger] held.count(c) >= k && t.rank(c) > t.rank(card.card);
        assert(held.count(c) > 0);
    }
}

/// Whoever beats a tractor holds a run of cards, at least as long, that starts no lower than its
/// second member, and each card of it as often as the tractor is wide.
pub proof fn who_beats_a_tractor(
    t: Trump,
    held: Multiset<Card>,
    count: nat,
    members: Seq<OrderedCard>,
)
    requires
        is_beaten(t, held, Unit::Tractor { count, members }),
    ensures
        exists|run: Seq<OrderedCard>|
            {
                &&& #[trigger] consecutive(t, run)
                &&& run.len() >= 2
                &&& run.len() >= members.len()
                &&& t.rank(run[0].card) >= t.rank(members[1].card)
                &&& forall|j: int|
                    0 <= j < run.len() ==> held.count((#[trigger] run[j]).card) >= count
                        && held.count(run[j].card) > 0
                &&& paired(held, run)
            },
{
    let c = choose|c: Card|
        #[trigger] held.count(c) > 0 && t.rank(c) >= t.rank(members[1].card) && tractors_from(
            held,
            OrderedCard { card: c, trump: t },
            held.count(c),
            count,
            members.len(),
        ).len() > 0;
    let card = OrderedCard { card: c, trump: t };
    tractors_are_sound(held, card, count, members.len());
    let u = tractors_from(held, card, held.count(c), count, members.len())[0];
    let run = u.members();
    lemma_run_is_consecutive(held, card, run);
    assert forall|j: int| 0 <= j < run.len() implies held.count((#[trigger] run[j]).card) >= count
        && held.count(run[j].card) > 0 by {
        if j > 0 {
            assert(held.count(run[j].card) >= 2);
        }
    }
    assert(consecutive(t, run));
}

/// A tractor is beaten by such a run where no card from its start upwards is held more than once
/// but less often than the tractor is wide.
pub proof fn what_beats_a_tractor(
    t: Trump,
    held: Multiset<Card>,
    count: nat,
    members: Seq<OrderedCard>,
    run: Seq<OrderedCard>,
)
    requires
        consecutive(t, run),
        run.len() >= 2,
        run.len() >= members.len(),
        t.rank(run[0].card) >= t.rank(members[1].card),
        held.count(run[0].card) > 0,
        held.count(run[0].card) >= count,
        paired(held, run),
        forall|c: Card| #[trigger]
            held.count(c) >= 2 && t.rank(c) > t.rank(run[0].card) ==> held.count(c) >= count,
    ensures
        is_beaten(t, held, Unit::Tractor { count, members }),
{
    let card = run[0];
    runs_are_found(held, card, held.count(card.card), count, members.len(), run);
    assert(card == OrderedCard { card: card.card, trump: t });
    assert(held.count(card.card) > 0);
}

/// Beating a tractor is having a tractor to put down, as wide and as long, that starts no lower
/// than its second member.
pub proof fn tractors_beat_tractors(
    t: Trump,
    held: Multiset<Card>,
    count: nat,
    members: Seq<OrderedCard>,
)
    ensures
        is_beaten(t, held, Unit::Tractor { count, members }) <==> exists|c: Card, u: Unit|
            {
                &&& held.count(c) > 0
                &&& t.rank(c) >= t.rank(members[1].card)
                &&& #[trigger] tractors_from(
                    held,
                    OrderedCard { card: c, trump: t },
                    held.count(c),
                    count,
                    members.len(),
                ).contains(u)
            },
{
    if is_beaten(t, held, Unit::Tractor { count, members }) {
        let c = choose|c: Card|
            #[trigger] held.count(c) > 0 && t.rank(c) >= t.rank(members[1].card) && tractors_from(
                held,
                OrderedCard { card: c, trump: t },
                held.count(c),
                count,
                members.len(),
            ).len() > 0;
        let list = tractors_from(
            held,
            OrderedCard { card: c, trump: t },
            held.count(c),
            count,
            members.len(),
        );
        assert(list.contains(list[0]));
    }
    if exists|c: Card, u: Unit|
        {
            &&& held.count(c) > 0
            &&& t.rank(c) >= t.rank(members[1].card)
            &&& #[trigger] tractors_from(
                held,
                OrderedCard { card: c, trump: t },
                held.count(c),
                count,
                members.len(),
            ).contains(u)
        } {
        let (c, u) = choose|c: Card, u: Unit|
            {
                &&& held.count(c) > 0
                &&& t.rank(c) >= t.rank(members[1].card)
                &&& #[trigger] tractors_from(
                    held,
                    OrderedCard { card: c, trump: t },
                    held.count(c),
                    count,
                    members.len(),
                ).contains(u)
            };
        assert(held.count(c) > 0);
    }
}

/// None of `units` is beaten by someone who holds `held`.
pub open spec fn withstands(t: Trump, held: Multiset<Card>, units: Seq<Unit>) -> bool {
    forall|j: int| 0 <= j < units.len() ==> !is_beaten(t, held, #[trigger] units[j])
}

/// The unit that counts as beaten is the first that is.
pub proof fn which_unit_is_beaten(t: Trump, held: Multiset<Card>, units: Seq<Unit>)
    ensures
        match beaten_unit(t, held, units) {
            Some(u) => exists|k: int|
                0 <= k < units.len() && #[trigger] units[k] == u && is_beaten(t, held, u)
                    && withstands(t, held, units.take(k)),
            None => withstands(t, held, units),
        },
    decreases units.len(),
{
    if units.len() > 0 {
        let rest = units.skip(1);
        if is_beaten(t, held, units[0]) {
            assert(withstands(t, held, units.take(0)));
            assert(units[0] == units[0]);
        } else {
            which_unit_is_beaten(t, held, rest);
            match beaten_unit(t, held, rest) {
                Some(u) => {
                    let k = choose|k: int|
                        0 <= k < rest.len() && #[trigger] rest[k] == u && is_beaten(t, held, u)
                            && withstands(t, held, rest.take(k));
                    assert(units[k + 1] == u);
                    let before = units.take(k + 1);
                    assert forall|j: int| 0 <= j < before.len() implies !is_beaten(
                        t,
                        held,
                        #[trigger] before[j],
                    ) by {
                        if j > 0 {
                            assert(rest.take(k)[j - 1] == before[j]);
                        }
                    }
                },
                None => {
                    assert forall|j: int| 0 <= j < units.len() implies !is_beaten(
                        t,
                        held,
                        #[trigger] units[j],
                    ) by {
                        if j > 0 {
                            assert(rest[j - 1] == units[j]);
                        }
                    }
                },
            }
        }
    }
}

/// Everyone of `players` has a hand, and none of them can beat a unit of the throw.
pub open spec fn nobody_beats(
    f: Format,
    hands: Map<PlayerID, Multiset<Card>>,
    players: Seq<PlayerID>,
) -> bool {
    forall|i: int|
        0 <= i < players.len() ==> hands.dom().contains(#[trigger] players[i]) && withstands(
            f.trump,
            in_suit(f.trump, f.suit, hands[players[i]]),
            f.units,
        )
}

/// The players are asked in turn: the first who can beat a unit makes the throw fail at the first
/// unit that they can beat, and the first without a hand stops the question.
pub proof fn how_a_throw_is_judged(
    f: Format,
    hands: Map<PlayerID, Multiset<Card>>,
    players: Seq<PlayerID>,
)
    ensures
        match judge_throw(f, hands, players) {
            Ok(None) => nobody_beats(f, hands, players),
            Ok(Some((p, u))) => exists|i: int, k: int|
                {
                    &&& 0 <= i < players.len()
                    &&& #[trigger] players[i] == p
                    &&& nobody_beats(f, hands, players.take(i))
                    &&& hands.dom().contains(p)
                    &&& 0 <= k < f.units.len()
                    &&& #[trigger] f.units[k] == u
                    &&& is_beaten(f.trump, in_suit(f.trump, f.suit, hands[p]), u)
                    &&& withstands(
                        f.trump,
                        in_suit(f.trump, f.suit, hands[p]),
                        f.units.take(k),
                    )
                },
            Err(e) => e == HandError::PlayerNotFound && exists|i: int|
                {
                    &&& 0 <= i < players.len()
                    &&& !hands.dom().contains(#[trigger] players[i])
                    &&& nobody_beats(f, hands, players.take(i))
                },
        },
    decreases players.len(),
{
    if players.len() > 0 {
        let p = players[0];
        let rest = players.skip(1);
        assert(nobody_beats(f, hands, players.take(0)));
        if hands.dom().contains(p) {
            let held = in_suit(f.trump, f.suit, hands[p]);
            which_unit_is_beaten(f.trump, held, f.units);
            how_a_throw_is_judged(f, hands, rest);
            match beaten_unit(f.trump, held, f.units) {
                Some(u) => {
                    let k = choose|k: int|
                        0 <= k < f.units.len() && #[trigger] f.units[k] == u && is_beaten(
                            f.trump,
                            held,
                            u,
                        ) && withstands(f.trump, held, f.units.take(k));
                    assert(players[0] == p && f.units[k] == u);
                },
                None => {
                    match judge_throw(f, hands, rest) {
                        Ok(None) => {
                            lemma_nobody_beats(f, hands, players, rest.len() as int);
                        },
                        Ok(Some((q, u))) => {
                            let (i, k) = choose|i: int, k: int|
                                {
                                    &&& 0 <= i < rest.len()
                                    &&& #[trigger] rest[i] == q
                                    &&& nobody_beats(f, hands, rest.take(i))
                                    &&& hands.dom().contains(q)
                                    &&& 0 <= k < f.units.len()
                                    &&& #[trigger] f.units[k] == u
                                    &&& is_beaten(f.trump, in_suit(f.trump, f.suit, hands[q]), u)
                                    &&& withstands(
                                        f.trump,
                                        in_suit(f.trump, f.suit, hands[q]),
                                        f.units.take(k),
                                    )
                                };
                            lemma_nobody_beats(f, hands, players, i);
                            assert(players[i + 1] == q && f.units[k] == u);
                        },
                        Err(_) => {
                            let i = choose|i: int|
                                {
                                    &&& 0 <= i < rest.len()
                                    &&& !hands.dom().contains(#[trigger] rest[i])
                                    &&& nobody_beats(f, hands, rest.take(i))
                                };
                            lemma_nobody_beats(f, hands, players, i);
                            assert(players[i + 1] == rest[i]);
                        },
                    }
                },
            }
        } else {
            assert(!hands.dom().contains(players[0]));
        }
    }
}

proof fn lemma_nobody_beats(
    f: Format,
    hands: Map<PlayerID, Multiset<Card>>,
    players: Seq<PlayerID>,
    i: int,
)
    requires
        0 <= i < players.len(),
        nobody_beats(f, hands, players.skip(1).take(i)),
        hands.dom().contains(players[0]),
        withstands(f.trump, in_suit(f.trump, f.suit, hands[players[0]]), f.units),
    ensures
        nobody_beats(f, hands, players.take(i + 1)),
        i + 1 == players.len() ==> nobody_beats(f, hands, players),
{
    let before = players.take(i + 1);
    let rest = players.skip(1).take(i);
    assert forall|j: int| 0 <= j < before.len() implies hands.dom().contains(#[trigger] before[j])
        && withstands(f.trump, in_suit(f.trump, f.suit, hands[before[j]]), f.units) by {
        if j > 0 {
            assert(rest[j - 1] == before[j]);
        }
    }
    if i + 1 == players.len() {
        assert(before =~= players);
    }
}

} // verus!

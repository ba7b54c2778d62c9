//! Splitting cards into units in all the ways that matter.

use crate::counts::{ascending, lemma_ascending, SortedCounts};
use crate::search::{
    among, climbing_one, count_in_order, fits, lemma_fits_tally, lemma_sound_fits,
    lemma_unit_tally, total, with_cards, without_cards,
};
use crate::small::{Plays, Units};
use crate::tractor::{
    climbing, find_tractors_from_start, is_run, lemma_run_climbs, runs_make_tractors,
    sound_tractor, tractors_are_sound, tractors_from,
};
use crate::types::{rank_is_injective, Card, Trump};
use crate::unit::{OrderedCard, TrickUnit, Unit};
use vstd::multiset::Multiset;
use vstd::prelude::*;

verus! {

broadcast use {vstd::multiset::group_multiset_axioms, vstd::seq_lib::group_to_multiset_ensures};

/// There are tractors, and each of them uses up all copies of all its cards.
pub open spec fn all_consumed(m: Multiset<Card>, tractors: Seq<Unit>) -> bool {
    tractors.len() > 0 && forall|i: int, j: int|
        0 <= i < tractors.len() && 0 <= j < tractors[i].members().len() ==> m.count(
            (#[trigger] tractors[i].members()[j]).card,
        ) == tractors[i].width()
}

/// The units that may be split off the cards `m` first: the tractors that start with the lowest
/// card and, unless those leave nothing over, all copies of that card.
pub open spec fn starts(t: Trump, m: Multiset<Card>) -> Seq<Unit> {
    let card = OrderedCard { card: ascending(t, m)[0], trump: t };
    let tractors = tractors_from(m, card, m.count(card.card), 2, 2);
    if all_consumed(m, tractors) {
        tractors
    } else {
        tractors.push(Unit::Repeated { count: m.count(card.card), card })
    }
}

/// `units[k]` is the first of `units` that has `n` cards.
pub open spec fn first_of_size(units: Seq<Unit>, n: nat, k: int) -> bool {
    0 <= k < units.len() && units[k].size() == n && forall|j: int|
        0 <= j < k ==> (#[trigger] units[j]).size() != n
}

/// The ways to split the cards `m` into units. Each is listed from the last unit split off to
/// the first. A unit that takes all the cards leaves no other way.
pub open spec fn plays(t: Trump, m: Multiset<Card>) -> Seq<Seq<Unit>>
    decreases m.len(), starts(t, m).len() + 1,
{
    if m.len() == 0 {
        seq![]
    } else if exists|k: int| first_of_size(starts(t, m), m.len(), k) {
        seq![seq![starts(t, m)[choose|k: int| first_of_size(starts(t, m), m.len(), k)]]]
    } else {
        plays_after(t, m, starts(t, m).len())
    }
}

/// The ways that begin with one of the first `k` units of `starts`.
pub open spec fn plays_after(t: Trump, m: Multiset<Card>, k: nat) -> Seq<Seq<Unit>>
    decreases m.len(), k,
        when m.len() > 0 && k <= starts(t, m).len() via plays_after_decreases
{
    if k == 0 {
        seq![]
    } else {
        let start = starts(t, m)[k - 1];
        plays_after(t, m, (k - 1) as nat) + plays(t, m.sub(start.tally())).map_values(
            |play: Seq<Unit>| play.push(start),
        )
    }
}

#[via_fn]
proof fn plays_after_decreases(t: Trump, m: Multiset<Card>, k: nat) {
    if k > 0 {
        lemma_start(t, m, k - 1);
    }
}

/// `u` is a unit as the rules have it: at least one copy of a card, or a tractor of at least
/// two consecutive members, each there at least twice.
pub open spec fn proper(t: Trump, u: Unit) -> bool {
    match u {
        Unit::Tractor { count, members } => {
            &&& count >= 2
            &&& members.len() >= 2
            &&& climbing(t, members)
            &&& forall|j: int|
                0 < j < members.len() ==> members[j - 1].next().contains(#[trigger] members[j])
        },
        Unit::Repeated { count, card } => count >= 1 && card.trump == t,
    }
}

/// A unit that may be split off is proper, and its cards are there.
proof fn lemma_start(t: Trump, m: Multiset<Card>, i: int)
    requires
        m.len() > 0,
        0 <= i < starts(t, m).len(),
    ensures
        fits(t, m, starts(t, m)[i]),
        proper(t, starts(t, m)[i]),
        starts(t, m)[i].size() > 0,
        m.sub(starts(t, m)[i].tally()).len() == m.len() - starts(t, m)[i].size(),
{
    let card = OrderedCard { card: ascending(t, m)[0], trump: t };
    lemma_lowest(t, m);
    let tractors = tractors_from(m, card, m.count(card.card), 2, 2);
    tractors_are_sound(m, card, 2, 2);
    let u = starts(t, m)[i];
    if i < tractors.len() {
        assert(u == tractors[i]);
        lemma_sound_fits(m, card, u);
        assert(is_run(m, card, u.members()));
        assert(u.width() * u.members().len() > 0) by (nonlinear_arith)
            requires
                u.width() >= 2,
                u.members().len() >= 2,
        ;
    } else {
        assert(u == Unit::Repeated { count: m.count(card.card), card });
        climbing_one(t, card);
        assert(u.members() =~= seq![card]);
    }
    lemma_fits_tally(t, m, u);
}

/// The lowest card of a nonempty multiset is in it.
pub proof fn lemma_lowest(t: Trump, m: Multiset<Card>)
    requires
        m.len() > 0,
    ensures
        ascending(t, m).len() > 0,
        m.count(ascending(t, m)[0]) > 0,
{
    lemma_ascending(t, m);
    let cards = ascending(t, m);
    let c = m.choose();
    assert(m.count(c) > 0);
    assert(cards.contains(c));
    assert(cards.contains(cards[0]));
}

/// `play` splits the cards `m` into proper units.
pub open spec fn splits(t: Trump, m: Multiset<Card>, play: Seq<Unit>) -> bool {
    play.len() > 0 && total(play) == m && forall|i: int|
        0 <= i < play.len() ==> proper(t, #[trigger] play[i])
}

/// Cards can always be split into proper units, and every way that is listed does so without a
/// card missing or left over.
pub proof fn plays_split_the_cards(t: Trump, m: Multiset<Card>)
    requires
        m.len() > 0,
    ensures
        plays(t, m).len() > 0,
        forall|i: int| 0 <= i < plays(t, m).len() ==> splits(t, m, #[trigger] plays(t, m)[i]),
    decreases m.len(), starts(t, m).len() + 1,
{
    let list = starts(t, m);
    if exists|k: int| first_of_size(list, m.len(), k) {
        let k = choose|k: int| first_of_size(list, m.len(), k);
        let u = list[k];
        lemma_start(t, m, k);
        lemma_fits_tally(t, m, u);
        let play = seq![u];
        assert(play.drop_last() =~= seq![]);
        reveal_with_fuel(total, 2);
        assert(m.sub(u.tally()).len() == 0);
        assert(m.sub(u.tally()) =~= Multiset::empty());
        assert(total(play) =~= m) by {
            assert(m.sub(u.tally()).add(u.tally()) =~= m);
        }
        assert(plays(t, m) =~= seq![play]);
    } else {
        lemma_lowest(t, m);
        assert(list.len() > 0);
        assert forall|i: int| 0 <= i < list.len() implies (#[trigger] list[i]).size()
            != m.len() by {
            if list[i].size() == m.len() {
                lemma_first_of_size(list, m.len(), i);
            }
        }
        lemma_plays_after(t, m, list.len());
    }
}

pub proof fn lemma_first_of_size(units: Seq<Unit>, n: nat, i: int)
    requires
        0 <= i < units.len(),
        units[i].size() == n,
    ensures
        exists|k: int| first_of_size(units, n, k),
    decreases i,
{
    if exists|j: int| 0 <= j < i && (#[trigger] units[j]).size() == n {
        let j = choose|j: int| 0 <= j < i && (#[trigger] units[j]).size() == n;
        lemma_first_of_size(units, n, j);
    } else {
        assert(first_of_size(units, n, i));
    }
}

proof fn lemma_plays_after(t: Trump, m: Multiset<Card>, k: nat)
    requires
        m.len() > 0,
        k <= starts(t, m).len(),
        forall|i: int|
            0 <= i < starts(t, m).len() ==> (#[trigger] starts(t, m)[i]).size() != m.len(),
    ensures
        k > 0 ==> plays_after(t, m, k).len() > 0,
        forall|i: int|
            0 <= i < plays_after(t, m, k).len() ==> splits(
                t,
                m,
                #[trigger] plays_after(t, m, k)[i],
            ),
    decreases m.len(), k,
{
    if k > 0 {
        let start = starts(t, m)[k - 1];
        let rest = m.sub(start.tally());
        lemma_start(t, m, k - 1);
        lemma_fits_tally(t, m, start);
        assert(rest.len() < m.len());
        plays_split_the_cards(t, rest);
        lemma_plays_after(t, m, (k - 1) as nat);
        let fewer = plays_after(t, m, (k - 1) as nat);
        let all = plays_after(t, m, k);
        let more = plays(t, rest);
        assert forall|i: int| 0 <= i < all.len() implies splits(t, m, #[trigger] all[i]) by {
            if i < fewer.len() {
                assert(all[i] == fewer[i]);
            } else {
                let sub = more[i - fewer.len()];
                let play = sub.push(start);
                assert(all[i] == play);
                assert(splits(t, rest, sub));
                assert(play.drop_last() =~= sub);
                assert(total(play) =~= m);
            }
        }
    }
}

/// The units of `play` start ever lower, and the last one with the lowest card of `m`. Repeated
/// cards are all the copies there are, so what stands before them starts strictly higher.
pub open spec fn descends(t: Trump, m: Multiset<Card>, play: Seq<Unit>) -> bool {
    &&& play.len() > 0
    &&& play.last().first() == OrderedCard { card: ascending(t, m)[0], trump: t }
    &&& forall|a: int, b: int|
        0 <= a < b < play.len() ==> {
            let above = t.rank((#[trigger] play[a]).first().card);
            let below = t.rank((#[trigger] play[b]).first().card);
            above >= below && (play[b] is Repeated ==> above > below)
        }
}

proof fn lemma_start_is_lowest(t: Trump, m: Multiset<Card>, i: int)
    requires
        m.len() > 0,
        0 <= i < starts(t, m).len(),
    ensures
        starts(t, m)[i].first() == (OrderedCard { card: ascending(t, m)[0], trump: t }),
{
    let card = OrderedCard { card: ascending(t, m)[0], trump: t };
    let tractors = tractors_from(m, card, m.count(card.card), 2, 2);
    tractors_are_sound(m, card, 2, 2);
    if i < tractors.len() {
        assert(starts(t, m)[i] == tractors[i]);
        assert(sound_tractor(m, card, tractors[i]));
    }
}

/// Repeated cards are split off with all their copies.
proof fn lemma_all_copies(t: Trump, m: Multiset<Card>, i: int)
    requires
        m.len() > 0,
        0 <= i < starts(t, m).len(),
        starts(t, m)[i] is Repeated,
    ensures
        starts(t, m)[i].width() == m.count(ascending(t, m)[0]),
        m.sub(starts(t, m)[i].tally()).count(ascending(t, m)[0]) == 0,
{
    let card = OrderedCard { card: ascending(t, m)[0], trump: t };
    let tractors = tractors_from(m, card, m.count(card.card), 2, 2);
    tractors_are_sound(m, card, 2, 2);
    let u = starts(t, m)[i];
    if i < tractors.len() {
        assert(u == tractors[i]);
        assert(sound_tractor(m, card, u));
    }
    climbing_one(t, card);
    lemma_unit_tally(t, u);
    assert(u.members()[0].card == card.card);
    assert(among(u.members(), card.card));
}

proof fn lemma_lowest_rank(t: Trump, m: Multiset<Card>, c: Card)
    requires
        m.count(c) > 0,
    ensures
        t.rank(ascending(t, m)[0]) <= t.rank(c),
{
    lemma_ascending(t, m);
    let cards = ascending(t, m);
    assert(cards.contains(c));
    assert(cards[cards.index_of(c)] == c);
}

/// A unit with the lowest card of `m` goes behind a play with cards left over from `m`.
proof fn lemma_descends_push(
    t: Trump,
    m: Multiset<Card>,
    rest: Multiset<Card>,
    sub: Seq<Unit>,
    start: Unit,
)
    requires
        descends(t, rest, sub),
        start.first() == (OrderedCard { card: ascending(t, m)[0], trump: t }),
        t.rank(ascending(t, m)[0]) <= t.rank(ascending(t, rest)[0]),
        start is Repeated ==> t.rank(ascending(t, m)[0]) < t.rank(ascending(t, rest)[0]),
    ensures
        descends(t, m, sub.push(start)),
{
    let play = sub.push(start);
    let end = sub.len() - 1;
    assert forall|a: int, b: int| 0 <= a < b < play.len() implies {
        let above = t.rank((#[trigger] play[a]).first().card);
        let below = t.rank((#[trigger] play[b]).first().card);
        above >= below && (play[b] is Repeated ==> above > below)
    } by {
        assert(play[a] == sub[a]);
        if b < sub.len() {
            assert(play[b] == sub[b]);
        } else if a < end {
            assert(t.rank(sub[a].first().card) >= t.rank(sub[end].first().card));
        }
    }
}

/// Every way to split cards lists its units from the one that starts highest to the one that
/// starts lowest.
pub proof fn plays_descend(t: Trump, m: Multiset<Card>)
    requires
        m.len() > 0,
    ensures
        forall|i: int| 0 <= i < plays(t, m).len() ==> descends(t, m, #[trigger] plays(t, m)[i]),
    decreases m.len(), starts(t, m).len() + 1,
{
    let list = starts(t, m);
    if exists|k: int| first_of_size(list, m.len(), k) {
        let k = choose|k: int| first_of_size(list, m.len(), k);
        lemma_start_is_lowest(t, m, k);
        let play = seq![list[k]];
        assert(descends(t, m, play));
        assert(plays(t, m) =~= seq![play]);
        assert forall|i: int| 0 <= i < plays(t, m).len() implies descends(
            t,
            m,
            #[trigger] plays(t, m)[i],
        ) by {
            assert(plays(t, m)[i] == play);
        }
    } else {
        assert forall|i: int| 0 <= i < list.len() implies (#[trigger] list[i]).size()
            != m.len() by {
            if list[i].size() == m.len() {
                lemma_first_of_size(list, m.len(), i);
            }
        }
        lemma_plays_after_descend(t, m, list.len());
        assert(plays(t, m) == plays_after(t, m, list.len()));
    }
}

proof fn lemma_plays_after_descend(t: Trump, m: Multiset<Card>, k: nat)
    requires
        m.len() > 0,
        k <= starts(t, m).len(),
        forall|i: int|
            0 <= i < starts(t, m).len() ==> (#[trigger] starts(t, m)[i]).size() != m.len(),
    ensures
        forall|i: int|
            0 <= i < plays_after(t, m, k).len() ==> descends(
                t,
                m,
                #[trigger] plays_after(t, m, k)[i],
            ),
    decreases m.len(), k,
{
    if k > 0 {
        let start = starts(t, m)[k - 1];
        let rest = m.sub(start.tally());
        lemma_start(t, m, k - 1);
        lemma_start_is_lowest(t, m, k - 1);
        lemma_fits_tally(t, m, start);
        plays_descend(t, rest);
        lemma_plays_after_descend(t, m, (k - 1) as nat);
        lemma_lowest(t, rest);
        lemma_lowest_rank(t, m, ascending(t, rest)[0]);
        if start is Repeated {
            lemma_all_copies(t, m, k - 1);
            if t.rank(ascending(t, m)[0]) == t.rank(ascending(t, rest)[0]) {
                rank_is_injective(t, ascending(t, m)[0], ascending(t, rest)[0]);
            }
        }
        let fewer = plays_after(t, m, (k - 1) as nat);
        let all = plays_after(t, m, k);
        let more = plays(t, rest);
        assert forall|i: int| 0 <= i < all.len() implies descends(t, m, #[trigger] all[i]) by {
            if i < fewer.len() {
                assert(all[i] == fewer[i]);
            } else {
                let sub = more[i - fewer.len()];
                assert(all[i] == sub.push(start));
                lemma_descends_push(t, m, rest, sub, start);
            }
        }
    }
}

/// Every unit of `play` takes all copies in `m` of each of its cards.
pub open spec fn uses_all_copies(m: Multiset<Card>, play: Seq<Unit>) -> bool {
    forall|i: int, j: int|
        0 <= i < play.len() && 0 <= j < play[i].members().len() ==> m.count(
            (#[trigger] play[i].members()[j]).card,
        ) == play[i].width()
}

/// The last way that is listed splits no card over several units.
pub proof fn last_play_uses_all_copies(t: Trump, m: Multiset<Card>)
    requires
        m.len() > 0,
    ensures
        plays(t, m).len() > 0,
        uses_all_copies(m, plays(t, m).last()),
    decreases m.len(),
{
    let list = starts(t, m);
    plays_split_the_cards(t, m);
    if exists|k: int| first_of_size(list, m.len(), k) {
        let k = choose|k: int| first_of_size(list, m.len(), k);
        let u = list[k];
        let play = seq![u];
        assert(plays(t, m) =~= seq![play]);
        lemma_start(t, m, k);
        lemma_fits_tally(t, m, u);
        lemma_unit_tally(t, u);
        assert(m.sub(u.tally()).len() == 0);
        assert(m.sub(u.tally()) =~= Multiset::empty());
        assert forall|i: int, j: int|
            0 <= i < play.len() && 0 <= j < play[i].members().len() implies m.count(
            (#[trigger] play[i].members()[j]).card,
        ) == play[i].width() by {
            let c = u.members()[j].card;
            assert(among(u.members(), c));
            assert(m.sub(u.tally()).count(c) == 0);
        }
    } else {
        lemma_lowest(t, m);
        let k = list.len() - 1;
        let start = list[k];
        let rest = m.sub(start.tally());
        lemma_start(t, m, k);
        lemma_fits_tally(t, m, start);
        lemma_unit_tally(t, start);
        if start.size() == m.len() {
            lemma_first_of_size(list, m.len(), k);
        }
        lemma_last_start(t, m);
        last_play_uses_all_copies(t, rest);
        let sub = plays(t, rest).last();
        let play = plays(t, m).last();
        assert(play == sub.push(start));
        assert forall|i: int, j: int|
            0 <= i < play.len() && 0 <= j < play[i].members().len() implies m.count(
            (#[trigger] play[i].members()[j]).card,
        ) == play[i].width() by {
            if i < sub.len() {
                assert(play[i] == sub[i]);
                let c = sub[i].members()[j].card;
                assert(rest.count(c) == sub[i].width());
                assert(splits(t, rest, plays(t, rest)[plays(t, rest).len() - 1])) by {
                    plays_split_the_cards(t, rest);
                }
                assert(proper(t, sub[i]));
                assert(rest.count(c) > 0);
                if among(start.members(), c) {
                    let a = choose|a: int|
                        0 <= a < start.members().len() && (#[trigger] start.members()[a]).card == c;
                    assert(m.count(c) == start.width());
                }
            } else {
                assert(play[i] == start);
            }
        }
    }
}

/// The last unit that may be split off first takes all copies of its cards.
proof fn lemma_last_start(t: Trump, m: Multiset<Card>)
    requires
        m.len() > 0,
        starts(t, m).len() > 0,
    ensures
        forall|j: int|
            0 <= j < starts(t, m).last().members().len() ==> m.count(
                (#[trigger] starts(t, m).last().members()[j]).card,
            ) == starts(t, m).last().width(),
{
    let card = OrderedCard { card: ascending(t, m)[0], trump: t };
    let tractors = tractors_from(m, card, m.count(card.card), 2, 2);
    let last = starts(t, m).last();
    if all_consumed(m, tractors) {
        let i = tractors.len() - 1;
        assert(last == tractors[i]);
        assert forall|j: int| 0 <= j < last.members().len() implies m.count(
            (#[trigger] last.members()[j]).card,
        ) == last.width() by {
            assert(m.count(tractors[i].members()[j].card) == tractors[i].width());
        }
    }
}

/// A proper unit may be split off first where its cards are all there is.
pub proof fn proper_units_are_starts(t: Trump, u: Unit)
    requires
        proper(t, u),
    ensures
        starts(t, u.tally()).contains(u),
{
    let m = u.tally();
    if let Unit::Repeated { card, .. } = u {
        climbing_one(t, card);
        assert(u.members() =~= seq![card]);
    }
    lemma_unit_tally(t, u);
    let first = u.members()[0];
    assert(among(u.members(), first.card));
    assert forall|c: Card| #[trigger] m.count(c) > 0 implies t.rank(c) >= first.rank() && m.count(
        c,
    ) == u.width() by {
        let j = choose|j: int| 0 <= j < u.members().len() && (#[trigger] u.members()[j]).card == c;
        if j > 0 {
            assert(u.members()[0].rank() < u.members()[j].rank());
        }
    }
    lemma_lowest(t, m);
    lemma_lowest_rank(t, m, first.card);
    rank_is_injective(t, ascending(t, m)[0], first.card);
    let card = OrderedCard { card: ascending(t, m)[0], trump: t };
    assert(card == first);
    let tractors = tractors_from(m, card, m.count(card.card), 2, 2);
    match u {
        Unit::Tractor { count, members } => {
            assert forall|j: int| 0 < j < members.len() implies members[j - 1].next().contains(
                #[trigger] members[j],
            ) && m.count(members[j].card) >= 2 by {
                assert(among(u.members(), members[j].card));
            }
            assert(is_run(m, card, members));
            runs_make_tractors(m, members, count, 0, 2, 2);
            assert(tractors.contains(u));
            assert(starts(t, m)[tractors.index_of(u)] == u);
        },
        Unit::Repeated { .. } => {
            tractors_are_sound(m, card, 2, 2);
            if tractors.len() > 0 {
                let other = tractors[0];
                assert(sound_tractor(m, card, other));
                lemma_run_climbs(m, card, other.members());
                assert(m.count(other.members()[1].card) >= 2);
                assert(other.members()[0].rank() < other.members()[1].rank());
            }
            assert(starts(t, m)[tractors.len() as int] == u);
        },
    }
}

/// Appends the plays of `more`, each with `start` behind it.
fn append_each(plays: &mut Plays, more: &Plays, start: &TrickUnit)
    ensures
        final(plays).model() == old(plays).model() + more.model().map_values(
            |play: Seq<Unit>| play.push(start@),
        ),
{
    let list = more.as_slice();
    let ghost before = plays.model();
    let ghost added = more.model().map_values(|play: Seq<Unit>| play.push(start@));
    for i in 0..list.len()
        invariant
            list@ == more@,
            added == more.model().map_values(|play: Seq<Unit>| play.push(start@)),
            plays.model() == before + added.take(i as int),
    {
        let ghost so_far = plays.model();
        let mut play = list[i].clone();
        let ghost sub = play.model();
        let last = start.clone();
        play.push(last);
        assert(play.model() =~= sub.push(start@));
        assert(more.model()[i as int] == sub);
        plays.push(play);
        assert(plays.model() =~= so_far.push(sub.push(start@)));
        assert(plays.model() =~= before + added.take(i + 1));
    }
    assert(added.take(list.len() as int) =~= added);
}

/// Whether each of `tractors` uses up all copies of all its cards, where there are any.
fn consumes_all(counts: &SortedCounts, tractors: &Units) -> (r: bool)
    requires
        counts.wf(),
        forall|i: int|
            0 <= i < tractors.model().len() ==> (#[trigger] tractors.model()[i]) is Tractor,
    ensures
        r == all_consumed(counts@, tractors.model()),
{
    let list = tractors.as_slice();
    let ghost model = tractors.model();
    for i in 0..list.len()
        invariant
            counts.wf(),
            list@ == tractors@,
            model == tractors.model(),
            forall|i: int| 0 <= i < model.len() ==> (#[trigger] model[i]) is Tractor,
            forall|a: int, b: int|
                0 <= a < i && 0 <= b < model[a].members().len() ==> counts@.count(
                    (#[trigger] model[a].members()[b]).card,
                ) == model[a].width(),
    {
        assert(model[i as int] == list@[i as int]@);
        if let TrickUnit::Tractor { count, members } = &list[i] {
            let cards = members.as_slice();
            for j in 0..cards.len()
                invariant
                    counts.wf(),
                    0 <= i < model.len(),
                    model == tractors.model(),
                    model[i as int] == (Unit::Tractor { count: *count as nat, members: cards@ }),
                    forall|b: int|
                        0 <= b < j ==> counts@.count((#[trigger] cards@[b]).card) == *count,
            {
                if counts.get(cards[j].card) != *count {
                    assert(model[i as int].members()[j as int] == cards@[j as int]);
                    return false;
                }
            }
            assert forall|b: int| 0 <= b < model[i as int].members().len() implies counts@.count(
                (#[trigger] model[i as int].members()[b]).card,
            ) == model[i as int].width() by {
                assert(cards@[b] == model[i as int].members()[b]);
            }
        }
    }
    list.len() > 0
}

/// The units that may be split off first.
fn find_starts(counts: &SortedCounts) -> (r: Units)
    requires
        counts.wf(),
        counts@.len() > 0,
    ensures
        r.model() == starts(counts.order(), counts@),
{
    let trump = counts.trump();
    proof {
        lemma_lowest(trump, counts@);
    }
    let entries = counts.entries();
    assert(entries@.len() == ascending(trump, counts@).len());
    assert(entries@[0].0 == ascending(trump, counts@)[0]);
    let (card, count) = entries[0];
    let card = OrderedCard { card, trump };
    assert(counts@.count(entries@[0].0) == entries@[0].1);
    let mut potential_starts = find_tractors_from_start(card, count, counts, 2, 2);
    proof {
        tractors_are_sound(counts@, card, 2, 2);
    }
    if !consumes_all(counts, &potential_starts) {
        let ghost tractors = potential_starts.model();
        potential_starts.push(TrickUnit::Repeated { card, count });
        assert(potential_starts.model() =~= tractors.push(
            Unit::Repeated { count: count as nat, card },
        ));
    }
    potential_starts
}

/// The ways to split the cards of `counts`, of which there are `num_cards`.
pub fn find_plays_inner(counts: &mut SortedCounts, num_cards: usize) -> (r: Plays)
    requires
        old(counts).wf(),
        old(counts)@.len() == num_cards,
    ensures
        final(counts).wf(),
        final(counts).order() == old(counts).order(),
        final(counts)@ == old(counts)@,
        r.model() == plays(old(counts).order(), old(counts)@),
    decreases num_cards,
{
    let ghost t = counts.order();
    let ghost m = counts@;
    let mut found = Plays::new();
    assert(found.model() =~= seq![]);
    if num_cards == 0 {
        return found;
    }
    let potential_starts = find_starts(counts);
    let list = potential_starts.as_slice();
    let ghost model = potential_starts.model();
    assert forall|i: int| 0 <= i < model.len() implies fits(t, m, #[trigger] model[i])
        && 0 < model[i].size() <= m.len() by {
        lemma_start(t, m, i);
        lemma_fits_tally(t, m, model[i]);
    }
    for i in 0..list.len()
        invariant
            m == old(counts)@,
            t == old(counts).order(),
            counts@ == m,
            counts.order() == t,
            counts.wf(),
            m.len() == num_cards,
            num_cards > 0,
            list@ == potential_starts@,
            model == potential_starts.model(),
            model == starts(t, m),
            found.model() == Seq::<Seq<Unit>>::empty(),
            forall|i: int|
                0 <= i < model.len() ==> fits(t, m, #[trigger] model[i]) && 0 < model[i].size()
                    <= m.len(),
            forall|j: int| 0 <= j < i ==> (#[trigger] model[j]).size() != num_cards,
    {
        assert(model[i as int] == list@[i as int]@);
        if list[i].size() == num_cards {
            let mut play = Units::new();
            play.push(list[i].clone());
            found.push(play);
            proof {
                assert(first_of_size(model, m.len(), i as int));
                let k = choose|k: int| first_of_size(model, m.len(), k);
                assert(k == i) by {
                    if k < i {
                        assert(model[k].size() != num_cards);
                    }
                }
                assert(play.model() =~= seq![model[i as int]]);
                assert(found.model() =~= seq![seq![model[i as int]]]);
            }
            return found;
        }
    }
    for i in 0..list.len()
        invariant
            m == old(counts)@,
            t == old(counts).order(),
            counts.wf(),
            counts.order() == t,
            counts@ == m,
            m.len() == num_cards,
            num_cards > 0,
            list@ == potential_starts@,
            model == potential_starts.model(),
            model == starts(t, m),
            forall|i: int|
                0 <= i < model.len() ==> fits(t, m, #[trigger] model[i]) && 0 < model[i].size()
                    <= m.len(),
            found.model() == plays_after(t, m, i as nat),
    {
        let start = &list[i];
        proof {
            assert(start@ == model[i as int]);
            lemma_fits_tally(t, m, start@);
            counts.lemma_bounded();
        }
        without_cards(counts, start);
        let size = start.size();
        let sub_plays = find_plays_inner(counts, num_cards - size);
        proof {
            assert forall|c: Card| #[trigger]
                counts@.count(c) + start@.tally().count(c) <= usize::MAX by {
                assert(m.sub(start@.tally()).add(start@.tally()).count(c) == m.count(c));
            }
        }
        with_cards(counts, start);
        append_each(&mut found, &sub_plays, start);
    }
    found
}

impl TrickUnit {
    /// The ways to split `cards` into units, see `plays`.
    pub fn find_plays(trump: Trump, cards: &[Card]) -> (r: Plays)
        ensures
            r.model() == plays(trump, cards@.to_multiset()),
    {
        let mut counts = count_in_order(trump, cards);
        find_plays_inner(&mut counts, cards.len())
    }
}

} // verus!

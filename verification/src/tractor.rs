//! Finding tractors: runs of cards that each occur at least twice.

use crate::counts::{lemma_rank_bounds, SortedCounts};
use crate::small::{Fringe, OrderedCards, Units};
use crate::types::{successors_are_the_next_tier, Card, Trump};
use crate::unit::{OrderedCard, TrickUnit, Unit};
use vstd::multiset::Multiset;
use vstd::prelude::*;

verus! {

/// The cards that may continue `run`, each with the run.
pub open spec fn ways_on(run: Seq<OrderedCard>) -> Seq<(OrderedCard, Seq<OrderedCard>)> {
    run.last().next().map_values(|c: OrderedCard| (c, run))
}

/// The cards that may continue the runs of `level`, run by run.
pub open spec fn fringe(level: Seq<Seq<OrderedCard>>) -> Seq<(OrderedCard, Seq<OrderedCard>)>
    decreases level.len(),
{
    if level.len() == 0 {
        seq![]
    } else {
        fringe(level.drop_last()) + ways_on(level.last())
    }
}

/// The runs made by those of `ways` whose card occurs at least twice in `m`.
pub open spec fn extended(m: Multiset<Card>, ways: Seq<(OrderedCard, Seq<OrderedCard>)>) -> Seq<
    Seq<OrderedCard>,
>
    decreases ways.len(),
{
    if ways.len() == 0 {
        seq![]
    } else {
        let rest = extended(m, ways.drop_last());
        if m.count(ways.last().0.card) >= 2 {
            rest.push(ways.last().1.push(ways.last().0))
        } else {
            rest
        }
    }
}

/// All runs that continue the runs of `level` by up to `depth` cards, shorter ones first.
pub open spec fn runs(m: Multiset<Card>, level: Seq<Seq<OrderedCard>>, depth: nat) -> Seq<
    Seq<OrderedCard>,
>
    decreases depth,
{
    if depth == 0 {
        seq![]
    } else {
        let next = extended(m, fringe(level));
        next + runs(m, next, (depth - 1) as nat)
    }
}

/// All runs of two or more cards that start with `card`, shorter ones first. No run has more
/// than sixteen cards, since a suit has no more than sixteen tiers.
pub open spec fn runs_from(m: Multiset<Card>, card: OrderedCard) -> Seq<Seq<OrderedCard>> {
    runs(m, seq![seq![card]], 16)
}

/// The least of `count` and of how often the last card of each run occurs.
pub open spec fn narrowest(m: Multiset<Card>, count: nat, runs: Seq<Seq<OrderedCard>>) -> nat
    decreases runs.len(),
{
    if runs.len() == 0 {
        count
    } else {
        let rest = narrowest(m, count, runs.drop_last());
        let last = m.count(runs.last().last().card);
        if last < rest {
            last
        } else {
            rest
        }
    }
}

/// The tractors that `runs` make, taken in turn: each is as wide as the narrowest card met so
/// far. Those narrower than `min_count` or shorter than `min_length` are left out.
pub open spec fn tractors_among(
    m: Multiset<Card>,
    count: nat,
    runs: Seq<Seq<OrderedCard>>,
    min_count: nat,
    min_length: nat,
) -> Seq<Unit>
    decreases runs.len(),
{
    if runs.len() == 0 {
        seq![]
    } else {
        let rest = tractors_among(m, count, runs.drop_last(), min_count, min_length);
        let width = narrowest(m, count, runs);
        if width >= min_count && runs.last().len() >= min_length {
            rest.push(Unit::Tractor { count: width, members: runs.last() })
        } else {
            rest
        }
    }
}

/// The tractors that start with `card`, of which there are `count`.
pub open spec fn tractors_from(
    m: Multiset<Card>,
    card: OrderedCard,
    count: nat,
    min_count: nat,
    min_length: nat,
) -> Seq<Unit> {
    if count < min_count {
        seq![]
    } else {
        tractors_among(m, count, runs_from(m, card), min_count, min_length)
    }
}

/// Every run of `level` has a last card, under trump `t` and of tier `k` or higher.
spec fn reaches(level: Seq<Seq<OrderedCard>>, t: Trump, k: int) -> bool {
    forall|i: int|
        0 <= i < level.len() ==> (#[trigger] level[i]).len() > 0 && level[i].last().trump == t
            && t.tier(level[i].last().card) >= k
}

proof fn lemma_next(card: OrderedCard, i: int)
    requires
        0 <= i < card.next().len(),
    ensures
        card.next()[i].trump == card.trump,
        card.trump.suit_of(card.next()[i].card) == card.trump.suit_of(card.card),
        card.trump.tier(card.next()[i].card) == card.trump.tier(card.card) + 1,
{
    successors_are_the_next_tier(card.trump, card.card);
    assert(card.trump.successors(card.card).contains(card.trump.successors(card.card)[i]));
}

proof fn lemma_fringe_reaches(level: Seq<Seq<OrderedCard>>, t: Trump, k: int)
    requires
        reaches(level, t, k),
    ensures
        forall|j: int|
            0 <= j < fringe(level).len() ==> (#[trigger] fringe(level)[j]).0.trump == t && t.tier(
                fringe(level)[j].0.card,
            ) >= k + 1,
    decreases level.len(),
{
    if level.len() > 0 {
        let rest = level.drop_last();
        assert forall|i: int| 0 <= i < rest.len() implies (#[trigger] rest[i]).len() > 0
            && rest[i].last().trump == t && t.tier(rest[i].last().card) >= k by {
            assert(rest[i] == level[i]);
        }
        lemma_fringe_reaches(rest, t, k);
        let run = level.last();
        assert(run == level[level.len() - 1]);
        assert forall|j: int| 0 <= j < fringe(level).len() implies (
        #[trigger] fringe(level)[j]).0.trump == t && t.tier(fringe(level)[j].0.card) >= k
            + 1 by {
            if j < fringe(rest).len() {
                assert(fringe(level)[j] == fringe(rest)[j]);
            } else {
                lemma_next(run.last(), j - fringe(rest).len());
            }
        }
    }
}

proof fn lemma_no_more_runs(m: Multiset<Card>, level: Seq<Seq<OrderedCard>>, depth: nat)
    requires
        fringe(level).len() == 0,
    ensures
        runs(m, level, depth) == Seq::<Seq<OrderedCard>>::empty(),
    decreases depth,
{
    if depth > 0 {
        let next = extended(m, fringe(level));
        assert(next =~= Seq::<Seq<OrderedCard>>::empty());
        assert(fringe(next).len() == 0);
        lemma_no_more_runs(m, next, (depth - 1) as nat);
        assert(runs(m, level, depth) =~= Seq::<Seq<OrderedCard>>::empty());
    }
}

/// Appends what may continue `run`.
fn push_ways_on(ways: &mut Fringe, run: &OrderedCards)
    requires
        run@.len() > 0,
    ensures
        final(ways).model() == old(ways).model() + ways_on(run@),
{
    let cards = run.as_slice();
    let next = cards[cards.len() - 1].successor();
    let next = next.as_slice();
    let ghost before = ways.model();
    for i in 0..next.len()
        invariant
            next@ == run@.last().next(),
            ways.model() == before + ways_on(run@).take(i as int),
    {
        let ghost so_far = ways.model();
        let copy = run.clone();
        ways.push((next[i], copy));
        assert(ways.model() =~= so_far.push((next@[i as int], run@)));
        assert(ways_on(run@)[i as int] == (next@[i as int], run@));
        assert(ways.model() =~= before + ways_on(run@).take(i + 1));
    }
    assert(ways_on(run@).take(next.len() as int) =~= ways_on(run@));
}

/// The tractors that start with `card`, of which there are `count`: those of at least
/// `min_length` members, each there at least `external_min_count` times.
pub fn find_tractors_from_start(
    card: OrderedCard,
    count: usize,
    counts: &SortedCounts,
    external_min_count: usize,
    min_length: usize,
) -> (r: Units)
    requires
        counts.wf(),
        counts.order() == card.trump,
    ensures
        r.model() == tractors_from(
            counts@,
            card,
            count as nat,
            external_min_count as nat,
            min_length as nat,
        ),
{
    let mut potential_starts = Units::new();
    assert(potential_starts.model() =~= seq![]);
    if count < external_min_count {
        return potential_starts;
    }
    let ghost m = counts@;
    let ghost t = card.trump;
    let mut start = OrderedCards::new();
    start.push(card);
    let mut next_cards = Fringe::new();
    assert(next_cards.model() =~= seq![]);
    push_ways_on(&mut next_cards, &start);
    let mut min_count: usize = count;

    let ghost mut level: Seq<Seq<OrderedCard>> = seq![seq![card]];
    let ghost mut seen: Seq<Seq<OrderedCard>> = seq![];
    let ghost mut depth: nat = 16;
    proof {
        lemma_rank_bounds(t, card.card);
        assert(start@ =~= seq![card]);
        reveal_with_fuel(fringe, 2);
        assert(level.drop_last() =~= seq![]);
        assert(next_cards.model() =~= fringe(level));
        assert(seen + runs(m, level, depth) =~= runs_from(m, card));
    }
    while next_cards.as_slice().len() > 0
        invariant
            counts.wf(),
            counts.order() == t,
            m == counts@,
            next_cards.model() == fringe(level),
            seen + runs(m, level, depth) == runs_from(m, card),
            reaches(level, t, 16 - depth),
            potential_starts.model() == tractors_among(
                m,
                count as nat,
                seen,
                external_min_count as nat,
                min_length as nat,
            ),
            min_count == narrowest(m, count as nat, seen),
        decreases depth,
    {
        proof {
            if depth == 0 {
                if level.len() > 0 {
                    assert(level[0].len() > 0);
                    lemma_rank_bounds(t, level[0].last().card);
                }
                assert(fringe(level).len() == 0);
                assert(next_cards.model().len() == 0);
            }
            lemma_fringe_reaches(level, t, 16 - depth);
        }
        let mut next_next_cards = Fringe::new();
        let ways = next_cards.as_slice();
        let ghost all = fringe(level);
        let ghost seen_before = seen;
        let ghost mut grown: Seq<Seq<OrderedCard>> = seq![];
        assert(next_next_cards.model() =~= fringe(grown));
        assert(extended(m, all.take(0)) =~= grown);
        assert(seen =~= seen_before + grown);
        for j in 0..ways.len()
            invariant
                counts.wf(),
                counts.order() == t,
                m == counts@,
                all == fringe(level),
                next_cards.model() == all,
                ways@ == next_cards@,
                depth > 0,
                forall|i: int|
                    0 <= i < all.len() ==> (#[trigger] all[i]).0.trump == t && t.tier(
                        all[i].0.card,
                    ) >= 16 - depth + 1,
                grown == extended(m, all.take(j as int)),
                seen == seen_before + grown,
                next_next_cards.model() == fringe(grown),
                reaches(grown, t, 16 - depth + 1),
                potential_starts.model() == tractors_among(
                    m,
                    count as nat,
                    seen,
                    external_min_count as nat,
                    min_length as nat,
                ),
                min_count == narrowest(m, count as nat, seen),
        {
            let next_card = ways[j].0;
            let next_count = counts.get(next_card.card);
            proof {
                assert(all[j as int] == (ways@[j as int].0, ways@[j as int].1@));
                assert(all.take(j + 1).drop_last() =~= all.take(j as int));
            }
            if next_count >= 2 {
                if next_count < min_count {
                    min_count = next_count;
                }
                let mut path = ways[j].1.clone();
                path.push(next_card);
                let ghost seen_so_far = seen;
                let ghost grown_so_far = grown;
                let ghost found = potential_starts.model();
                proof {
                    seen = seen.push(path@);
                    grown = grown.push(path@);
                    assert(seen.drop_last() =~= seen_so_far);
                    assert(grown.drop_last() =~= grown_so_far);
                    assert(seen =~= seen_before + grown);
                }
                if min_count >= external_min_count && path.as_slice().len() >= min_length {
                    potential_starts.push(
                        TrickUnit::Tractor { members: path.clone(), count: min_count },
                    );
                    assert(potential_starts.model() =~= found.push(
                        Unit::Tractor { count: min_count as nat, members: path@ },
                    ));
                }
                push_ways_on(&mut next_next_cards, &path);
            }
        }
        proof {
            assert(all.take(ways.len() as int) =~= all);
            let next = grown;
            assert(seen + runs(m, next, (depth - 1) as nat) =~= seen_before + runs(
                m,
                level,
                depth,
            ));
            level = next;
            depth = (depth - 1) as nat;
        }
        next_cards = next_next_cards;
    }
    proof {
        assert(fringe(level).len() == next_cards@.len());
        lemma_no_more_runs(m, level, depth);
        assert(seen =~= runs_from(m, card));
    }
    potential_starts
}

/// `run` starts with `card` and goes on, tier by tier, with cards that occur at least twice.
pub open spec fn is_run(m: Multiset<Card>, card: OrderedCard, run: Seq<OrderedCard>) -> bool {
    run.len() > 0 && run[0] == card && forall|j: int|
        0 < j < run.len() ==> run[j - 1].next().contains(#[trigger] run[j]) && m.count(run[j].card)
            >= 2
}

/// `run` is `shorter` with one more card.
spec fn grows(m: Multiset<Card>, shorter: Seq<OrderedCard>, run: Seq<OrderedCard>) -> bool {
    run.len() > 0 && run.drop_last() == shorter && shorter.last().next().contains(run.last())
        && m.count(run.last().card) >= 2
}

pub proof fn lemma_fringe_origin(level: Seq<Seq<OrderedCard>>, j: int)
    requires
        0 <= j < fringe(level).len(),
    ensures
        exists|a: int|
            0 <= a < level.len() && #[trigger] level[a] == fringe(level)[j].1
                && level[a].last().next().contains(fringe(level)[j].0),
    decreases level.len(),
{
    let rest = level.drop_last();
    if j < fringe(rest).len() {
        lemma_fringe_origin(rest, j);
        let a = choose|a: int|
            0 <= a < rest.len() && #[trigger] rest[a] == fringe(rest)[j].1
                && rest[a].last().next().contains(fringe(rest)[j].0);
        assert(level[a] == rest[a]);
    } else {
        let a = level.len() - 1;
        let i = j - fringe(rest).len();
        assert(level[a].last().next()[i] == fringe(level)[j].0);
        assert(level[a] == fringe(level)[j].1);
    }
}

pub proof fn lemma_extended_origin(
    m: Multiset<Card>,
    ways: Seq<(OrderedCard, Seq<OrderedCard>)>,
    k: int,
)
    requires
        0 <= k < extended(m, ways).len(),
    ensures
        exists|j: int|
            0 <= j < ways.len() && extended(m, ways)[k] == (#[trigger] ways[j]).1.push(ways[j].0)
                && m.count(ways[j].0.card) >= 2,
    decreases ways.len(),
{
    let rest = ways.drop_last();
    if k < extended(m, rest).len() {
        lemma_extended_origin(m, rest, k);
        let j = choose|j: int|
            0 <= j < rest.len() && extended(m, rest)[k] == (#[trigger] rest[j]).1.push(rest[j].0)
                && m.count(rest[j].0.card) >= 2;
        assert(ways[j] == rest[j]);
    } else {
        assert(ways[ways.len() - 1] == ways.last());
    }
}

proof fn lemma_level_grows(m: Multiset<Card>, level: Seq<Seq<OrderedCard>>, k: int)
    requires
        0 <= k < extended(m, fringe(level)).len(),
    ensures
        exists|a: int|
            0 <= a < level.len() && grows(m, #[trigger] level[a], extended(m, fringe(level))[k]),
{
    let ways = fringe(level);
    let run = extended(m, ways)[k];
    lemma_extended_origin(m, ways, k);
    let j = choose|j: int|
        0 <= j < ways.len() && run == (#[trigger] ways[j]).1.push(ways[j].0) && m.count(
            ways[j].0.card,
        ) >= 2;
    lemma_fringe_origin(level, j);
    let a = choose|a: int|
        0 <= a < level.len() && #[trigger] level[a] == ways[j].1 && level[a].last().next().contains(
            ways[j].0,
        );
    assert(run.drop_last() =~= level[a]);
    assert(grows(m, level[a], run));
}

/// Every run of `list` is a run from `card`, and grows out of an earlier one or of `card` alone.
spec fn grown(m: Multiset<Card>, card: OrderedCard, list: Seq<Seq<OrderedCard>>) -> bool {
    forall|i: int|
        0 <= i < list.len() ==> is_run(m, card, #[trigger] list[i]) && list[i].len() >= 2 && (
        list[i].drop_last() == seq![card] || exists|k: int|
            0 <= k < i && #[trigger] list[k] == list[i].drop_last())
}

proof fn lemma_runs_grown(
    m: Multiset<Card>,
    card: OrderedCard,
    before: Seq<Seq<OrderedCard>>,
    level: Seq<Seq<OrderedCard>>,
    depth: nat,
)
    requires
        grown(m, card, before),
        forall|a: int|
            0 <= a < level.len() ==> is_run(m, card, #[trigger] level[a]) && (level[a] == seq![card]
                || before.contains(level[a])),
    ensures
        grown(m, card, before + runs(m, level, depth)),
    decreases depth,
{
    if depth == 0 {
        assert(before + runs(m, level, depth) =~= before);
    } else {
        let next = extended(m, fringe(level));
        let list = before + next;
        assert forall|i: int| 0 <= i < list.len() implies is_run(m, card, #[trigger] list[i])
            && list[i].len() >= 2 && (list[i].drop_last() == seq![card] || exists|k: int|
            0 <= k < i && #[trigger] list[k] == list[i].drop_last()) by {
            if i < before.len() {
                assert(list[i] == before[i]);
                if list[i].drop_last() != seq![card] {
                    let k = choose|k: int|
                        0 <= k < i && #[trigger] before[k] == before[i].drop_last();
                    assert(list[k] == list[i].drop_last());
                }
            } else {
                let run = list[i];
                lemma_level_grows(m, level, i - before.len());
                let a = choose|a: int|
                    0 <= a < level.len() && grows(m, #[trigger] level[a], run);
                assert(is_run(m, card, level[a]));
                assert forall|j: int| 0 < j < run.len() implies run[j - 1].next().contains(
                    #[trigger] run[j],
                ) && m.count(run[j].card) >= 2 by {
                    assert(run[j - 1] == level[a][j - 1]);
                    if j < run.len() - 1 {
                        assert(run[j] == level[a][j]);
                    }
                }
                assert(run[0] == level[a][0]);
                if level[a] != seq![card] {
                    let k = before.index_of(level[a]);
                    assert(list[k] == level[a]);
                }
            }
        }
        assert forall|a: int| 0 <= a < next.len() implies is_run(m, card, #[trigger] next[a]) && (
        next[a] == seq![card] || list.contains(next[a])) by {
            assert(list[before.len() + a] == next[a]);
        }
        lemma_runs_grown(m, card, list, next, (depth - 1) as nat);
        assert(list + runs(m, next, (depth - 1) as nat) =~= before + runs(m, level, depth));
    }
}

pub proof fn lemma_narrowest(m: Multiset<Card>, count: nat, list: Seq<Seq<OrderedCard>>)
    ensures
        narrowest(m, count, list) <= count,
        forall|k: int|
            0 <= k < list.len() ==> narrowest(m, count, list) <= m.count(
                (#[trigger] list[k]).last().card,
            ),
    decreases list.len(),
{
    if list.len() > 0 {
        let rest = list.drop_last();
        lemma_narrowest(m, count, rest);
        assert forall|k: int| 0 <= k < list.len() implies narrowest(m, count, list) <= m.count(
            (#[trigger] list[k]).last().card,
        ) by {
            if k < rest.len() {
                assert(list[k] == rest[k]);
            }
        }
    }
}

/// A member of a run is where some run up to it ended.
proof fn lemma_member_met(
    m: Multiset<Card>,
    card: OrderedCard,
    list: Seq<Seq<OrderedCard>>,
    i: int,
    j: int,
)
    requires
        grown(m, card, list),
        0 <= i < list.len(),
        0 < j < list[i].len(),
    ensures
        exists|k: int| 0 <= k <= i && (#[trigger] list[k]).last() == list[i][j],
    decreases i,
{
    let run = list[i];
    assert(is_run(m, card, run));
    if j < run.len() - 1 {
        assert(run.drop_last().len() >= 2);
        let k = choose|k: int| 0 <= k < i && #[trigger] list[k] == list[i].drop_last();
        assert(list[k][j] == run[j]);
        lemma_member_met(m, card, list, k, j);
    }
}

/// `u` is a tractor from `card` whose members occur often enough for its width.
pub open spec fn sound_tractor(m: Multiset<Card>, card: OrderedCard, u: Unit) -> bool {
    u is Tractor && u.members().len() >= 2 && is_run(m, card, u.members()) && forall|j: int|
        0 <= j < u.members().len() ==> m.count((#[trigger] u.members()[j]).card) >= u.width()
}

proof fn lemma_tractors_among_sound(
    m: Multiset<Card>,
    card: OrderedCard,
    list: Seq<Seq<OrderedCard>>,
    min_count: nat,
    min_length: nat,
)
    requires
        grown(m, card, list),
    ensures
        forall|i: int|
            0 <= i < tractors_among(
                m,
                m.count(card.card),
                list,
                min_count,
                min_length,
            ).len() ==> {
                let u = #[trigger] tractors_among(
                    m,
                    m.count(card.card),
                    list,
                    min_count,
                    min_length,
                )[i];
                sound_tractor(m, card, u) && u.width() >= min_count && u.members().len()
                    >= min_length
            },
    decreases list.len(),
{
    let count = m.count(card.card);
    if list.len() > 0 {
        let rest = list.drop_last();
        assert(grown(m, card, rest)) by {
            assert forall|i: int| 0 <= i < rest.len() implies is_run(m, card, #[trigger] rest[i])
                && rest[i].len() >= 2 && (rest[i].drop_last() == seq![card] || exists|k: int|
                0 <= k < i && #[trigger] rest[k] == rest[i].drop_last()) by {
                assert(rest[i] == list[i]);
                if list[i].drop_last() != seq![card] {
                    let k = choose|k: int| 0 <= k < i && #[trigger] list[k] == list[i].drop_last();
                    assert(rest[k] == rest[i].drop_last());
                }
            }
        }
        lemma_tractors_among_sound(m, card, rest, min_count, min_length);
        let width = narrowest(m, count, list);
        lemma_narrowest(m, count, list);
        let last = list.len() - 1;
        let run = list[last];
        assert(is_run(m, card, run));
        assert forall|j: int| 0 <= j < run.len() implies m.count((#[trigger] run[j]).card)
            >= width by {
            if j > 0 {
                lemma_member_met(m, card, list, last, j);
                let k = choose|k: int| 0 <= k <= last && (#[trigger] list[k]).last() == run[j];
            }
        }
        let tractors = tractors_among(m, count, list, min_count, min_length);
        let fewer = tractors_among(m, count, rest, min_count, min_length);
        assert forall|i: int| 0 <= i < tractors.len() implies {
            let u = #[trigger] tractors[i];
            sound_tractor(m, card, u) && u.width() >= min_count && u.members().len() >= min_length
        } by {
            if i < fewer.len() {
                assert(tractors[i] == fewer[i]);
            } else {
                assert(tractors[i] == Unit::Tractor { count: width, members: run });
            }
        }
    }
}

/// The tractors found from a card are runs that start with it, as wide and as long as asked
/// for, and no wider than the cards allow.
pub proof fn tractors_are_sound(
    m: Multiset<Card>,
    card: OrderedCard,
    min_count: nat,
    min_length: nat,
)
    ensures
        forall|i: int|
            0 <= i < tractors_from(
                m,
                card,
                m.count(card.card),
                min_count,
                min_length,
            ).len() ==> {
                let u = #[trigger] tractors_from(
                    m,
                    card,
                    m.count(card.card),
                    min_count,
                    min_length,
                )[i];
                sound_tractor(m, card, u) && u.width() >= min_count && u.members().len()
                    >= min_length
            },
{
    let none: Seq<Seq<OrderedCard>> = seq![];
    let level = seq![seq![card]];
    lemma_runs_grown(m, card, none, level, 16);
    assert(none + runs(m, level, 16) =~= runs_from(m, card));
    lemma_tractors_among_sound(m, card, runs_from(m, card), min_count, min_length);
}

/// A tractor that starts with a card that is there has cards in it.
pub proof fn tractors_have_width(
    m: Multiset<Card>,
    card: OrderedCard,
    count: nat,
    min_count: nat,
    min_length: nat,
)
    requires
        count > 0,
    ensures
        forall|i: int|
            0 <= i < tractors_from(m, card, count, min_count, min_length).len() ==> (
            #[trigger] tractors_from(m, card, count, min_count, min_length)[i]).width() > 0,
{
    let none: Seq<Seq<OrderedCard>> = seq![];
    let level = seq![seq![card]];
    lemma_runs_grown(m, card, none, level, 16);
    assert(none + runs(m, level, 16) =~= runs_from(m, card));
    lemma_tractors_among_width(m, card, count, runs_from(m, card), min_count, min_length);
}

proof fn lemma_tractors_among_width(
    m: Multiset<Card>,
    card: OrderedCard,
    count: nat,
    list: Seq<Seq<OrderedCard>>,
    min_count: nat,
    min_length: nat,
)
    requires
        count > 0,
        forall|i: int|
            0 <= i < list.len() ==> is_run(m, card, #[trigger] list[i]) && list[i].len() >= 2,
    ensures
        narrowest(m, count, list) > 0,
        forall|i: int|
            0 <= i < tractors_among(m, count, list, min_count, min_length).len() ==> (
            #[trigger] tractors_among(m, count, list, min_count, min_length)[i]).width() > 0,
    decreases list.len(),
{
    if list.len() > 0 {
        let rest = list.drop_last();
        assert forall|i: int| 0 <= i < rest.len() implies is_run(m, card, #[trigger] rest[i])
            && rest[i].len() >= 2 by {
            assert(rest[i] == list[i]);
        }
        lemma_tractors_among_width(m, card, count, rest, min_count, min_length);
        let run = list[list.len() - 1];
        assert(is_run(m, card, run));
        assert(m.count(run[run.len() - 1].card) >= 2);
        let fewer = tractors_among(m, count, rest, min_count, min_length);
        let all = tractors_among(m, count, list, min_count, min_length);
        assert forall|i: int| 0 <= i < all.len() implies (#[trigger] all[i]).width() > 0 by {
            if i < fewer.len() {
                assert(all[i] == fewer[i]);
            }
        }
    }
}

/// `cards` belong to trump `t` and ascend without repetition.
pub open spec fn climbing(t: Trump, cards: Seq<OrderedCard>) -> bool {
    &&& forall|i: int| 0 <= i < cards.len() ==> (#[trigger] cards[i]).trump == t
    &&& forall|i: int, j: int|
        0 <= i < j < cards.len() ==> (#[trigger] cards[i]).rank() < (#[trigger] cards[j]).rank()
}

/// A run climbs.
pub proof fn lemma_run_climbs(m: Multiset<Card>, card: OrderedCard, run: Seq<OrderedCard>)
    requires
        is_run(m, card, run),
    ensures
        climbing(card.trump, run),
{
    let t = card.trump;
    assert forall|j: int| 0 <= j < run.len() implies (#[trigger] run[j]).trump == t && t.suit_of(
        run[j].card,
    ) == t.suit_of(card.card) && t.tier(run[j].card) == t.tier(card.card) + j by {
        lemma_run_tier(m, card, run, j);
    }
}

proof fn lemma_run_tier(m: Multiset<Card>, card: OrderedCard, run: Seq<OrderedCard>, j: int)
    requires
        is_run(m, card, run),
        0 <= j < run.len(),
    ensures
        run[j].trump == card.trump,
        card.trump.suit_of(run[j].card) == card.trump.suit_of(card.card),
        card.trump.tier(run[j].card) == card.trump.tier(card.card) + j,
    decreases j,
{
    if j > 0 {
        lemma_run_tier(m, card, run, j - 1);
        let i = run[j - 1].next().index_of(run[j]);
        lemma_next(run[j - 1], i);
    }
}

proof fn lemma_fringe_has(level: Seq<Seq<OrderedCard>>, a: int, card: OrderedCard)
    requires
        0 <= a < level.len(),
        level[a].last().next().contains(card),
    ensures
        fringe(level).contains((card, level[a])),
    decreases level.len(),
{
    let rest = fringe(level.drop_last());
    if a < level.len() - 1 {
        lemma_fringe_has(level.drop_last(), a, card);
        let j = rest.index_of((card, level[a]));
        assert(fringe(level)[j] == (card, level[a]));
    } else {
        let i = level[a].last().next().index_of(card);
        assert(ways_on(level[a])[i] == (card, level[a]));
        assert(fringe(level)[rest.len() + i] == (card, level[a]));
    }
}

proof fn lemma_extended_has(
    m: Multiset<Card>,
    ways: Seq<(OrderedCard, Seq<OrderedCard>)>,
    way: (OrderedCard, Seq<OrderedCard>),
)
    requires
        ways.contains(way),
        m.count(way.0.card) >= 2,
    ensures
        extended(m, ways).contains(way.1.push(way.0)),
    decreases ways.len(),
{
    let j = ways.index_of(way);
    let run = way.1.push(way.0);
    let rest = ways.drop_last();
    if j < ways.len() - 1 {
        assert(rest[j] == way);
        lemma_extended_has(m, rest, way);
        let k = extended(m, rest).index_of(run);
        assert(extended(m, ways)[k] == run);
    } else {
        assert(extended(m, ways)[extended(m, rest).len() as int] == run);
    }
}

/// A run is among those that continue a level which holds the first `k` cards of it.
proof fn lemma_run_reached(
    m: Multiset<Card>,
    card: OrderedCard,
    level: Seq<Seq<OrderedCard>>,
    depth: nat,
    run: Seq<OrderedCard>,
    k: int,
)
    requires
        is_run(m, card, run),
        0 < k < run.len() <= k + depth,
        level.contains(run.take(k)),
    ensures
        runs(m, level, depth).contains(run),
    decreases depth,
{
    let a = level.index_of(run.take(k));
    let next = extended(m, fringe(level));
    let later = runs(m, next, (depth - 1) as nat);
    assert(run.take(k).last() == run[k - 1]);
    assert(run[k - 1].next().contains(run[k]));
    lemma_fringe_has(level, a, run[k]);
    lemma_extended_has(m, fringe(level), (run[k], run.take(k)));
    assert(run.take(k).push(run[k]) =~= run.take(k + 1));
    if k + 1 == run.len() {
        assert(run.take(k + 1) =~= run);
        assert(runs(m, level, depth)[next.index_of(run)] == run);
    } else {
        lemma_run_reached(m, card, next, (depth - 1) as nat, run, k + 1);
        assert(runs(m, level, depth)[next.len() + later.index_of(run)] == run);
    }
}

/// The runs that are listed from a card are all the runs of two or more cards that start with
/// it.
pub proof fn runs_are_complete(m: Multiset<Card>, card: OrderedCard, run: Seq<OrderedCard>)
    ensures
        runs_from(m, card).contains(run) <==> is_run(m, card, run) && run.len() >= 2,
{
    let none: Seq<Seq<OrderedCard>> = seq![];
    let level = seq![seq![card]];
    if runs_from(m, card).contains(run) {
        lemma_runs_grown(m, card, none, level, 16);
        assert(none + runs(m, level, 16) =~= runs_from(m, card));
        assert(runs_from(m, card)[runs_from(m, card).index_of(run)] == run);
    }
    if is_run(m, card, run) && run.len() >= 2 {
        lemma_run_tier(m, card, run, run.len() - 1);
        lemma_rank_bounds(card.trump, card.card);
        lemma_rank_bounds(card.trump, run[run.len() - 1].card);
        assert(run.take(1) =~= seq![card]);
        assert(level[0] == run.take(1));
        lemma_run_reached(m, card, level, 16, run, 1);
    }
}

/// Each run of a list is found as a tractor, as wide as the narrowest card met up to it.
pub proof fn lemma_run_is_tractor(
    m: Multiset<Card>,
    count: nat,
    list: Seq<Seq<OrderedCard>>,
    min_count: nat,
    min_length: nat,
    i: int,
)
    requires
        0 <= i < list.len(),
        list[i].len() >= min_length,
        narrowest(m, count, list.take(i + 1)) >= min_count,
    ensures
        tractors_among(m, count, list, min_count, min_length).contains(
            Unit::Tractor { count: narrowest(m, count, list.take(i + 1)), members: list[i] },
        ),
    decreases list.len(),
{
    let u = Unit::Tractor { count: narrowest(m, count, list.take(i + 1)), members: list[i] };
    let rest = list.drop_last();
    let all = tractors_among(m, count, list, min_count, min_length);
    let fewer = tractors_among(m, count, rest, min_count, min_length);
    if i < list.len() - 1 {
        assert(rest.take(i + 1) =~= list.take(i + 1));
        assert(rest[i] == list[i]);
        lemma_run_is_tractor(m, count, rest, min_count, min_length, i);
        assert(all[fewer.index_of(u)] == u);
    } else {
        assert(list.take(i + 1) =~= list);
        assert(all[fewer.len() as int] == u);
    }
}

pub proof fn lemma_nowhere_narrower(
    m: Multiset<Card>,
    count: nat,
    list: Seq<Seq<OrderedCard>>,
    width: nat,
)
    requires
        count >= width,
        forall|k: int| 0 <= k < list.len() ==> m.count((#[trigger] list[k]).last().card) >= width,
    ensures
        narrowest(m, count, list) >= width,
    decreases list.len(),
{
    if list.len() > 0 {
        let rest = list.drop_last();
        assert forall|k: int| 0 <= k < rest.len() implies m.count(
            (#[trigger] rest[k]).last().card,
        ) >= width by {
            assert(rest[k] == list[k]);
        }
        lemma_nowhere_narrower(m, count, rest, width);
        assert(list[list.len() - 1] == list.last());
    }
}

/// The last card of a run is one of the cards from the first card upwards.
proof fn lemma_run_end(m: Multiset<Card>, card: OrderedCard, run: Seq<OrderedCard>)
    requires
        runs_from(m, card).contains(run),
    ensures
        m.count(run.last().card) > 0,
        card.trump.rank(run.last().card) >= card.rank(),
{
    runs_are_complete(m, card, run);
    lemma_run_climbs(m, card, run);
    let end = run.len() - 1;
    assert(m.count(run[end].card) >= 2);
    assert(run[0].rank() < run[end].rank());
}

/// What a run is narrowed to is no more than any of its members.
proof fn lemma_narrowed(m: Multiset<Card>, card: OrderedCard, i: int, j: int)
    requires
        0 <= i < runs_from(m, card).len(),
        0 <= j < runs_from(m, card)[i].len(),
    ensures
        narrowest(m, m.count(card.card), runs_from(m, card).take(i + 1)) <= m.count(
            runs_from(m, card)[i][j].card,
        ),
{
    let list = runs_from(m, card);
    let met = list.take(i + 1);
    lemma_narrowest(m, m.count(card.card), met);
    assert(list.contains(list[i]));
    runs_are_complete(m, card, list[i]);
    if j > 0 {
        let none: Seq<Seq<OrderedCard>> = seq![];
        let level = seq![seq![card]];
        lemma_runs_grown(m, card, none, level, 16);
        assert(none + runs(m, level, 16) =~= list);
        lemma_member_met(m, card, list, i, j);
        let k = choose|k: int| 0 <= k <= i && (#[trigger] list[k]).last() == list[i][j];
        assert(met[k] == list[k]);
    }
}

/// A run makes a tractor of the width of its narrowest member, provided that none of the cards
/// from its first card upwards occurs less often.
pub proof fn runs_make_tractors(
    m: Multiset<Card>,
    run: Seq<OrderedCard>,
    width: nat,
    j: int,
    min_count: nat,
    min_length: nat,
)
    requires
        run.len() >= 2,
        run.len() >= min_length,
        width >= min_count,
        is_run(m, run[0], run),
        m.count(run[0].card) > 0,
        0 <= j < run.len(),
        m.count(run[j].card) == width,
        forall|c: Card| #[trigger]
            m.count(c) > 0 && run[0].trump.rank(c) >= run[0].rank() ==> m.count(c) >= width,
    ensures
        tractors_from(m, run[0], m.count(run[0].card), min_count, min_length).contains(
            Unit::Tractor { count: width, members: run },
        ),
{
    let card = run[0];
    let count = m.count(card.card);
    let list = runs_from(m, card);
    runs_are_complete(m, card, run);
    let i = list.index_of(run);
    let met = list.take(i + 1);
    assert forall|k: int| 0 <= k < met.len() implies m.count((#[trigger] met[k]).last().card)
        >= width by {
        assert(met[k] == list[k]);
        lemma_run_end(m, card, list[k]);
    }
    lemma_nowhere_narrower(m, count, met, width);
    lemma_narrowed(m, card, i, j);
    lemma_run_is_tractor(m, count, list, min_count, min_length, i);
}

} // verus!

//! Laws of finding tractors, units of given shapes, and ways to split cards.

use crate::tractor::{
    extended, fringe, is_run, lemma_extended_origin, lemma_fringe_origin, lemma_narrowest,
    lemma_nowhere_narrower, lemma_run_climbs, lemma_run_is_tractor, narrowest, runs,
    runs_are_complete, runs_from, tractors_among, tractors_from,
};
use crate::types::{Card, Trump};
use crate::unit::{OrderedCard, Unit};
use vstd::multiset::Multiset;
use vstd::prelude::*;

verus! {

broadcast use {vstd::multiset::group_multiset_axioms, vstd::seq_lib::group_to_multiset_ensures};

/// `run` goes from each card to one of its successors under trump `t`.
pub open spec fn consecutive(t: Trump, run: Seq<OrderedCard>) -> bool {
    &&& forall|j: int| 0 <= j < run.len() ==> (#[trigger] run[j]).trump == t
    &&& forall|i: int, j: int|
        0 <= i < j < run.len() && j == i + 1 ==> t.successors((#[trigger] run[i]).card).contains(
            (#[trigger] run[j]).card,
        )
}

/// All cards of `run` but perhaps the first occur at least twice.
pub open spec fn paired(m: Multiset<Card>, run: Seq<OrderedCard>) -> bool {
    forall|j: int| 0 < j < run.len() ==> m.count((#[trigger] run[j]).card) >= 2
}

/// A run is consecutive.
pub proof fn lemma_run_is_consecutive(m: Multiset<Card>, card: OrderedCard, run: Seq<OrderedCard>)
    requires
        is_run(m, card, run),
    ensures
        consecutive(card.trump, run),
        paired(m, run),
{
    let t = card.trump;
    lemma_run_climbs(m, card, run);
    assert forall|i: int, j: int| 0 <= i < j < run.len() && j == i + 1 implies t.successors(
        (#[trigger] run[i]).card,
    ).contains((#[trigger] run[j]).card) by {
        assert(run[j - 1].next().contains(run[j]));
        lemma_next_contains(run[i], run[j]);
    }
}

/// Consecutive cards that occur twice make a run.
pub proof fn lemma_consecutive_is_run(m: Multiset<Card>, t: Trump, run: Seq<OrderedCard>)
    requires
        run.len() > 0,
        consecutive(t, run),
        paired(m, run),
    ensures
        is_run(m, run[0], run),
{
    assert forall|j: int| 0 < j < run.len() implies run[j - 1].next().contains(
        #[trigger] run[j],
    ) && m.count(run[j].card) >= 2 by {
        let before = run[j - 1];
        assert(before.trump == t);
        assert(t.successors(before.card).contains(run[j].card));
        lemma_next_contains(before, run[j]);
    }
}

proof fn lemma_next_contains(card: OrderedCard, d: OrderedCard)
    ensures
        card.next().contains(d) <==> d.trump == card.trump && card.trump.successors(
            card.card,
        ).contains(d.card),
{
    crate::laws::units::what_comes_next(card);
}

/// Every run of two or more cards from a card is found as a tractor, unless it is too short or a
/// card from there upwards, held at least twice, falls short of the width asked for.
pub proof fn runs_are_found(
    m: Multiset<Card>,
    card: OrderedCard,
    count: nat,
    min_count: nat,
    min_length: nat,
    run: Seq<OrderedCard>,
)
    requires
        run.len() >= 2,
        run.len() >= min_length,
        run[0] == card,
        consecutive(card.trump, run),
        count >= min_count,
        paired(m, run),
        forall|c: Card| #[trigger]
            m.count(c) >= 2 && card.trump.rank(c) > card.trump.rank(card.card) ==> m.count(c)
                >= min_count,
    ensures
        exists|width: nat|
            #[trigger] tractors_from(m, card, count, min_count, min_length).contains(
                Unit::Tractor { count: width, members: run },
            ),
{
    let list = runs_from(m, card);
    lemma_consecutive_is_run(m, card.trump, run);
    runs_are_complete(m, card, run);
    let i = list.index_of(run);
    let met = list.take(i + 1);
    assert forall|k: int| 0 <= k < met.len() implies m.count((#[trigger] met[k]).last().card)
        >= min_count by {
        assert(met[k] == list[k]);
        lemma_ends_higher(m, card, list[k]);
    }
    lemma_nowhere_narrower(m, count, met, min_count);
    lemma_run_is_tractor(m, count, list, min_count, min_length, i);
    let width = narrowest(m, count, met);
    assert(tractors_from(m, card, count, min_count, min_length).contains(
        Unit::Tractor { count: width, members: run },
    ));
}

proof fn lemma_ends_higher(m: Multiset<Card>, card: OrderedCard, run: Seq<OrderedCard>)
    requires
        runs_from(m, card).contains(run),
    ensures
        m.count(run.last().card) >= 2,
        card.trump.rank(run.last().card) > card.trump.rank(card.card),
{
    runs_are_complete(m, card, run);
    lemma_run_climbs(m, card, run);
    let end = run.len() - 1;
    assert(m.count(run[end].card) >= 2);
    assert(run[0].rank() < run[end].rank());
    assert(run[end].trump == card.trump);
}

/// `x` comes before `y` where they first differ.
pub open spec fn sooner(t: Trump, x: Seq<OrderedCard>, y: Seq<OrderedCard>) -> bool {
    x.len() == y.len() && exists|k: int|
        0 <= k < x.len() && #[trigger] x.take(k) == y.take(k) && t.rank(x[k].card) < t.rank(
            y[k].card,
        )
}

/// Shorter runs come first, and of equally long ones the one that is lower where they first
/// differ.
pub open spec fn listed_before(t: Trump, x: Seq<OrderedCard>, y: Seq<OrderedCard>) -> bool {
    x.len() < y.len() || sooner(t, x, y)
}

spec fn in_turn(t: Trump, level: Seq<Seq<OrderedCard>>, length: nat) -> bool {
    &&& forall|i: int|
        0 <= i < level.len() ==> (#[trigger] level[i]).len() == length && level[i].last().trump == t
    &&& forall|i: int, j: int|
        0 <= i < j < level.len() ==> sooner(t, #[trigger] level[i], #[trigger] level[j])
}

spec fn ways_in_turn(
    t: Trump,
    ways: Seq<(OrderedCard, Seq<OrderedCard>)>,
    length: nat,
) -> bool {
    &&& forall|i: int|
        0 <= i < ways.len() ==> (#[trigger] ways[i]).1.len() == length && ways[i].0.trump == t
    &&& forall|i: int, j: int|
        0 <= i < j < ways.len() ==> sooner(t, (#[trigger] ways[i]).1, (#[trigger] ways[j]).1)
            || ways[i].1 == ways[j].1 && t.rank(ways[i].0.card) < t.rank(ways[j].0.card)
}

proof fn lemma_ways_in_turn(t: Trump, level: Seq<Seq<OrderedCard>>, length: nat)
    requires
        in_turn(t, level, length),
    ensures
        ways_in_turn(t, fringe(level), length),
    decreases level.len(),
{
    if level.len() > 0 {
        let rest = level.drop_last();
        let last = level.last();
        let end = level.len() - 1;
        assert(last == level[end]);
        assert forall|i: int| 0 <= i < rest.len() implies (#[trigger] rest[i]).len() == length
            && rest[i].last().trump == t by {
            assert(rest[i] == level[i]);
        }
        assert forall|i: int, j: int| 0 <= i < j < rest.len() implies sooner(
            t,
            #[trigger] rest[i],
            #[trigger] rest[j],
        ) by {
            assert(rest[i] == level[i] && rest[j] == level[j]);
        }
        lemma_ways_in_turn(t, rest, length);
        let ways = fringe(level);
        let n = fringe(rest).len();
        let next = last.last().next();
        crate::laws::units::what_comes_next(last.last());
        assert forall|i: int| 0 <= i < ways.len() implies (#[trigger] ways[i]).1.len() == length
            && ways[i].0.trump == t by {
            if i < n {
                assert(ways[i] == fringe(rest)[i]);
            } else {
                assert(ways[i].0 == next[i - n]);
                assert(next.contains(next[i - n]));
            }
        }
        assert forall|i: int, j: int| 0 <= i < j < ways.len() implies sooner(
            t,
            (#[trigger] ways[i]).1,
            (#[trigger] ways[j]).1,
        ) || ways[i].1 == ways[j].1 && t.rank(ways[i].0.card) < t.rank(ways[j].0.card) by {
            if j < n {
                assert(ways[i] == fringe(rest)[i] && ways[j] == fringe(rest)[j]);
            } else if i < n {
                assert(ways[i] == fringe(rest)[i]);
                lemma_fringe_origin(rest, i);
                let a = choose|a: int|
                    0 <= a < rest.len() && #[trigger] rest[a] == fringe(rest)[i].1
                        && rest[a].last().next().contains(fringe(rest)[i].0);
                assert(rest[a] == level[a]);
                assert(ways[j].1 == level[end]);
                assert(sooner(t, level[a], level[end]));
            } else {
                assert(ways[i].0 == next[i - n] && ways[j].0 == next[j - n]);
                assert(ways[i].1 == last && ways[j].1 == last);
            }
        }
    }
}

proof fn lemma_push_sooner(
    t: Trump,
    a: (OrderedCard, Seq<OrderedCard>),
    b: (OrderedCard, Seq<OrderedCard>),
)
    requires
        sooner(t, a.1, b.1) || a.1 == b.1 && t.rank(a.0.card) < t.rank(b.0.card),
    ensures
        sooner(t, a.1.push(a.0), b.1.push(b.0)),
{
    let x = a.1.push(a.0);
    let y = b.1.push(b.0);
    if sooner(t, a.1, b.1) {
        let k = choose|k: int|
            0 <= k < a.1.len() && #[trigger] a.1.take(k) == b.1.take(k) && t.rank(a.1[k].card)
                < t.rank(b.1[k].card);
        assert(x.take(k) =~= a.1.take(k));
        assert(y.take(k) =~= b.1.take(k));
        assert(x.take(k) == y.take(k));
    } else {
        let k = a.1.len() as int;
        assert(x.take(k) =~= a.1);
        assert(y.take(k) =~= b.1);
        assert(x.take(k) == y.take(k));
    }
}

proof fn lemma_extended_in_turn(
    t: Trump,
    m: Multiset<Card>,
    ways: Seq<(OrderedCard, Seq<OrderedCard>)>,
    length: nat,
)
    requires
        ways_in_turn(t, ways, length),
    ensures
        in_turn(t, extended(m, ways), length + 1),
    decreases ways.len(),
{
    if ways.len() > 0 {
        let rest = ways.drop_last();
        let end = ways.len() - 1;
        assert forall|i: int| 0 <= i < rest.len() implies (#[trigger] rest[i]).1.len() == length
            && rest[i].0.trump == t by {
            assert(rest[i] == ways[i]);
        }
        assert forall|i: int, j: int| 0 <= i < j < rest.len() implies sooner(
            t,
            (#[trigger] rest[i]).1,
            (#[trigger] rest[j]).1,
        ) || rest[i].1 == rest[j].1 && t.rank(rest[i].0.card) < t.rank(rest[j].0.card) by {
            assert(rest[i] == ways[i] && rest[j] == ways[j]);
        }
        lemma_extended_in_turn(t, m, rest, length);
        let before = extended(m, rest);
        let all = extended(m, ways);
        assert(ways[end] == ways.last());
        assert forall|i: int| 0 <= i < all.len() implies (#[trigger] all[i]).len() == length + 1
            && all[i].last().trump == t by {
            if i < before.len() {
                assert(all[i] == before[i]);
            }
        }
        assert forall|i: int, j: int| 0 <= i < j < all.len() implies sooner(
            t,
            #[trigger] all[i],
            #[trigger] all[j],
        ) by {
            assert(all[i] == before[i]);
            if j < before.len() {
                assert(all[j] == before[j]);
            } else {
                lemma_extended_origin(m, rest, i);
                let a = choose|a: int|
                    0 <= a < rest.len() && extended(m, rest)[i] == (#[trigger] rest[a]).1.push(
                        rest[a].0,
                    ) && m.count(rest[a].0.card) >= 2;
                assert(rest[a] == ways[a]);
                lemma_push_sooner(t, ways[a], ways[end]);
            }
        }
    }
}

proof fn lemma_runs_in_turn(
    t: Trump,
    m: Multiset<Card>,
    level: Seq<Seq<OrderedCard>>,
    length: nat,
    depth: nat,
)
    requires
        in_turn(t, level, length),
    ensures
        forall|i: int|
            0 <= i < runs(m, level, depth).len() ==> (#[trigger] runs(m, level, depth)[i]).len()
                > length,
        forall|i: int, j: int|
            0 <= i < j < runs(m, level, depth).len() ==> listed_before(
                t,
                #[trigger] runs(m, level, depth)[i],
                #[trigger] runs(m, level, depth)[j],
            ),
    decreases depth,
{
    if depth > 0 {
        let next = extended(m, fringe(level));
        let later = runs(m, next, (depth - 1) as nat);
        let all = runs(m, level, depth);
        lemma_ways_in_turn(t, level, length);
        lemma_extended_in_turn(t, m, fringe(level), length);
        lemma_runs_in_turn(t, m, next, length + 1, (depth - 1) as nat);
        assert forall|i: int| 0 <= i < all.len() implies (#[trigger] all[i]).len() > length by {
            if i < next.len() {
                assert(all[i] == next[i]);
            } else {
                assert(all[i] == later[i - next.len()]);
            }
        }
        assert forall|i: int, j: int| 0 <= i < j < all.len() implies listed_before(
            t,
            #[trigger] all[i],
            #[trigger] all[j],
        ) by {
            if j < next.len() {
                assert(all[i] == next[i] && all[j] == next[j]);
            } else if i < next.len() {
                assert(all[i] == next[i] && all[j] == later[j - next.len()]);
            } else {
                assert(all[i] == later[i - next.len()] && all[j] == later[j - next.len()]);
            }
        }
    }
}

/// The runs from a card are listed the shorter first.
pub proof fn lemma_runs_listed(m: Multiset<Card>, card: OrderedCard)
    ensures
        forall|i: int, j: int|
            0 <= i < j < runs_from(m, card).len() ==> listed_before(
                card.trump,
                #[trigger] runs_from(m, card)[i],
                #[trigger] runs_from(m, card)[j],
            ),
{
    let level = seq![seq![card]];
    assert(in_turn(card.trump, level, 1));
    lemma_runs_in_turn(card.trump, m, level, 1, 16);
}

/// Where a tractor that is listed comes from.
proof fn lemma_tractor_origin(
    m: Multiset<Card>,
    count: nat,
    list: Seq<Seq<OrderedCard>>,
    min_count: nat,
    min_length: nat,
    i: int,
) -> (a: int)
    requires
        0 <= i < tractors_among(m, count, list, min_count, min_length).len(),
    ensures
        i <= a < list.len(),
        tractors_among(m, count, list, min_count, min_length)[i] == (Unit::Tractor {
            count: narrowest(m, count, list.take(a + 1)),
            members: list[a],
        }),
        narrowest(m, count, list.take(a + 1)) >= min_count,
        list[a].len() >= min_length,
        i == tractors_among(m, count, list.take(a), min_count, min_length).len(),
    decreases list.len(),
{
    let rest = list.drop_last();
    let before = tractors_among(m, count, rest, min_count, min_length);
    let end = list.len() - 1;
    lemma_tractors_fewer(m, count, rest, min_count, min_length);
    if i < before.len() {
        let a = lemma_tractor_origin(m, count, rest, min_count, min_length, i);
        assert(rest.take(a + 1) =~= list.take(a + 1));
        assert(rest.take(a) =~= list.take(a));
        a
    } else {
        assert(list.take(end + 1) =~= list);
        assert(list.take(end) =~= rest);
        end
    }
}

proof fn lemma_tractors_fewer(
    m: Multiset<Card>,
    count: nat,
    list: Seq<Seq<OrderedCard>>,
    min_count: nat,
    min_length: nat,
)
    ensures
        tractors_among(m, count, list, min_count, min_length).len() <= list.len(),
    decreases list.len(),
{
    if list.len() > 0 {
        lemma_tractors_fewer(m, count, list.drop_last(), min_count, min_length);
    }
}

proof fn lemma_tractors_grow(
    m: Multiset<Card>,
    count: nat,
    list: Seq<Seq<OrderedCard>>,
    min_count: nat,
    min_length: nat,
    a: int,
)
    requires
        0 <= a <= list.len(),
    ensures
        tractors_among(m, count, list.take(a), min_count, min_length).len() <= tractors_among(
            m,
            count,
            list,
            min_count,
            min_length,
        ).len(),
    decreases list.len(),
{
    if a < list.len() {
        lemma_tractors_grow(m, count, list.drop_last(), min_count, min_length, a);
        assert(list.drop_last().take(a) =~= list.take(a));
    } else {
        assert(list.take(a) =~= list);
    }
}

proof fn lemma_narrows(m: Multiset<Card>, count: nat, list: Seq<Seq<OrderedCard>>, a: int)
    requires
        0 <= a <= list.len(),
    ensures
        narrowest(m, count, list) <= narrowest(m, count, list.take(a)),
    decreases list.len(),
{
    if a < list.len() {
        lemma_narrows(m, count, list.drop_last(), a);
        assert(list.drop_last().take(a) =~= list.take(a));
    } else {
        assert(list.take(a) =~= list);
    }
}

proof fn lemma_narrowest_met(m: Multiset<Card>, count: nat, list: Seq<Seq<OrderedCard>>)
    ensures
        narrowest(m, count, list) == count || exists|k: int|
            0 <= k < list.len() && m.count((#[trigger] list[k]).last().card) == narrowest(
                m,
                count,
                list,
            ),
    decreases list.len(),
{
    if list.len() > 0 {
        let rest = list.drop_last();
        let end = list.len() - 1;
        lemma_narrowest_met(m, count, rest);
        if m.count(list[end].last().card) < narrowest(m, count, rest) {
            assert(m.count(list[end].last().card) == narrowest(m, count, list));
        } else if narrowest(m, count, rest) != count {
            let k = choose|k: int|
                0 <= k < rest.len() && m.count((#[trigger] rest[k]).last().card) == narrowest(
                    m,
                    count,
                    rest,
                );
            assert(list[k] == rest[k]);
        }
    }
}

/// A tractor that is listed starts with the card, goes on from successor to successor through
/// cards that occur at least twice, and is as wide and as long as asked for.
pub proof fn what_tractors_are(
    m: Multiset<Card>,
    card: OrderedCard,
    count: nat,
    min_count: nat,
    min_length: nat,
    i: int,
)
    requires
        0 <= i < tractors_from(m, card, count, min_count, min_length).len(),
    ensures
        match tractors_from(m, card, count, min_count, min_length)[i] {
            Unit::Tractor { count: width, members } => {
                &&& members.len() >= 2
                &&& members.len() >= min_length
                &&& min_count <= width <= count
                &&& members[0] == card
                &&& consecutive(card.trump, members)
                &&& paired(m, members)
                &&& forall|j: int|
                    0 < j < members.len() ==> width <= m.count((#[trigger] members[j]).card)
            },
            Unit::Repeated { .. } => false,
        },
{
    let list = runs_from(m, card);
    let a = lemma_tractor_origin(m, count, list, min_count, min_length, i);
    let run = list[a];
    assert(list.contains(run));
    runs_are_complete(m, card, run);
    lemma_run_is_consecutive(m, card, run);
    let width = narrowest(m, count, list.take(a + 1));
    lemma_narrowest(m, count, list.take(a + 1));
    assert forall|j: int| 0 < j < run.len() implies width <= m.count(
        (#[trigger] run[j]).card,
    ) by {
        lemma_narrowed_by_member(m, card, count, a, j);
    }
}

proof fn lemma_take_consecutive(m: Multiset<Card>, t: Trump, run: Seq<OrderedCard>, n: int)
    requires
        0 <= n <= run.len(),
        consecutive(t, run),
        paired(m, run),
    ensures
        consecutive(t, run.take(n)),
        paired(m, run.take(n)),
{
    let part = run.take(n);
    assert forall|j: int| 0 <= j < part.len() implies #[trigger] part[j] == run[j] by {}
    assert forall|i: int, j: int| 0 <= i < j < part.len() && j == i + 1 implies t.successors(
        (#[trigger] part[i]).card,
    ).contains((#[trigger] part[j]).card) by {
        assert(t.successors(run[i].card).contains(run[j].card));
    }
}

proof fn lemma_narrowed_by_member(
    m: Multiset<Card>,
    card: OrderedCard,
    count: nat,
    a: int,
    j: int,
)
    requires
        0 <= a < runs_from(m, card).len(),
        0 < j < runs_from(m, card)[a].len(),
    ensures
        narrowest(m, count, runs_from(m, card).take(a + 1)) <= m.count(
            runs_from(m, card)[a][j].card,
        ),
{
    let run = runs_from(m, card)[a];
    assert(runs_from(m, card).contains(run));
    runs_are_complete(m, card, run);
    lemma_run_is_consecutive(m, card, run);
    lemma_take_consecutive(m, card.trump, run, j + 1);
    lemma_narrowed_by(m, card, count, a, run.take(j + 1));
    assert(run.take(j + 1).last() == run[j]);
}

/// A run that is listed no later narrows the ones behind it.
proof fn lemma_narrowed_by(
    m: Multiset<Card>,
    card: OrderedCard,
    count: nat,
    a: int,
    run: Seq<OrderedCard>,
)
    requires
        0 <= a < runs_from(m, card).len(),
        run.len() >= 2,
        run[0] == card,
        consecutive(card.trump, run),
        paired(m, run),
        run.len() < runs_from(m, card)[a].len() || run == runs_from(m, card)[a] || (run.len()
            <= runs_from(m, card)[a].len() && run == runs_from(m, card)[a].take(
            run.len() as int,
        )),
    ensures
        narrowest(m, count, runs_from(m, card).take(a + 1)) <= m.count(run.last().card),
{
    let list = runs_from(m, card);
    if run.len() == list[a].len() {
        assert(list[a].take(run.len() as int) =~= list[a]);
    }
    lemma_consecutive_is_run(m, card.trump, run);
    runs_are_complete(m, card, run);
    lemma_runs_listed(m, card);
    let k = list.index_of(run);
    assert(list[k] == run);
    if k > a {
        assert(listed_before(card.trump, list[a], list[k]));
        if run.len() == list[a].len() {
            lemma_not_sooner(card.trump, run);
        }
    }
    let met = list.take(a + 1);
    assert(met[k] == list[k]);
    lemma_narrowest(m, count, met);
}

proof fn lemma_not_sooner(t: Trump, x: Seq<OrderedCard>)
    ensures
        !sooner(t, x, x),
{
}

/// Tractors are listed the shorter first, and of equally long ones the one that is lower where
/// they first differ. None is wider than one listed before it: a narrow run narrows all that
/// come behind it.
pub proof fn the_order_of_tractors(
    m: Multiset<Card>,
    card: OrderedCard,
    count: nat,
    min_count: nat,
    min_length: nat,
    i: int,
    j: int,
)
    requires
        0 <= i < j < tractors_from(m, card, count, min_count, min_length).len(),
    ensures
        ({
            let list = tractors_from(m, card, count, min_count, min_length);
            &&& listed_before(card.trump, list[i].members(), list[j].members())
            &&& list[i].width() >= list[j].width()
        }),
{
    let list = runs_from(m, card);
    let a = lemma_tractor_origin(m, count, list, min_count, min_length, i);
    let b = lemma_tractor_origin(m, count, list, min_count, min_length, j);
    if b < a {
        lemma_tractors_grow(m, count, list.take(a), min_count, min_length, b);
        assert(list.take(a).take(b) =~= list.take(b));
    } else if a == b {
        assert(i == j);
    }
    lemma_runs_listed(m, card);
    lemma_narrows(m, count, list.take(b + 1), a + 1);
    assert(list.take(b + 1).take(a + 1) =~= list.take(a + 1));
}

/// A tractor is no wider than any shorter run from the same card allows, where each card of it
/// but the first occurs at least twice.
pub proof fn shorter_runs_narrow(
    m: Multiset<Card>,
    card: OrderedCard,
    count: nat,
    min_count: nat,
    min_length: nat,
    i: int,
    run: Seq<OrderedCard>,
)
    requires
        0 <= i < tractors_from(m, card, count, min_count, min_length).len(),
        run.len() >= 2,
        run[0] == card,
        consecutive(card.trump, run),
        paired(m, run),
        run.len() < tractors_from(m, card, count, min_count, min_length)[i].members().len(),
    ensures
        tractors_from(m, card, count, min_count, min_length)[i].width() <= m.count(
            run.last().card,
        ),
{
    let a = lemma_tractor_origin(m, count, runs_from(m, card), min_count, min_length, i);
    lemma_narrowed_by(m, card, count, a, run);
}

/// A tractor is as wide as can be: as wide as there are copies of its first card, or as one of the
/// runs from it, no longer than the tractor, allows.
pub proof fn how_wide_tractors_are(
    m: Multiset<Card>,
    card: OrderedCard,
    count: nat,
    min_count: nat,
    min_length: nat,
    i: int,
)
    requires
        0 <= i < tractors_from(m, card, count, min_count, min_length).len(),
    ensures
        ({
            let u = tractors_from(m, card, count, min_count, min_length)[i];
            u.width() == count || exists|run: Seq<OrderedCard>|
                {
                    &&& #[trigger] consecutive(card.trump, run)
                    &&& paired(m, run)
                    &&& 2 <= run.len() <= u.members().len()
                    &&& run[0] == card
                    &&& m.count(run.last().card) == u.width()
                }
        }),
{
    let list = runs_from(m, card);
    let a = lemma_tractor_origin(m, count, list, min_count, min_length, i);
    let met = list.take(a + 1);
    let width = narrowest(m, count, met);
    lemma_narrowest_met(m, count, met);
    if width != count {
        let k = choose|k: int|
            0 <= k < met.len() && m.count((#[trigger] met[k]).last().card) == width;
        let run = list[k];
        assert(met[k] == run);
        assert(list.contains(run));
        runs_are_complete(m, card, run);
        lemma_run_is_consecutive(m, card, run);
        lemma_runs_listed(m, card);
        if k < a {
            assert(listed_before(card.trump, list[k], list[a]));
        }
        assert(consecutive(card.trump, run));
    }
}

/// There are no tractors where there are too few copies of the first card.
pub proof fn too_few_copies(
    m: Multiset<Card>,
    card: OrderedCard,
    count: nat,
    min_count: nat,
    min_length: nat,
)
    requires
        count < min_count,
    ensures
        tractors_from(m, card, count, min_count, min_length).len() == 0,
{
}

} // verus!

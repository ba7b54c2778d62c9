//! Laws of finding units of given shapes, and of splitting cards into units.

use crate::counts::{ascending, lemma_ascending};
use crate::plays::{first_of_size, plays, plays_after, starts};
use crate::search::{
    arranged, arrangement_has_the_shapes, candidates, first_among, first_fit, repeats_over,
    search_is_complete, total, tractors_over,
};
use crate::tractor::tractors_from;
use crate::types::{rank_is_injective, Card, Trump};
use crate::unit::{OrderedCard, Unit, UnitLike};
use vstd::multiset::Multiset;
use vstd::prelude::*;

verus! {

broadcast use {vstd::multiset::group_multiset_axioms, vstd::seq_lib::group_to_multiset_ensures};

/// What stands for repeated cards: as many copies of each card that is there at least as often,
/// the lower cards first.
pub proof fn what_stands_for_repeated_cards(t: Trump, m: Multiset<Card>, count: usize)
    ensures
        candidates(t, m, UnitLike::Repeated { count }) == ascending(t, m).filter(
            |c: Card| m.count(c) >= count,
        ).map_values(
            |c: Card| Unit::Repeated { count: count as nat, card: OrderedCard { card: c, trump: t } },
        ),
{
    lemma_repeats(t, m, ascending(t, m), count);
}

proof fn lemma_repeats(t: Trump, m: Multiset<Card>, cards: Seq<Card>, count: usize)
    ensures
        repeats_over(t, m, cards, count as nat) == cards.filter(
            |c: Card| m.count(c) >= count,
        ).map_values(
            |c: Card| Unit::Repeated { count: count as nat, card: OrderedCard { card: c, trump: t } },
        ),
    decreases cards.len(),
{
    reveal(Seq::filter);
    let enough = |c: Card| m.count(c) >= count;
    let unit = |c: Card|
        Unit::Repeated { count: count as nat, card: OrderedCard { card: c, trump: t } };
    if cards.len() == 0 {
        assert(cards.filter(enough).map_values(unit) =~= seq![]);
    } else {
        lemma_repeats(t, m, cards.drop_last(), count);
        assert(repeats_over(t, m, cards, count as nat) =~= cards.filter(enough).map_values(unit));
    }
}

/// What stands for a tractor: the tractors at least as wide and as long from each card that is
/// there, the lower cards first.
pub proof fn what_stands_for_a_tractor(t: Trump, m: Multiset<Card>, count: usize, length: usize)
    ensures
        candidates(t, m, UnitLike::Tractor { count, length }) == ascending(t, m).map_values(
            |c: Card|
                tractors_from(
                    m,
                    OrderedCard { card: c, trump: t },
                    m.count(c),
                    count as nat,
                    length as nat,
                ),
        ).flatten(),
{
    let from = |c: Card|
        tractors_from(
            m,
            OrderedCard { card: c, trump: t },
            m.count(c),
            count as nat,
            length as nat,
        );
    lemma_tractors_over(t, m, ascending(t, m), count, length);
    ascending(t, m).map_values(from).lemma_flatten_and_flatten_alt_are_equivalent();
}

proof fn lemma_tractors_over(
    t: Trump,
    m: Multiset<Card>,
    cards: Seq<Card>,
    count: usize,
    length: usize,
)
    ensures
        tractors_over(t, m, cards, count as nat, length as nat) == cards.map_values(
            |c: Card|
                tractors_from(
                    m,
                    OrderedCard { card: c, trump: t },
                    m.count(c),
                    count as nat,
                    length as nat,
                ),
        ).flatten_alt(),
    decreases cards.len(),
{
    let from = |c: Card|
        tractors_from(
            m,
            OrderedCard { card: c, trump: t },
            m.count(c),
            count as nat,
            length as nat,
        );
    if cards.len() > 0 {
        lemma_tractors_over(t, m, cards.drop_last(), count, length);
        assert(cards.map_values(from).drop_last() =~= cards.drop_last().map_values(from));
        assert(cards.map_values(from).last() == from(cards.last()));
    } else {
        assert(cards.map_values(from).flatten_alt() =~= seq![]);
    }
}

/// The search takes for the first shape the first candidate that leaves enough for the others,
/// and lists it behind what it finds for those. It fails only where every candidate fails.
pub proof fn how_the_search_goes(t: Trump, m: Multiset<Card>, shapes: Seq<UnitLike>)
    ensures
        shapes.len() == 0 ==> first_fit(t, m, shapes) == Some(Seq::<Unit>::empty()),
        shapes.len() > 0 ==> match first_fit(t, m, shapes) {
            Some(found) => {
                let list = candidates(t, m, shapes[0]);
                &&& found.len() > 0
                &&& exists|k: int|
                    {
                        &&& 0 <= k < list.len()
                        &&& #[trigger] list[k] == found.last()
                        &&& first_fit(t, m.sub(list[k].tally()), shapes.skip(1)) == Some(
                            found.drop_last(),
                        )
                        &&& forall|j: int|
                            0 <= j < k ==> first_fit(
                                t,
                                m.sub((#[trigger] list[j]).tally()),
                                shapes.skip(1),
                            ) is None
                    }
            },
            None => forall|j: int|
                0 <= j < candidates(t, m, shapes[0]).len() ==> first_fit(
                    t,
                    m.sub((#[trigger] candidates(t, m, shapes[0])[j]).tally()),
                    shapes.skip(1),
                ) is None,
        },
{
    if shapes.len() > 0 {
        lemma_first_among(t, m, candidates(t, m, shapes[0]), shapes.skip(1));
    }
}

proof fn lemma_first_among(t: Trump, m: Multiset<Card>, list: Seq<Unit>, rest: Seq<UnitLike>)
    ensures
        match first_among(t, m, list, rest) {
            Some(found) => found.len() > 0 && exists|k: int|
                {
                    &&& 0 <= k < list.len()
                    &&& #[trigger] list[k] == found.last()
                    &&& first_fit(t, m.sub(list[k].tally()), rest) == Some(found.drop_last())
                    &&& forall|j: int|
                        0 <= j < k ==> first_fit(
                            t,
                            m.sub((#[trigger] list[j]).tally()),
                            rest,
                        ) is None
                },
            None => forall|j: int|
                0 <= j < list.len() ==> first_fit(
                    t,
                    m.sub((#[trigger] list[j]).tally()),
                    rest,
                ) is None,
        },
    decreases list.len(),
{
    if list.len() > 0 {
        let more = list.skip(1);
        match first_fit(t, m.sub(list[0].tally()), rest) {
            Some(sub) => {
                let found = sub.push(list[0]);
                assert(found.drop_last() =~= sub);
                assert(list[0] == found.last());
            },
            None => {
                lemma_first_among(t, m, more, rest);
                match first_among(t, m, more, rest) {
                    Some(found) => {
                        let k = choose|k: int|
                            {
                                &&& 0 <= k < more.len()
                                &&& #[trigger] more[k] == found.last()
                                &&& first_fit(t, m.sub(more[k].tally()), rest) == Some(
                                    found.drop_last(),
                                )
                                &&& forall|j: int|
                                    0 <= j < k ==> first_fit(
                                        t,
                                        m.sub((#[trigger] more[j]).tally()),
                                        rest,
                                    ) is None
                            };
                        assert(list[k + 1] == more[k]);
                        assert forall|j: int| 0 <= j < k + 1 implies first_fit(
                            t,
                            m.sub((#[trigger] list[j]).tally()),
                            rest,
                        ) is None by {
                            if j > 0 {
                                assert(more[j - 1] == list[j]);
                            }
                        }
                    },
                    None => {
                        assert forall|j: int| 0 <= j < list.len() implies first_fit(
                            t,
                            m.sub((#[trigger] list[j]).tally()),
                            rest,
                        ) is None by {
                            if j > 0 {
                                assert(more[j - 1] == list[j]);
                            }
                        }
                    },
                }
            },
        }
    }
}

/// Units are arranged for shapes, listed from the last shape to the first, exactly if there is one
/// for each shape and each is a candidate among the cards that those before it leave.
pub proof fn what_an_arrangement_is(
    t: Trump,
    m: Multiset<Card>,
    shapes: Seq<UnitLike>,
    found: Seq<Unit>,
)
    ensures
        arranged(t, m, shapes, found) <==> found.len() == shapes.len() && forall|i: int|
            0 <= i < shapes.len() ==> candidates(
                t,
                m.sub(total(found.skip(found.len() - i))),
                #[trigger] shapes[i],
            ).contains(found[found.len() - 1 - i]),
    decreases shapes.len(),
{
    let n = found.len() as int;
    if n == shapes.len() && n > 0 {
        let last = found.last();
        let less = m.sub(last.tally());
        let part = found.drop_last();
        let rest = shapes.skip(1);
        what_an_arrangement_is(t, less, rest, part);
        assert(found.skip(n) =~= seq![]);
        assert(m.sub(total(found.skip(n - 0))) =~= m);
        assert forall|i: int| 0 <= i < rest.len() implies less.sub(
            total(#[trigger] part.skip(part.len() - i)),
        ) == m.sub(total(found.skip(n - (i + 1)))) by {
            let tail = found.skip(n - (i + 1));
            assert(tail.drop_last() =~= part.skip(part.len() - i));
            assert(tail.last() == last);
            assert(less.sub(total(part.skip(part.len() - i))) =~= m.sub(total(tail)));
        }
        if arranged(t, m, shapes, found) {
            assert forall|i: int| 0 <= i < shapes.len() implies candidates(
                t,
                m.sub(total(found.skip(n - i))),
                #[trigger] shapes[i],
            ).contains(found[n - 1 - i]) by {
                if i > 0 {
                    let k = i - 1;
                    assert(rest[k] == shapes[i]);
                    assert(less.sub(total(part.skip(part.len() - k))) == m.sub(
                        total(found.skip(n - i)),
                    ));
                    assert(part[part.len() - 1 - k] == found[n - 1 - i]);
                }
            }
        }
        if forall|i: int|
            0 <= i < shapes.len() ==> candidates(
                t,
                m.sub(total(found.skip(n - i))),
                #[trigger] shapes[i],
            ).contains(found[n - 1 - i]) {
            assert(candidates(t, m.sub(total(found.skip(n - 0))), shapes[0]).contains(
                found[n - 1 - 0],
            ));
            assert forall|i: int| 0 <= i < rest.len() implies candidates(
                t,
                less.sub(total(part.skip(part.len() - i))),
                #[trigger] rest[i],
            ).contains(part[part.len() - 1 - i]) by {
                assert(shapes[i + 1] == rest[i]);
                assert(less.sub(total(part.skip(part.len() - i))) == m.sub(
                    total(found.skip(n - (i + 1))),
                ));
                assert(part[part.len() - 1 - i] == found[n - 1 - (i + 1)]);
            }
        }
    }
}

/// What the search finds is there: the units take no more than the cards, and each has the kind of
/// its shape, repeated cards exactly so many and tractors at least so wide and so long.
pub proof fn what_the_search_finds(
    t: Trump,
    m: Multiset<Card>,
    shapes: Seq<UnitLike>,
    found: Seq<Unit>,
)
    requires
        first_fit(t, m, shapes) == Some(found),
    ensures
        found.len() == shapes.len(),
        forall|c: Card| #[trigger] total(found).count(c) <= m.count(c),
        forall|i: int|
            0 <= i < shapes.len() ==> match (#[trigger] shapes[i], found[shapes.len() - 1 - i]) {
                (UnitLike::Repeated { count }, Unit::Repeated { count: k, .. }) => k == count,
                (
                    UnitLike::Tractor { count, length },
                    Unit::Tractor { count: k, members },
                ) => k >= count && members.len() >= length && members.len() >= 2,
                _ => false,
            },
{
    search_is_complete(t, m, shapes);
    arrangement_has_the_shapes(t, m, shapes, found);
    assert forall|c: Card| #[trigger] total(found).count(c) <= m.count(c) by {}
}

/// What may be split off first: the tractors of pairs or more from the lowest card, and behind
/// them all copies of that card, unless there are tractors and each uses up all its cards.
pub proof fn what_may_be_split_off_first(t: Trump, m: Multiset<Card>, low: Card)
    requires
        m.count(low) > 0,
        forall|c: Card| #[trigger] m.count(c) > 0 ==> t.rank(low) <= t.rank(c),
    ensures
        ({
            let card = OrderedCard { card: low, trump: t };
            let tractors = tractors_from(m, card, m.count(low), 2, 2);
            if tractors.len() > 0 && forall|i: int, j: int|
                0 <= i < tractors.len() && 0 <= j < tractors[i].members().len() ==> m.count(
                    (#[trigger] tractors[i].members()[j]).card,
                ) == tractors[i].width() {
                starts(t, m) == tractors
            } else {
                starts(t, m) == tractors.push(Unit::Repeated { count: m.count(low), card })
            }
        }),
{
    lemma_ascending(t, m);
    let cards = ascending(t, m);
    assert(cards.contains(low));
    let i = cards.index_of(low);
    assert(cards.contains(cards[0]));
    assert(m.count(cards[0]) > 0);
    if i > 0 {
        assert(t.rank(cards[0]) < t.rank(cards[i]));
    }
    rank_is_injective(t, low, cards[0]);
}

/// A unit that takes all the cards is the only way to split them, and the first such unit is
/// taken. Otherwise the ways are, for each unit that may be split off first in turn, the ways to
/// split what it leaves, with the unit behind.
pub proof fn how_cards_are_split(t: Trump, m: Multiset<Card>, k: int)
    ensures
        m.len() == 0 ==> plays(t, m).len() == 0,
        m.len() > 0 && 0 <= k < starts(t, m).len() && starts(t, m)[k].size() == m.len() && (
        forall|j: int| 0 <= j < k ==> (#[trigger] starts(t, m)[j]).size() != m.len()) ==> plays(
            t,
            m,
        ) == seq![seq![starts(t, m)[k]]],
        m.len() > 0 && (forall|j: int|
            0 <= j < starts(t, m).len() ==> (#[trigger] starts(t, m)[j]).size() != m.len())
            ==> plays(t, m) == Seq::new(
            starts(t, m).len(),
            |i: int| ways_with(plays(t, m.sub(starts(t, m)[i].tally())), starts(t, m)[i]),
        ).flatten(),
{
    let list = starts(t, m);
    if m.len() > 0 {
        if 0 <= k < list.len() && list[k].size() == m.len() && (forall|j: int|
            0 <= j < k ==> (#[trigger] list[j]).size() != m.len()) {
            assert(first_of_size(list, m.len(), k));
            let i = choose|i: int| first_of_size(list, m.len(), i);
            assert(i == k) by {
                if i < k {
                    assert(list[i].size() != m.len());
                } else if k < i {
                    assert(list[k].size() != m.len());
                }
            }
            assert(plays(t, m) =~= seq![seq![list[k]]]);
        }
        if forall|j: int| 0 <= j < list.len() ==> (#[trigger] list[j]).size() != m.len() {
            assert(!exists|i: int| first_of_size(list, m.len(), i));
            lemma_plays_after(t, m, list.len());
            let blocks = Seq::new(
                list.len(),
                |i: int| ways_with(plays(t, m.sub(list[i].tally())), list[i]),
            );
            blocks.lemma_flatten_and_flatten_alt_are_equivalent();
        }
    }
}

/// `ways`, each with `u` behind it.
pub open spec fn ways_with(ways: Seq<Seq<Unit>>, u: Unit) -> Seq<Seq<Unit>> {
    Seq::new(ways.len(), |j: int| ways[j].push(u))
}

proof fn lemma_plays_after(t: Trump, m: Multiset<Card>, n: nat)
    requires
        m.len() > 0,
        n <= starts(t, m).len(),
    ensures
        plays_after(t, m, n) == Seq::new(
            n,
            |i: int| ways_with(plays(t, m.sub(starts(t, m)[i].tally())), starts(t, m)[i]),
        ).flatten_alt(),
    decreases n,
{
    let list = starts(t, m);
    let blocks = Seq::new(n, |i: int| ways_with(plays(t, m.sub(list[i].tally())), list[i]));
    if n > 0 {
        let last = n - 1;
        let fewer = Seq::new(
            last as nat,
            |i: int| ways_with(plays(t, m.sub(list[i].tally())), list[i]),
        );
        lemma_plays_after(t, m, last as nat);
        assert(blocks.drop_last() =~= fewer);
        assert(blocks.last() == ways_with(plays(t, m.sub(list[last].tally())), list[last]));
        let start = list[last];
        assert(plays(t, m.sub(start.tally())).map_values(|play: Seq<Unit>| play.push(start))
            =~= ways_with(plays(t, m.sub(start.tally())), start));
    } else {
        assert(blocks.flatten_alt() =~= seq![]);
    }
}

} // verus!

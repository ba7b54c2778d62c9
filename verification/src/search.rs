//! Finding units of given shapes among cards.

use crate::counts::{
    ascending, cards_of, lemma_ascending, lemma_copies, SortedCounts,
};
use crate::plays::proper;
use crate::small::Units;
use crate::tractor::{
    climbing, find_tractors_from_start, is_run, lemma_run_climbs, runs_make_tractors,
    sound_tractor, tractors_are_sound, tractors_from, tractors_have_width,
};
use crate::types::{Card, Trump};
use crate::unit::{copies, each_repeated, OrderedCard, TrickUnit, Unit, UnitLike};
use vstd::multiset::Multiset;
use vstd::prelude::*;
use vstd::seq_lib::lemma_multiset_commutative;

verus! {

broadcast use {vstd::multiset::group_multiset_axioms, vstd::seq_lib::group_to_multiset_ensures};

/// The cards of `u` climb under trump `t`, and all of them are in `m`.
pub open spec fn fits(t: Trump, m: Multiset<Card>, u: Unit) -> bool {
    u.members().len() > 0 && climbing(t, u.members()) && forall|j: int|
        0 <= j < u.members().len() ==> m.count((#[trigger] u.members()[j]).card) >= u.width()
            && m.count(u.members()[j].card) > 0
}

/// A single card climbs.
pub proof fn climbing_one(t: Trump, card: OrderedCard)
    requires
        card.trump == t,
    ensures
        climbing(t, seq![card]),
{
}

/// Whether `card` is among `members`.
pub open spec fn among(members: Seq<OrderedCard>, card: Card) -> bool {
    exists|j: int| 0 <= j < members.len() && (#[trigger] members[j]).card == card
}

proof fn lemma_each_repeated(t: Trump, members: Seq<OrderedCard>, n: nat)
    requires
        climbing(t, members),
    ensures
        each_repeated(members, n).to_multiset().len() == n * members.len(),
        forall|c: Card|
            #[trigger] each_repeated(members, n).to_multiset().count(c) == if among(members, c) {
                n
            } else {
                0
            },
    decreases members.len(),
{
    if members.len() > 0 {
        let rest = members.drop_last();
        let last = members.last().card;
        assert(climbing(t, rest)) by {
            assert forall|i: int| 0 <= i < rest.len() implies (#[trigger] rest[i]).trump == t by {
                assert(rest[i] == members[i]);
            }
            assert forall|i: int, j: int| 0 <= i < j < rest.len() implies (
            #[trigger] rest[i]).rank() < (#[trigger] rest[j]).rank() by {
                assert(rest[i] == members[i] && rest[j] == members[j]);
            }
        }
        lemma_each_repeated(t, rest, n);
        lemma_copies(last, n);
        lemma_multiset_commutative(each_repeated(rest, n), copies(last, n));
        assert(n * members.len() == n * rest.len() + n) by (nonlinear_arith)
            requires
                members.len() == rest.len() + 1,
        ;
        assert forall|c: Card|
            #[trigger] each_repeated(members, n).to_multiset().count(c) == if among(members, c) {
                n
            } else {
                0
            } by {
            if among(rest, c) {
                let j = choose|j: int| 0 <= j < rest.len() && (#[trigger] rest[j]).card == c;
                assert(members[j].card == c);
                assert(members[j].rank() < members[members.len() - 1].rank());
                assert(c != last);
            } else if c == last {
                assert(members[members.len() - 1].card == c);
            } else if among(members, c) {
                let j = choose|j: int| 0 <= j < members.len() && (#[trigger] members[j]).card == c;
                assert(rest[j].card == c);
            }
        }
    } else {
        assert(each_repeated(members, n) =~= seq![]);
        assert(n * members.len() == 0) by (nonlinear_arith)
            requires
                members.len() == 0,
        ;
    }
}

/// The cards of a climbing unit: each member as often as the unit is wide.
pub proof fn lemma_unit_tally(t: Trump, u: Unit)
    requires
        climbing(t, u.members()),
    ensures
        u.tally().len() == u.size(),
        forall|c: Card|
            #[trigger] u.tally().count(c) == if among(u.members(), c) {
                u.width()
            } else {
                0
            },
{
    lemma_each_repeated(t, u.members(), u.width());
    match u {
        Unit::Repeated { count, card } => {
            assert(count * u.members().len() == count) by (nonlinear_arith)
                requires
                    u.members().len() == 1,
            ;
        },
        _ => {},
    }
}

/// The cards of a unit that fits can be taken away, and giving them back restores `m`.
pub proof fn lemma_fits_tally(t: Trump, m: Multiset<Card>, u: Unit)
    requires
        fits(t, m, u),
    ensures
        u.tally().subset_of(m),
        m.sub(u.tally()).add(u.tally()) == m,
        m.sub(u.tally()).len() == m.len() - u.size(),
        u.size() <= m.len(),
{
    lemma_unit_tally(t, u);
    assert forall|c: Card| u.tally().count(c) <= m.count(c) by {
        if among(u.members(), c) {
            let j = choose|j: int|
                0 <= j < u.members().len() && (#[trigger] u.members()[j]).card == c;
        }
    }
    assert(m.sub(u.tally()).add(u.tally()) =~= m);
}

/// Cards of the first members come first.
proof fn lemma_each_repeated_take(members: Seq<OrderedCard>, n: nat, i: int)
    requires
        0 <= i <= members.len(),
    ensures
        each_repeated(members.take(i), n).to_multiset().subset_of(
            each_repeated(members, n).to_multiset(),
        ),
    decreases members.len(),
{
    if i == members.len() {
        assert(members.take(i) =~= members);
    } else {
        let rest = members.drop_last();
        lemma_each_repeated_take(rest, n, i);
        assert(rest.take(i) =~= members.take(i));
        lemma_multiset_commutative(each_repeated(rest, n), copies(members.last().card, n));
        let few = each_repeated(members.take(i), n).to_multiset();
        assert forall|c: Card| few.count(c) <= each_repeated(members, n).to_multiset().count(c) by {
            assert(few.count(c) <= each_repeated(rest, n).to_multiset().count(c));
        }
    }
}

/// The cards of one more member.
proof fn lemma_each_repeated_next(members: Seq<OrderedCard>, n: nat, i: int)
    requires
        0 <= i < members.len(),
    ensures
        each_repeated(members.take(i + 1), n).to_multiset() == each_repeated(
            members.take(i),
            n,
        ).to_multiset().add(copies(members[i].card, n).to_multiset()),
{
    assert(members.take(i + 1).drop_last() =~= members.take(i));
    lemma_multiset_commutative(each_repeated(members.take(i), n), copies(members[i].card, n));
}

/// Takes the cards of `unit` away.
pub fn without_cards(counts: &mut SortedCounts, unit: &TrickUnit)
    requires
        old(counts).wf(),
        unit@.tally().subset_of(old(counts)@),
        forall|j: int|
            0 <= j < unit@.members().len() ==> old(counts)@.count(
                (#[trigger] unit@.members()[j]).card,
            ) > 0,
    ensures
        final(counts).wf(),
        final(counts).order() == old(counts).order(),
        final(counts)@ == old(counts)@.sub(unit@.tally()),
{
    let ghost m = counts@;
    let ghost t = counts.order();
    match unit {
        TrickUnit::Repeated { card, count } => {
            proof {
                reveal_with_fuel(each_repeated, 2);
                assert(unit@.cards() =~= copies(card.card, *count as nat));
                lemma_copies(card.card, *count as nat);
                assert(unit@.tally().count(card.card) <= m.count(card.card));
            }
            counts.take(card.card, *count);
        },
        TrickUnit::Tractor { members, count } => {
            let cards = members.as_slice();
            let ghost n = *count as nat;
            assert(counts@ =~= m.sub(each_repeated(cards@.take(0), n).to_multiset()));
            for i in 0..cards.len()
                invariant
                    counts.wf(),
                    counts.order() == t,
                    n == *count,
                    each_repeated(cards@, n).to_multiset().subset_of(m),
                    counts@ == m.sub(each_repeated(cards@.take(i as int), n).to_multiset()),
            {
                proof {
                    let card = cards@[i as int].card;
                    let done = each_repeated(cards@.take(i as int), n).to_multiset();
                    let more = each_repeated(cards@.take(i + 1), n).to_multiset();
                    lemma_each_repeated_next(cards@, n, i as int);
                    lemma_each_repeated_take(cards@, n, i + 1);
                    lemma_copies(card, n);
                    assert forall|c: Card| more.count(c) <= m.count(c) by {
                        assert(more.count(c) <= each_repeated(cards@, n).to_multiset().count(c));
                        assert(each_repeated(cards@, n).to_multiset().count(c) <= m.count(c));
                    }
                    assert(more.count(card) <= m.count(card));
                    assert(m.sub(done).sub(copies(card, n).to_multiset()) =~= m.sub(more));
                }
                counts.take(cards[i].card, *count);
            }
            assert(cards@.take(cards.len() as int) =~= cards@);
        },
    }
}

/// Puts the cards of `unit` back.
pub fn with_cards(counts: &mut SortedCounts, unit: &TrickUnit)
    requires
        old(counts).wf(),
        forall|c: Card| #[trigger]
            old(counts)@.count(c) + unit@.tally().count(c) <= usize::MAX,
    ensures
        final(counts).wf(),
        final(counts).order() == old(counts).order(),
        final(counts)@ == old(counts)@.add(unit@.tally()),
{
    let ghost m = counts@;
    let ghost t = counts.order();
    match unit {
        TrickUnit::Repeated { card, count } => {
            proof {
                reveal_with_fuel(each_repeated, 2);
                assert(unit@.cards() =~= copies(card.card, *count as nat));
                lemma_copies(card.card, *count as nat);
                assert(m.count(card.card) + unit@.tally().count(card.card) <= usize::MAX);
            }
            counts.put(card.card, *count);
        },
        TrickUnit::Tractor { members, count } => {
            let cards = members.as_slice();
            let ghost n = *count as nat;
            assert(counts@ =~= m.add(each_repeated(cards@.take(0), n).to_multiset()));
            for i in 0..cards.len()
                invariant
                    counts.wf(),
                    counts.order() == t,
                    n == *count,
                    forall|c: Card| #[trigger]
                        m.count(c) + each_repeated(cards@, n).to_multiset().count(c)
                            <= usize::MAX,
                    counts@ == m.add(each_repeated(cards@.take(i as int), n).to_multiset()),
            {
                proof {
                    let card = cards@[i as int].card;
                    let done = each_repeated(cards@.take(i as int), n).to_multiset();
                    let more = each_repeated(cards@.take(i + 1), n).to_multiset();
                    lemma_each_repeated_next(cards@, n, i as int);
                    lemma_each_repeated_take(cards@, n, i + 1);
                    lemma_copies(card, n);
                    assert(more.count(card) <= each_repeated(cards@, n).to_multiset().count(card));
                    assert(m.count(card) + each_repeated(cards@, n).to_multiset().count(card)
                        <= usize::MAX);
                    assert(m.add(done).add(copies(card, n).to_multiset()) =~= m.add(more));
                }
                counts.put(cards[i].card, *count);
            }
            assert(cards@.take(cards.len() as int) =~= cards@);
        },
    }
}

/// All the cards of `units`.
pub open spec fn total(units: Seq<Unit>) -> Multiset<Card>
    decreases units.len(),
{
    if units.len() == 0 {
        Multiset::empty()
    } else {
        total(units.drop_last()).add(units.last().tally())
    }
}

/// How many cards `units` have together.
pub open spec fn total_size(units: Seq<Unit>) -> nat
    decreases units.len(),
{
    if units.len() == 0 {
        0
    } else {
        total_size(units.drop_last()) + units.last().size()
    }
}

/// The tractors that start with one of `cards`, card by card.
pub open spec fn tractors_over(
    t: Trump,
    m: Multiset<Card>,
    cards: Seq<Card>,
    count: nat,
    length: nat,
) -> Seq<Unit>
    decreases cards.len(),
{
    if cards.len() == 0 {
        seq![]
    } else {
        tractors_over(t, m, cards.drop_last(), count, length) + tractors_from(
            m,
            OrderedCard { card: cards.last(), trump: t },
            m.count(cards.last()),
            count,
            length,
        )
    }
}

/// `count` copies of each of `cards` that occurs often enough.
pub open spec fn repeats_over(t: Trump, m: Multiset<Card>, cards: Seq<Card>, count: nat) -> Seq<
    Unit,
>
    decreases cards.len(),
{
    if cards.len() == 0 {
        seq![]
    } else {
        let rest = repeats_over(t, m, cards.drop_last(), count);
        if m.count(cards.last()) >= count {
            rest.push(Unit::Repeated { count, card: OrderedCard { card: cards.last(), trump: t } })
        } else {
            rest
        }
    }
}

/// The units among the cards `m` that may stand for `shape`, those with the lowest first card
/// first. A tractor may be wider or longer than the shape.
pub open spec fn candidates(t: Trump, m: Multiset<Card>, shape: UnitLike) -> Seq<Unit> {
    match shape {
        UnitLike::Tractor { count, length } => tractors_over(
            t,
            m,
            ascending(t, m),
            count as nat,
            length as nat,
        ),
        UnitLike::Repeated { count } => repeats_over(t, m, ascending(t, m), count as nat),
    }
}

/// The first way to find units for all of `shapes` among the cards `m`, where the candidates
/// for each shape are tried in turn. The units are listed from the last shape to the first.
pub open spec fn first_fit(t: Trump, m: Multiset<Card>, shapes: Seq<UnitLike>) -> Option<Seq<Unit>>
    decreases shapes.len(), 0nat,
{
    if shapes.len() == 0 {
        Some(seq![])
    } else {
        first_among(t, m, candidates(t, m, shapes[0]), shapes.skip(1))
    }
}

/// The first of `units` that leaves enough cards for the shapes in `rest`, with what is found
/// for those.
pub open spec fn first_among(
    t: Trump,
    m: Multiset<Card>,
    units: Seq<Unit>,
    rest: Seq<UnitLike>,
) -> Option<Seq<Unit>>
    decreases rest.len(), units.len(),
{
    if units.len() == 0 {
        None
    } else {
        match first_fit(t, m.sub(units[0].tally()), rest) {
            Some(found) => Some(found.push(units[0])),
            None => first_among(t, m, units.skip(1), rest),
        }
    }
}

/// `u` may stand for `shape`: repeated cards of exactly that number, or a tractor at least as
/// wide and as long.
pub open spec fn stands_for(u: Unit, shape: UnitLike) -> bool {
    match (u, shape) {
        (Unit::Tractor { count: w, members }, UnitLike::Tractor { count, length }) => w >= count
            && members.len() >= length && members.len() >= 2,
        (Unit::Repeated { count: w, .. }, UnitLike::Repeated { count }) => w == count,
        _ => false,
    }
}

/// `u` can be taken out of `m` and stands for `shape`.
spec fn usable(t: Trump, m: Multiset<Card>, shape: UnitLike, u: Unit) -> bool {
    fits(t, m, u) && stands_for(u, shape) && (u is Tractor ==> u.width() > 0)
}

pub proof fn lemma_sound_fits(m: Multiset<Card>, card: OrderedCard, u: Unit)
    requires
        sound_tractor(m, card, u),
        m.count(card.card) > 0,
    ensures
        fits(card.trump, m, u),
{
    lemma_run_climbs(m, card, u.members());
}

proof fn lemma_tractors_over(
    t: Trump,
    m: Multiset<Card>,
    cards: Seq<Card>,
    count: usize,
    length: usize,
)
    requires
        forall|i: int| 0 <= i < cards.len() ==> m.count(#[trigger] cards[i]) > 0,
    ensures
        forall|i: int|
            0 <= i < tractors_over(t, m, cards, count as nat, length as nat).len() ==> usable(
                t,
                m,
                UnitLike::Tractor { count, length },
                #[trigger] tractors_over(t, m, cards, count as nat, length as nat)[i],
            ),
    decreases cards.len(),
{
    if cards.len() > 0 {
        let rest = cards.drop_last();
        let card = OrderedCard { card: cards.last(), trump: t };
        assert forall|i: int| 0 <= i < rest.len() implies m.count(#[trigger] rest[i]) > 0 by {
            assert(rest[i] == cards[i]);
        }
        assert(m.count(cards[cards.len() - 1]) > 0);
        lemma_tractors_over(t, m, rest, count, length);
        tractors_are_sound(m, card, count as nat, length as nat);
        tractors_have_width(m, card, m.count(card.card), count as nat, length as nat);
        let all = tractors_over(t, m, cards, count as nat, length as nat);
        let fewer = tractors_over(t, m, rest, count as nat, length as nat);
        let more = tractors_from(m, card, m.count(card.card), count as nat, length as nat);
        assert forall|i: int| 0 <= i < all.len() implies usable(
            t,
            m,
            UnitLike::Tractor { count, length },
            #[trigger] all[i],
        ) by {
            if i < fewer.len() {
                assert(all[i] == fewer[i]);
            } else {
                let u = more[i - fewer.len()];
                assert(all[i] == u);
                lemma_sound_fits(m, card, u);
            }
        }
    }
}

proof fn lemma_repeats_over(t: Trump, m: Multiset<Card>, cards: Seq<Card>, count: usize)
    requires
        forall|i: int| 0 <= i < cards.len() ==> m.count(#[trigger] cards[i]) > 0,
    ensures
        forall|i: int|
            0 <= i < repeats_over(t, m, cards, count as nat).len() ==> usable(
                t,
                m,
                UnitLike::Repeated { count },
                #[trigger] repeats_over(t, m, cards, count as nat)[i],
            ),
    decreases cards.len(),
{
    if cards.len() > 0 {
        let rest = cards.drop_last();
        assert forall|i: int| 0 <= i < rest.len() implies m.count(#[trigger] rest[i]) > 0 by {
            assert(rest[i] == cards[i]);
        }
        lemma_repeats_over(t, m, rest, count);
        let all = repeats_over(t, m, cards, count as nat);
        let fewer = repeats_over(t, m, rest, count as nat);
        assert forall|i: int| 0 <= i < all.len() implies usable(
            t,
            m,
            UnitLike::Repeated { count },
            #[trigger] all[i],
        ) by {
            if i < fewer.len() {
                assert(all[i] == fewer[i]);
            }
        }
    }
}

/// What is offered for a shape can be taken from the cards and stands for the shape.
pub proof fn candidates_fit(t: Trump, m: Multiset<Card>, shape: UnitLike)
    ensures
        forall|i: int|
            0 <= i < candidates(t, m, shape).len() ==> fits(
                t,
                m,
                #[trigger] candidates(t, m, shape)[i],
            ) && stands_for(candidates(t, m, shape)[i], shape),
{
    lemma_candidates_usable(t, m, shape);
}

proof fn lemma_candidates_usable(t: Trump, m: Multiset<Card>, shape: UnitLike)
    ensures
        forall|i: int|
            0 <= i < candidates(t, m, shape).len() ==> usable(
                t,
                m,
                shape,
                #[trigger] candidates(t, m, shape)[i],
            ),
{
    let cards = ascending(t, m);
    lemma_ascending(t, m);
    assert forall|i: int| 0 <= i < cards.len() implies m.count(#[trigger] cards[i]) > 0 by {
        assert(cards.contains(cards[i]));
    }
    match shape {
        UnitLike::Tractor { count, length } => {
            lemma_tractors_over(t, m, cards, count, length);
        },
        UnitLike::Repeated { count } => {
            lemma_repeats_over(t, m, cards, count);
        },
    }
}

/// `found` holds a unit for each of `shapes`, from the last to the first: each is a candidate
/// for its shape among the cards that the units before it leave.
pub open spec fn arranged(
    t: Trump,
    m: Multiset<Card>,
    shapes: Seq<UnitLike>,
    found: Seq<Unit>,
) -> bool
    decreases shapes.len(),
{
    found.len() == shapes.len() && (shapes.len() > 0 ==> candidates(t, m, shapes[0]).contains(
        found.last(),
    ) && arranged(t, m.sub(found.last().tally()), shapes.skip(1), found.drop_last()))
}

/// The search finds an arrangement exactly if there is one.
pub proof fn search_is_complete(t: Trump, m: Multiset<Card>, shapes: Seq<UnitLike>)
    ensures
        match first_fit(t, m, shapes) {
            Some(found) => arranged(t, m, shapes, found),
            None => forall|found: Seq<Unit>| !#[trigger] arranged(t, m, shapes, found),
        },
    decreases shapes.len(), 0nat,
{
    if shapes.len() > 0 {
        let all = candidates(t, m, shapes[0]);
        let rest = shapes.skip(1);
        lemma_first_among(t, m, all, rest);
        match first_fit(t, m, shapes) {
            Some(found) => {},
            None => {
                assert forall|found: Seq<Unit>| !#[trigger] arranged(t, m, shapes, found) by {
                    if arranged(t, m, shapes, found) {
                        let i = all.index_of(found.last());
                        assert(first_fit(t, m.sub(all[i].tally()), rest) is None);
                        search_is_complete(t, m.sub(all[i].tally()), rest);
                        assert(arranged(t, m.sub(all[i].tally()), rest, found.drop_last()));
                    }
                }
            },
        }
    }
}

proof fn lemma_first_among(t: Trump, m: Multiset<Card>, units: Seq<Unit>, rest: Seq<UnitLike>)
    ensures
        match first_among(t, m, units, rest) {
            Some(found) => found.len() == rest.len() + 1 && units.contains(found.last()) && arranged(
                t,
                m.sub(found.last().tally()),
                rest,
                found.drop_last(),
            ),
            None => forall|i: int|
                0 <= i < units.len() ==> first_fit(t, m.sub((#[trigger] units[i]).tally()), rest)
                    is None,
        },
    decreases rest.len(), units.len() + 1,
{
    if units.len() > 0 {
        match first_fit(t, m.sub(units[0].tally()), rest) {
            Some(path) => {
                search_is_complete(t, m.sub(units[0].tally()), rest);
                let found = path.push(units[0]);
                assert(found.drop_last() =~= path);
                assert(units[0] == found.last());
            },
            None => {
                let others = units.skip(1);
                lemma_first_among(t, m, others, rest);
                match first_among(t, m, others, rest) {
                    Some(found) => {
                        let i = others.index_of(found.last());
                        assert(units[i + 1] == found.last());
                    },
                    None => {
                        assert forall|i: int| 0 <= i < units.len() implies first_fit(
                            t,
                            m.sub((#[trigger] units[i]).tally()),
                            rest,
                        ) is None by {
                            if i > 0 {
                                assert(others[i - 1] == units[i]);
                            }
                        }
                    },
                }
            },
        }
    }
}

/// How many cards units of `shapes` have together.
pub open spec fn total_shape_size(shapes: Seq<UnitLike>) -> nat
    decreases shapes.len(),
{
    if shapes.len() == 0 {
        0
    } else {
        shapes[0].size() + total_shape_size(shapes.skip(1))
    }
}

/// A unit has at least the size of the shape that it stands for, and if it has no more, then it
/// has the shape.
proof fn lemma_stands_for(u: Unit, shape: UnitLike)
    requires
        stands_for(u, shape),
        u is Tractor ==> u.width() > 0,
    ensures
        u.size() >= shape.size(),
        u.size() == shape.size() ==> u.shape() == shape,
{
    match (u, shape) {
        (Unit::Tractor { count: w, members }, UnitLike::Tractor { count, length }) => {
            let n = members.len();
            assert(w * n >= count * length) by (nonlinear_arith)
                requires
                    w >= count,
                    n >= length,
                    count >= 0,
                    length >= 0,
            ;
            if w > count {
                assert(w * n > count * length) by (nonlinear_arith)
                    requires
                        w > count,
                        n >= length,
                        n >= 2,
                        count >= 0,
                        length >= 0,
                ;
            } else if n > length {
                assert(w * n > count * length) by (nonlinear_arith)
                    requires
                        w >= count,
                        w > 0,
                        n > length,
                        count >= 0,
                        length >= 0,
                ;
            }
        },
        _ => {},
    }
}

/// The units of an arrangement are taken from the cards, and each stands for its shape. If the
/// shapes ask for as many cards as there are, then the units use all the cards and have exactly
/// the shapes that were asked for.
pub proof fn arrangement_has_the_shapes(
    t: Trump,
    m: Multiset<Card>,
    shapes: Seq<UnitLike>,
    found: Seq<Unit>,
)
    requires
        arranged(t, m, shapes, found),
    ensures
        total(found).subset_of(m),
        total_size(found) == total(found).len(),
        total_size(found) >= total_shape_size(shapes),
        forall|i: int|
            0 <= i < shapes.len() ==> stands_for(
                found[shapes.len() - 1 - i],
                #[trigger] shapes[i],
            ),
        forall|i: int| 0 <= i < found.len() ==> (#[trigger] found[i]).members().len() > 0,
        total_shape_size(shapes) == m.len() ==> total(found) == m && forall|i: int|
            0 <= i < shapes.len() ==> found[shapes.len() - 1 - i].shape() == #[trigger] shapes[i],
    decreases shapes.len(),
{
    if shapes.len() > 0 {
        let u = found.last();
        let rest = shapes.skip(1);
        let path = found.drop_last();
        let left = m.sub(u.tally());
        let all = candidates(t, m, shapes[0]);
        lemma_candidates_usable(t, m, shapes[0]);
        assert(usable(t, m, shapes[0], all[all.index_of(u)]));
        lemma_fits_tally(t, m, u);
        lemma_unit_tally(t, u);
        lemma_stands_for(u, shapes[0]);
        arrangement_has_the_shapes(t, left, rest, path);
        assert forall|c: Card| total(found).count(c) <= m.count(c) by {
            assert(total(path).count(c) <= left.count(c));
            assert(u.tally().count(c) <= m.count(c));
        }
        let n = shapes.len();
        assert forall|i: int| 0 <= i < n implies stands_for(
            found[n - 1 - i],
            #[trigger] shapes[i],
        ) by {
            if i > 0 {
                assert(rest[i - 1] == shapes[i]);
                assert(path[rest.len() - 1 - (i - 1)] == found[n - 1 - i]);
            }
        }
        assert forall|i: int| 0 <= i < found.len() implies (
        #[trigger] found[i]).members().len() > 0 by {
            if i < path.len() {
                assert(path[i] == found[i]);
            }
        }
        if total_shape_size(shapes) == m.len() {
            assert(total(found).len() <= m.len()) by {
                assert(m.sub(total(found)).len() == m.len() - total(found).len());
            }
            assert(u.size() == shapes[0].size());
            assert(left.len() == total_shape_size(rest));
            assert(total(found) =~= m);
            assert forall|i: int| 0 <= i < n implies found[n - 1 - i].shape()
                == #[trigger] shapes[i] by {
                if i > 0 {
                    assert(rest[i - 1] == shapes[i]);
                    assert(path[rest.len() - 1 - (i - 1)] == found[n - 1 - i]);
                }
            }
        }
    } else {
        assert(total(found) =~= Multiset::empty());
        if m.len() == 0 {
            assert(m =~= Multiset::empty());
        }
    }
}

/// The units that may stand for `shape`.
fn find_candidates(counts: &SortedCounts, shape: UnitLike) -> (r: Units)
    requires
        counts.wf(),
    ensures
        r.model() == candidates(counts.order(), counts@, shape),
{
    let mut found = Units::new();
    assert(found.model() =~= seq![]);
    let entries = counts.entries();
    let trump = counts.trump();
    let ghost m = counts@;
    let ghost cards = ascending(trump, m);
    match shape {
        UnitLike::Tractor { count: width, length } => {
            for i in 0..entries.len()
                invariant
                    counts.wf(),
                    counts.order() == trump,
                    counts@ == m,
                    cards_of(entries@) == cards,
                    forall|i: int|
                        0 <= i < entries@.len() ==> m.count((#[trigger] entries@[i]).0)
                            == entries@[i].1,
                    found.model() == tractors_over(
                        trump,
                        m,
                        cards.take(i as int),
                        width as nat,
                        length as nat,
                    ),
            {
                let (card, count) = entries[i];
                let card = OrderedCard { card, trump };
                let tractors = find_tractors_from_start(card, count, counts, width, length);
                proof {
                    assert(cards[i as int] == card.card);
                    assert(cards.take(i + 1).drop_last() =~= cards.take(i as int));
                    assert(entries@[i as int].1 == count);
                }
                append(&mut found, &tractors);
            }
        },
        UnitLike::Repeated { count } => {
            for i in 0..entries.len()
                invariant
                    cards_of(entries@) == cards,
                    forall|i: int|
                        0 <= i < entries@.len() ==> m.count((#[trigger] entries@[i]).0)
                            == entries@[i].1,
                    found.model() == repeats_over(trump, m, cards.take(i as int), count as nat),
            {
                proof {
                    assert(cards[i as int] == entries@[i as int].0);
                    assert(cards.take(i + 1).drop_last() =~= cards.take(i as int));
                }
                if entries[i].1 >= count {
                    let ghost so_far = found.model();
                    let card = OrderedCard { card: entries[i].0, trump };
                    found.push(TrickUnit::Repeated { count, card });
                    assert(found.model() =~= so_far.push(
                        Unit::Repeated { count: count as nat, card },
                    ));
                }
            }
        },
    }
    assert(cards.take(entries.len() as int) =~= cards);
    found
}

/// Appends copies of `more`.
pub fn append(units: &mut Units, more: &Units)
    ensures
        final(units).model() == old(units).model() + more.model(),
{
    let list = more.as_slice();
    let ghost before = units.model();
    for i in 0..list.len()
        invariant
            list@ == more@,
            units.model() == before + more.model().take(i as int),
    {
        let ghost so_far = units.model();
        let copy = list[i].clone();
        units.push(copy);
        assert(units.model() =~= so_far.push(copy@));
        assert(units.model() =~= before + more.model().take(i + 1));
    }
    assert(more.model().take(list.len() as int) =~= more.model());
}

/// Finds units for the shapes of `units` from `start` on. The units are listed from the last
/// shape to the first; nothing is listed where they cannot be found.
pub fn check_format_inner(counts: &mut SortedCounts, units: &[UnitLike], start: usize) -> (r: (
    bool,
    Units,
))
    requires
        old(counts).wf(),
        start <= units@.len(),
    ensures
        final(counts).wf(),
        final(counts).order() == old(counts).order(),
        final(counts)@ == old(counts)@,
        match first_fit(old(counts).order(), old(counts)@, units@.skip(start as int)) {
            Some(found) => r.0 && r.1.model() == found,
            None => !r.0 && r.1@.len() == 0,
        },
    decreases units@.len() - start,
{
    let ghost t = counts.order();
    let ghost m = counts@;
    let ghost shapes = units@.skip(start as int);
    if start == units.len() {
        let none = Units::new();
        assert(none.model() =~= seq![]);
        return (true, none);
    }
    let next = start + 1;
    let ghost rest = units@.skip(start + 1);
    assert(shapes.skip(1) =~= rest);
    let found = find_candidates(counts, units[start]);
    let list = found.as_slice();
    let ghost all = found.model();
    proof {
        lemma_candidates_usable(t, m, units@[start as int]);
        assert(all.skip(0) =~= all);
    }
    for i in 0..list.len()
        invariant
            counts.wf(),
            counts.order() == t,
            counts@ == m,
            t == old(counts).order(),
            m == old(counts)@,
            start < units@.len(),
            next == start + 1,
            shapes == units@.skip(start as int),
            rest == units@.skip(start + 1),
            list@ == found@,
            all == found.model(),
            all == candidates(t, m, units@[start as int]),
            forall|i: int|
                0 <= i < all.len() ==> usable(t, m, units@[start as int], #[trigger] all[i]),
            first_fit(t, m, shapes) == first_among(t, m, all.skip(i as int), rest),
    {
        let unit = &list[i];
        proof {
            assert(unit@ == all[i as int]);
            assert(usable(t, m, units@[start as int], all[i as int]));
            lemma_fits_tally(t, m, unit@);
            counts.lemma_bounded();
            assert(all.skip(i as int)[0] == all[i as int]);
            assert(all.skip(i as int).skip(1) =~= all.skip(i + 1));
        }
        without_cards(counts, unit);
        let (fit, mut path) = check_format_inner(counts, units, next);
        proof {
            assert forall|c: Card| #[trigger]
                counts@.count(c) + unit@.tally().count(c) <= usize::MAX by {
                assert(m.sub(unit@.tally()).add(unit@.tally()).count(c) == m.count(c));
            }
        }
        with_cards(counts, unit);
        if fit {
            let ghost so_far = path.model();
            let copy = unit.clone();
            path.push(copy);
            assert(path.model() =~= so_far.push(unit@));
            return (true, path);
        }
    }
    (false, Units::new())
}

/// Tallies `cards` in their order.
pub fn count_in_order(trump: Trump, cards: &[Card]) -> (r: SortedCounts)
    ensures
        r.wf(),
        r.order() == trump,
        r@ == cards@.to_multiset(),
{
    let mut counts = SortedCounts::new(trump);
    assert(cards@.take(0) =~= Seq::<Card>::empty());
    for i in 0..cards.len()
        invariant
            counts.wf(),
            counts.order() == trump,
            counts@ == cards@.take(i as int).to_multiset(),
    {
        proof {
            assert(cards@.take(i + 1) =~= cards@.take(i as int).push(cards@[i as int]));
            assert(counts@.len() == i);
            lemma_copies(cards@[i as int], 1);
            assert(counts@.add(copies(cards@[i as int], 1).to_multiset()) =~= counts@.insert(
                cards@[i as int],
            ));
        }
        counts.put(cards[i], 1);
    }
    assert(cards@.take(cards.len() as int) =~= cards@);
    counts
}

impl UnitLike {
    /// Whether units of the given shapes can be found among `cards`, and the units found.
    pub fn check_play(trump: Trump, cards: &[Card], units: &[UnitLike]) -> (r: (bool, Units))
        ensures
            match first_fit(trump, cards@.to_multiset(), units@) {
                Some(found) => r.0 && r.1.model() == found,
                None => !r.0 && r.1@.len() == 0,
            },
    {
        let mut counts = count_in_order(trump, cards);
        assert(units@.skip(0) =~= units@);
        check_format_inner(&mut counts, units, 0)
    }
}

proof fn lemma_tractors_over_has(
    t: Trump,
    m: Multiset<Card>,
    cards: Seq<Card>,
    count: nat,
    length: nat,
    card: Card,
    u: Unit,
)
    requires
        cards.contains(card),
        tractors_from(m, OrderedCard { card, trump: t }, m.count(card), count, length).contains(u),
    ensures
        tractors_over(t, m, cards, count, length).contains(u),
    decreases cards.len(),
{
    let i = cards.index_of(card);
    let rest = cards.drop_last();
    let before = tractors_over(t, m, rest, count, length);
    let all = tractors_over(t, m, cards, count, length);
    if i < cards.len() - 1 {
        assert(rest[i] == card);
        lemma_tractors_over_has(t, m, rest, count, length, card, u);
        assert(all[before.index_of(u)] == u);
    } else {
        let k = tractors_from(
            m,
            OrderedCard { card, trump: t },
            m.count(card),
            count,
            length,
        ).index_of(u);
        assert(all[before.len() + k] == u);
    }
}

proof fn lemma_repeats_over_has(
    t: Trump,
    m: Multiset<Card>,
    cards: Seq<Card>,
    count: nat,
    card: Card,
)
    requires
        cards.contains(card),
        m.count(card) >= count,
    ensures
        repeats_over(t, m, cards, count).contains(
            Unit::Repeated { count, card: OrderedCard { card, trump: t } },
        ),
    decreases cards.len(),
{
    let u = Unit::Repeated { count, card: OrderedCard { card, trump: t } };
    let i = cards.index_of(card);
    let rest = cards.drop_last();
    let before = repeats_over(t, m, rest, count);
    let all = repeats_over(t, m, cards, count);
    if i < cards.len() - 1 {
        assert(rest[i] == card);
        lemma_repeats_over_has(t, m, rest, count, card);
        assert(all[before.index_of(u)] == u);
    } else {
        assert(all[before.len() as int] == u);
    }
}

/// Any card that occurs often enough is a candidate for a shape of repeated cards.
pub proof fn repeated_cards_are_candidates(t: Trump, m: Multiset<Card>, count: usize, card: Card)
    requires
        m.count(card) > 0,
        m.count(card) >= count,
    ensures
        candidates(t, m, UnitLike::Repeated { count }).contains(
            Unit::Repeated { count: count as nat, card: OrderedCard { card, trump: t } },
        ),
{
    lemma_ascending(t, m);
    assert(ascending(t, m).contains(card));
    lemma_repeats_over_has(t, m, ascending(t, m), count as nat, card);
}

/// `u`, if it is a tractor, is as wide as one of its members occurs in `m`, and none of the cards
/// from its first card upwards occurs less often.
pub open spec fn stands_out(t: Trump, m: Multiset<Card>, u: Unit) -> bool {
    u is Tractor ==> {
        &&& exists|j: int|
            0 <= j < u.members().len() && m.count((#[trigger] u.members()[j]).card) == u.width()
        &&& forall|c: Card| #[trigger]
            m.count(c) > 0 && t.rank(c) >= t.rank(u.first().card) ==> m.count(c) >= u.width()
    }
}

/// A tractor that stands out among the cards is a candidate for its own shape.
pub proof fn tractors_that_stand_out_are_candidates(t: Trump, m: Multiset<Card>, u: Unit)
    requires
        u is Tractor,
        proper(t, u),
        u.width() <= usize::MAX,
        u.members().len() <= usize::MAX,
        u.tally().subset_of(m),
        stands_out(t, m, u),
    ensures
        candidates(t, m, u.shape()).contains(u),
{
    let run = u.members();
    let card = run[0];
    lemma_unit_tally(t, u);
    assert forall|j: int| 0 <= j < run.len() implies m.count((#[trigger] run[j]).card)
        >= u.width() by {
        assert(among(run, run[j].card));
        assert(u.tally().count(run[j].card) <= m.count(run[j].card));
    }
    assert(is_run(m, card, run));
    let j = choose|j: int|
        0 <= j < u.members().len() && m.count((#[trigger] u.members()[j]).card) == u.width();
    runs_make_tractors(m, run, u.width(), j, u.width(), run.len());
    lemma_ascending(t, m);
    assert(ascending(t, m).contains(card.card));
    assert(card == OrderedCard { card: card.card, trump: t });
    lemma_tractors_over_has(t, m, ascending(t, m), u.width(), run.len(), card.card, u);
}

} // verus!

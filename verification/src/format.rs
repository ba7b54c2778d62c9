//! The format that the first play of a trick sets for the others.

use crate::counts::{
    distinct, increasing, lemma_copies, lemma_lists_unique, lemma_tally_absent, tally, CardCounts,
    SortedCounts,
};
use crate::order::{sort_units, sorted_units, sorted_units_are_sorted, unit_before};
use crate::plays::{
    descends, first_of_size, last_play_uses_all_copies, lemma_first_of_size, plays, plays_descend,
    plays_split_the_cards, proper, proper_units_are_starts, splits, starts, uses_all_copies,
};
use crate::search::{
    among, arranged, arrangement_has_the_shapes, check_format_inner, climbing_one, first_fit,
    lemma_unit_tally, repeated_cards_are_candidates, search_is_complete, stands_out, total,
    total_shape_size, total_size, tractors_that_stand_out_are_candidates,
};
use crate::small::{Plays, ShapeLists, Shapes, Units};
use crate::trick::TrickError;
use crate::types::{Card, EffectiveSuit, Trump};
use crate::unit::{copies, size_counts_the_cards, OrderedCard, TrickUnit, Unit, UnitLike};
use vstd::multiset::Multiset;
use vstd::prelude::*;

verus! {

broadcast use {vstd::multiset::group_multiset_axioms, vstd::seq_lib::group_to_multiset_ensures};

/// What the first play of a trick asks of the others: its suit and its units.
#[derive(Debug, PartialEq, Eq)]
pub struct TrickFormat {
    pub suit: EffectiveSuit,
    pub trump: Trump,
    pub units: Units,
}

/// What a `TrickFormat` stands for.
pub struct Format {
    pub suit: EffectiveSuit,
    pub trump: Trump,
    pub units: Seq<Unit>,
}

impl View for TrickFormat {
    type V = Format;

    open spec fn view(&self) -> Format {
        Format { suit: self.suit, trump: self.trump, units: self.units.model() }
    }
}

impl Clone for TrickFormat {
    fn clone(&self) -> (r: TrickFormat)
        ensures
            r@ == self@,
    {
        TrickFormat { suit: self.suit, trump: self.trump, units: self.units.clone() }
    }
}

pub open spec fn shapes(units: Seq<Unit>) -> Seq<UnitLike> {
    units.map_values(|u: Unit| u.shape())
}

/// The cards of `m` that belong to `suit`.
pub open spec fn in_suit(t: Trump, suit: EffectiveSuit, m: Multiset<Card>) -> Multiset<Card> {
    m.filter(|c: Card| t.suit_of(c) == suit)
}

/// All of `cards` belong to `suit`.
pub open spec fn all_in_suit(t: Trump, suit: EffectiveSuit, cards: Seq<Card>) -> bool {
    forall|i: int| 0 <= i < cards.len() ==> t.suit_of(#[trigger] cards[i]) == suit
}

/// The next weaker lists of shapes. Shapes at the end that cannot be weakened are given up;
/// then the last shape is replaced by each of its weaker forms.
pub open spec fn downgrades(shapes: Seq<UnitLike>) -> Seq<Seq<UnitLike>>
    decreases shapes.len(),
{
    if shapes.len() == 0 {
        seq![]
    } else if shapes.last().weaker().len() == 0 {
        downgrades(shapes.drop_last())
    } else {
        shapes.last().weaker().map_values(|weaker: Seq<UnitLike>| shapes.drop_last() + weaker)
    }
}

/// A bound on how often a shape can be weakened.
pub open spec fn strength(shape: UnitLike) -> nat {
    match shape {
        UnitLike::Tractor { count, length } => (2 * (count * length) + count + length) as nat,
        UnitLike::Repeated { count } => count as nat,
    }
}

/// A bound on how often a list of shapes can be weakened.
pub open spec fn total_strength(shapes: Seq<UnitLike>) -> nat
    decreases shapes.len(),
{
    if shapes.len() == 0 {
        0
    } else {
        total_strength(shapes.drop_last()) + strength(shapes.last())
    }
}

/// What the requirement `shapes`, and failing that its weaker forms, say about a play of the
/// cards `played` by someone who holds the cards `held` in the suit: the play is fine if it
/// meets a requirement before any that the hand could have met, and not if the hand could have
/// met one before the play does. Where neither ever does, nothing is said.
pub open spec fn verdict(
    t: Trump,
    played: Multiset<Card>,
    held: Multiset<Card>,
    shapes: Seq<UnitLike>,
) -> Option<bool>
    decreases total_strength(shapes), downgrades(shapes).len() + 1,
{
    if first_fit(t, played, shapes) is Some {
        Some(true)
    } else if first_fit(t, held, shapes) is Some {
        Some(false)
    } else {
        weaker_verdict(t, played, held, shapes, downgrades(shapes).len())
    }
}

/// What the first `k` weaker forms of `shapes` say, where the last of them speaks first.
pub open spec fn weaker_verdict(
    t: Trump,
    played: Multiset<Card>,
    held: Multiset<Card>,
    shapes: Seq<UnitLike>,
    k: nat,
) -> Option<bool>
    decreases total_strength(shapes), k,
        when k <= downgrades(shapes).len() via weaker_verdict_decreases
{
    if k == 0 {
        None
    } else {
        match verdict(t, played, held, downgrades(shapes)[k - 1]) {
            Some(fine) => Some(fine),
            None => weaker_verdict(t, played, held, shapes, (k - 1) as nat),
        }
    }
}

#[via_fn]
proof fn weaker_verdict_decreases(
    t: Trump,
    played: Multiset<Card>,
    held: Multiset<Card>,
    shapes: Seq<UnitLike>,
    k: nat,
) {
    if k > 0 {
        lemma_downgrade(shapes, k - 1);
    }
}

proof fn lemma_total_strength_add(a: Seq<UnitLike>, b: Seq<UnitLike>)
    ensures
        total_strength(a + b) == total_strength(a) + total_strength(b),
    decreases b.len(),
{
    if b.len() == 0 {
        assert(a + b =~= a);
    } else {
        lemma_total_strength_add(a, b.drop_last());
        assert((a + b).drop_last() =~= a + b.drop_last());
        assert((a + b).last() == b.last());
    }
}

proof fn lemma_weaker(shape: UnitLike, k: int)
    requires
        0 <= k < shape.weaker().len(),
    ensures
        shape.weaker().len() <= 2,
        total_strength(shape.weaker()[k]) < strength(shape),
{
    let weaker = shape.weaker()[k];
    reveal_with_fuel(total_strength, 3);
    match shape {
        UnitLike::Tractor { count, length } => {
            assert((count - 1) * length == count * length - length) by (nonlinear_arith);
            assert(count * (length - 1) == count * length - count) by (nonlinear_arith);
            assert(0 <= count * length) by (nonlinear_arith);
            if weaker.len() == 1 {
                assert(weaker.drop_last() =~= seq![]);
            } else {
                assert(weaker.drop_last().drop_last() =~= seq![]);
                assert(weaker.drop_last().last() == weaker[0]);
                if length == 2 {
                    assert(count * length == 2 * count) by (nonlinear_arith)
                        requires
                            length == 2,
                    ;
                }
            }
        },
        UnitLike::Repeated { count } => {
            assert(weaker.drop_last() =~= seq![]);
        },
    }
}

proof fn lemma_downgrade(shapes: Seq<UnitLike>, k: int)
    requires
        0 <= k < downgrades(shapes).len(),
    ensures
        downgrades(shapes).len() <= 2,
        total_strength(downgrades(shapes)[k]) < total_strength(shapes),
    decreases shapes.len(),
{
    let last = shapes.last();
    if last.weaker().len() == 0 {
        lemma_downgrade(shapes.drop_last(), k);
    } else {
        lemma_weaker(last, k);
        lemma_total_strength_add(shapes.drop_last(), last.weaker()[k]);
    }
}

/// Whether a play of `proposed` is legal for someone who holds `hand`.
pub open spec fn legal_play(f: Format, hand: Multiset<Card>, proposed: Seq<Card>) -> bool {
    let played = in_suit(f.trump, f.suit, proposed.to_multiset());
    let held = in_suit(f.trump, f.suit, hand);
    proposed.len() == total_size(f.units) && if played.len() < proposed.len() {
        // Not all cards follow suit: only fine if there are no more of it in the hand.
        held.len() == played.len()
    } else {
        verdict(f.trump, proposed.to_multiset(), held, shapes(f.units)) != Some(false)
    }
}

/// What the requirements on a stack say, where the last of them speaks first.
spec fn stack_verdict(
    t: Trump,
    played: Multiset<Card>,
    held: Multiset<Card>,
    stack: Seq<Seq<UnitLike>>,
) -> Option<bool>
    decreases stack.len(),
{
    if stack.len() == 0 {
        None
    } else {
        match verdict(t, played, held, stack.last()) {
            Some(fine) => Some(fine),
            None => stack_verdict(t, played, held, stack.drop_last()),
        }
    }
}

proof fn lemma_stack_verdict(
    t: Trump,
    played: Multiset<Card>,
    held: Multiset<Card>,
    stack: Seq<Seq<UnitLike>>,
    shapes: Seq<UnitLike>,
    k: nat,
)
    requires
        k <= downgrades(shapes).len(),
    ensures
        stack_verdict(t, played, held, stack + downgrades(shapes).take(k as int)) == match weaker_verdict(
            t,
            played,
            held,
            shapes,
            k,
        ) {
            Some(fine) => Some(fine),
            None => stack_verdict(t, played, held, stack),
        },
    decreases k,
{
    let list = stack + downgrades(shapes).take(k as int);
    if k == 0 {
        assert(list =~= stack);
    } else {
        lemma_stack_verdict(t, played, held, stack, shapes, (k - 1) as nat);
        assert(list.drop_last() =~= stack + downgrades(shapes).take(k - 1));
        assert(list.last() == downgrades(shapes)[k - 1]);
    }
}

spec fn power_of_three(n: nat) -> nat
    decreases n,
{
    if n == 0 {
        1
    } else {
        3 * power_of_three((n - 1) as nat)
    }
}

proof fn lemma_power_of_three(a: nat, b: nat)
    requires
        a < b,
    ensures
        3 * power_of_three(a) <= power_of_three(b),
        power_of_three(a) > 0,
    decreases b,
{
    if a > 0 {
        lemma_power_of_three((a - 1) as nat, (b - 1) as nat);
    } else if b > 1 {
        lemma_power_of_three(a, (b - 1) as nat);
    }
}

/// A bound on the work that a stack of requirements takes.
spec fn work(stack: Seq<Seq<UnitLike>>) -> nat
    decreases stack.len(),
{
    if stack.len() == 0 {
        0
    } else {
        work(stack.drop_last()) + power_of_three(total_strength(stack.last()))
    }
}

proof fn lemma_work(stack: Seq<Seq<UnitLike>>, shapes: Seq<UnitLike>)
    ensures
        work(stack + downgrades(shapes)) < work(stack) + power_of_three(total_strength(shapes)),
{
    let more = downgrades(shapes);
    let list = stack + more;
    reveal_with_fuel(work, 3);
    lemma_positive_power(total_strength(shapes));
    if more.len() == 0 {
        assert(list =~= stack);
    } else {
        lemma_downgrade(shapes, more.len() - 1);
        lemma_power_of_three(total_strength(more[more.len() - 1]), total_strength(shapes));
        assert(list.last() == more[more.len() - 1]);
        let list1 = list.drop_last();
        if more.len() == 1 {
            assert(list1 =~= stack);
        } else {
            lemma_downgrade(shapes, 0);
            lemma_power_of_three(total_strength(more[0]), total_strength(shapes));
            assert(list1.last() == more[0]);
            assert(list1.drop_last() =~= stack);
        }
    }
}

proof fn lemma_positive_power(n: nat)
    ensures
        power_of_three(n) > 0,
    decreases n,
{
    if n > 0 {
        lemma_positive_power((n - 1) as nat);
    }
}

/// Pushes the weaker forms of `requirement`.
fn push_downgrades(requirements: &mut ShapeLists, requirement: Shapes)
    ensures
        final(requirements).model() == old(requirements).model() + downgrades(requirement@),
{
    let ghost before = requirements.model();
    let ghost all = downgrades(requirement@);
    let mut left = requirement;
    loop
        invariant
            before == old(requirements).model(),
            all == downgrades(requirement@),
            downgrades(left@) == all,
            requirements.model() == before,
        decreases left@.len(),
    {
        let ghost whole = left@;
        match left.pop() {
            None => {
                assert(requirements.model() =~= before + all);
                return;
            },
            Some(unit) => {
                assert(whole.drop_last() =~= left@);
                let decomposed = unit.decompose();
                let list = decomposed.as_slice();
                if list.len() > 0 {
                    for i in 0..list.len()
                        invariant
                            list@ == decomposed@,
                            decomposed.model() == unit.weaker(),
                            all == unit.weaker().map_values(
                                |weaker: Seq<UnitLike>| left@ + weaker,
                            ),
                            requirements.model() == before + all.take(i as int),
                    {
                        let ghost so_far = requirements.model();
                        let mut r = Shapes::copy_of(left.as_slice());
                        extend(&mut r, &list[i]);
                        assert(decomposed.model()[i as int] == list@[i as int]@);
                        requirements.push(r);
                        assert(requirements.model() =~= so_far.push(r@));
                        assert(requirements.model() =~= before + all.take(i + 1));
                    }
                    assert(all.take(list.len() as int) =~= all);
                    return;
                }
            },
        }
    }
}

fn extend(shapes: &mut Shapes, more: &Shapes)
    ensures
        final(shapes)@ == old(shapes)@ + more@,
{
    let list = more.as_slice();
    let ghost before = shapes@;
    for i in 0..list.len()
        invariant
            list@ == more@,
            shapes@ == before + more@.take(i as int),
    {
        shapes.push(list[i]);
        assert(shapes@ =~= before + more@.take(i + 1));
    }
    assert(more@.take(list.len() as int) =~= more@);
}

/// The number of cards in `units`, unless it is too large for a machine integer.
pub(crate) fn count_cards(units: &Units) -> (r: Option<usize>)
    ensures
        match r {
            Some(n) => n == total_size(units.model()),
            None => total_size(units.model()) > usize::MAX,
        },
{
    let list = units.as_slice();
    let ghost model = units.model();
    let mut sum: usize = 0;
    for i in 0..list.len()
        invariant
            list@ == units@,
            model == units.model(),
            sum == total_size(model.take(i as int)),
    {
        assert(model.take(i + 1).drop_last() =~= model.take(i as int));
        assert(model[i as int] == list@[i as int]@);
        let (count, length) = match &list[i] {
            TrickUnit::Tractor { count, members } => (*count, members.as_slice().len()),
            TrickUnit::Repeated { count, .. } => (*count, 1),
        };
        let ghost size = model[i as int].size();
        proof {
            assert(count * 1 == count);
            lemma_total_size_monotone(model, i + 1);
        }
        let next = match count.checked_mul(length) {
            Some(size) => sum.checked_add(size),
            None => None,
        };
        match next {
            Some(n) => {
                sum = n;
            },
            None => {
                return None;
            },
        }
    }
    assert(model.take(list.len() as int) =~= model);
    Some(sum)
}

proof fn lemma_total_size_monotone(units: Seq<Unit>, i: int)
    requires
        0 <= i <= units.len(),
    ensures
        total_size(units.take(i)) <= total_size(units),
    decreases units.len() - i,
{
    if i == units.len() {
        assert(units.take(i) =~= units);
    } else {
        lemma_total_size_monotone(units, i + 1);
        assert(units.take(i + 1).drop_last() =~= units.take(i));
    }
}

/// The shapes of `units`.
fn shapes_of(units: &Units) -> (r: Shapes)
    ensures
        r@ == shapes(units.model()),
{
    let list = units.as_slice();
    let mut found = Shapes::new();
    for i in 0..list.len()
        invariant
            list@ == units@,
            found@ == shapes(units.model()).take(i as int),
    {
        found.push(UnitLike::from(&list[i]));
        assert(units.model()[i as int] == list@[i as int]@);
        assert(found@ =~= shapes(units.model()).take(i + 1));
    }
    assert(shapes(units.model()).take(list.len() as int) =~= shapes(units.model()));
    found
}

/// How many of `cards` belong to `suit`.
fn count_in_suit(trump: Trump, suit: EffectiveSuit, cards: &[Card]) -> (r: usize)
    ensures
        r == in_suit(trump, suit, cards@.to_multiset()).len(),
        r <= cards@.len(),
{
    let mut n: usize = 0;
    assert(cards@.take(0).to_multiset() =~= Multiset::empty());
    assert(in_suit(trump, suit, Multiset::empty()) =~= Multiset::empty());
    for i in 0..cards.len()
        invariant
            n == in_suit(trump, suit, cards@.take(i as int).to_multiset()).len(),
            n <= i,
    {
        let ghost m = cards@.take(i as int).to_multiset();
        let ghost card = cards@[i as int];
        assert(cards@.take(i + 1) =~= cards@.take(i as int).push(card));
        if trump.effective_suit(cards[i]) == suit {
            assert(in_suit(trump, suit, m.insert(card)) =~= in_suit(trump, suit, m).insert(card));
            n = n + 1;
        } else {
            assert(in_suit(trump, suit, m.insert(card)) =~= in_suit(trump, suit, m));
        }
    }
    assert(cards@.take(cards.len() as int) =~= cards@);
    n
}

proof fn lemma_in_suit_step(
    t: Trump,
    suit: EffectiveSuit,
    m: Multiset<Card>,
    card: Card,
    n: nat,
)
    ensures
        in_suit(t, suit, m.add(copies(card, n).to_multiset())) == if t.suit_of(card) == suit {
            in_suit(t, suit, m).add(copies(card, n).to_multiset())
        } else {
            in_suit(t, suit, m)
        },
{
    lemma_copies(card, n);
    if t.suit_of(card) == suit {
        assert(in_suit(t, suit, m.add(copies(card, n).to_multiset())) =~= in_suit(t, suit, m).add(
            copies(card, n).to_multiset(),
        ));
    } else {
        assert(in_suit(t, suit, m.add(copies(card, n).to_multiset())) =~= in_suit(t, suit, m));
    }
}

/// Whether `hand` has exactly `n` cards of `suit`.
fn has_in_suit(hand: &CardCounts, trump: Trump, suit: EffectiveSuit, n: usize) -> (r: bool)
    requires
        hand.wf(),
    ensures
        r == (in_suit(trump, suit, hand@).len() == n),
{
    let entries = hand.entries();
    let mut sum: usize = 0;
    assert(tally(entries@.take(0)) =~= Multiset::empty());
    assert(in_suit(trump, suit, Multiset::empty()) =~= Multiset::empty());
    for i in 0..entries.len()
        invariant
            tally(entries@) == hand@,
            sum == in_suit(trump, suit, tally(entries@.take(i as int))).len(),
    {
        let (card, count) = entries[i];
        proof {
            assert(entries@.take(i + 1).drop_last() =~= entries@.take(i as int));
            lemma_in_suit_step(trump, suit, tally(entries@.take(i as int)), card, count as nat);
            lemma_copies(card, count as nat);
            lemma_in_suit_grows(trump, suit, entries@, i + 1);
        }
        if trump.effective_suit(card) == suit {
            match sum.checked_add(count) {
                Some(s) => {
                    sum = s;
                },
                None => {
                    return false;
                },
            }
        }
    }
    assert(entries@.take(entries.len() as int) =~= entries@);
    sum == n
}

proof fn lemma_in_suit_grows(
    t: Trump,
    suit: EffectiveSuit,
    entries: Seq<(Card, usize)>,
    i: int,
)
    requires
        0 <= i <= entries.len(),
    ensures
        in_suit(t, suit, tally(entries.take(i))).len() <= in_suit(t, suit, tally(entries)).len(),
    decreases entries.len() - i,
{
    if i == entries.len() {
        assert(entries.take(i) =~= entries);
    } else {
        lemma_in_suit_grows(t, suit, entries, i + 1);
        assert(entries.take(i + 1).drop_last() =~= entries.take(i));
        lemma_in_suit_step(t, suit, tally(entries.take(i)), entries[i].0, entries[i].1 as nat);
    }
}

/// The cards of `hand` in `suit`, in their order.
pub fn hand_in_suit(hand: &CardCounts, trump: Trump, suit: EffectiveSuit) -> (r: SortedCounts)
    requires
        hand.wf(),
    ensures
        r.wf(),
        r.order() == trump,
        r@ == in_suit(trump, suit, hand@),
{
    let entries = hand.entries();
    let mut counts = SortedCounts::new(trump);
    assert(tally(entries@.take(0)) =~= Multiset::empty());
    assert(in_suit(trump, suit, Multiset::empty()) =~= Multiset::empty());
    for i in 0..entries.len()
        invariant
            tally(entries@) == hand@,
            distinct(entries@),
            counts.wf(),
            counts.order() == trump,
            counts@ == in_suit(trump, suit, tally(entries@.take(i as int))),
    {
        let (card, count) = entries[i];
        proof {
            assert(entries@.take(i + 1).drop_last() =~= entries@.take(i as int));
            lemma_in_suit_step(trump, suit, tally(entries@.take(i as int)), card, count as nat);
            assert forall|j: int| 0 <= j < i implies (#[trigger] entries@.take(i as int)[j]).0
                != card by {
                assert(entries@[j].0 != entries@[i as int].0);
            }
            lemma_tally_absent(entries@.take(i as int), card);
        }
        if trump.effective_suit(card) == suit {
            counts.put(card, count);
        }
    }
    assert(entries@.take(entries.len() as int) =~= entries@);
    counts
}

impl TrickFormat {
    /// Whether a play of `proposed` is legal for someone who holds `hand`.
    pub fn is_legal_play(&self, hand: &CardCounts, proposed: &[Card]) -> (r: bool)
        requires
            hand.wf(),
        ensures
            r == legal_play(self@, hand@, proposed@),
    {
        let num_proposed = proposed.len();
        match count_cards(&self.units) {
            None => {
                return false;
            },
            Some(required) => {
                if num_proposed != required {
                    return false;
                }
            },
        }
        let num_proposed_correct_suit = count_in_suit(self.trump, self.suit, proposed);
        if num_proposed_correct_suit < num_proposed {
            // If this is all of the suit that is available, it is fine; otherwise not.
            return has_in_suit(hand, self.trump, self.suit, num_proposed_correct_suit);
        }
        let mut available = hand_in_suit(hand, self.trump, self.suit);
        let ghost t = self.trump;
        let ghost played = proposed@.to_multiset();
        let ghost held = in_suit(self.trump, self.suit, hand@);
        let ghost root = shapes(self@.units);
        let mut requirements = ShapeLists::new();
        let first = shapes_of(&self.units);
        requirements.push(first);
        proof {
            assert(requirements.model() =~= seq![root]);
            assert(seq![root].drop_last() =~= seq![]);
            reveal_with_fuel(stack_verdict, 2);
        }
        loop
            invariant
                t == self.trump,
                played == proposed@.to_multiset(),
                held == in_suit(self.trump, self.suit, hand@),
                root == shapes(self@.units),
                available.wf(),
                available.order() == t,
                available@ == held,
                stack_verdict(t, played, held, requirements.model()) == verdict(
                    t,
                    played,
                    held,
                    root,
                ),
                legal_play(self@, hand@, proposed@) == (verdict(t, played, held, root) != Some(
                    false,
                )),
            decreases work(requirements.model()),
        {
            let ghost stack = requirements.model();
            match requirements.pop() {
                None => {
                    // Neither the play nor the hand can meet any of the requirements.
                    assert(stack.len() == 0);
                    return true;
                },
                Some(requirement) => {
                    proof {
                        assert(stack =~= requirements.model().push(requirement@));
                        assert(stack.drop_last() =~= requirements.model());
                    }
                    // If it's a match, we're good.
                    let play_matches = UnitLike::check_play(
                        self.trump,
                        proposed,
                        requirement.as_slice(),
                    ).0;
                    if play_matches {
                        return true;
                    }
                    // Otherwise, if the hand could match, it's not OK.
                    assert(requirement@.skip(0) =~= requirement@);
                    let hand_can_play = check_format_inner(
                        &mut available,
                        requirement.as_slice(),
                        0,
                    ).0;
                    if hand_can_play {
                        return false;
                    }
                    // Otherwise, downgrade the requirements.
                    proof {
                        let rest = requirements.model();
                        let more = downgrades(requirement@);
                        lemma_stack_verdict(t, played, held, rest, requirement@, more.len());
                        assert(more.take(more.len() as int) =~= more);
                        lemma_work(rest, requirement@);
                    }
                    push_downgrades(&mut requirements, requirement);
                },
            }
        }
    }
}

/// The units with which `cards` match the format: cards of one suit, which is that of the format
/// or trump, as many as the format has, and with units of its shapes.
pub open spec fn matching(f: Format, cards: Seq<Card>) -> Option<Seq<Unit>> {
    let suit = f.trump.suit_of(cards[0]);
    if all_in_suit(f.trump, suit, cards) && (suit == f.suit || suit == EffectiveSuit::Trump)
        && cards.len() == total_size(f.units) {
        first_fit(f.trump, cards.to_multiset(), shapes(f.units))
    } else {
        None
    }
}

/// The counts and lengths of `units` are machine integers.
pub open spec fn representable(units: Seq<Unit>) -> bool {
    forall|i: int|
        0 <= i < units.len() ==> (#[trigger] units[i]).width() <= usize::MAX
            && units[i].members().len() <= usize::MAX
}

proof fn lemma_total_shape_size(units: Seq<Unit>)
    requires
        representable(units),
    ensures
        total_shape_size(shapes(units)) == total_size(units),
    decreases units.len(),
{
    if units.len() > 0 {
        let rest = units.drop_last();
        assert forall|i: int| 0 <= i < rest.len() implies (#[trigger] rest[i]).width()
            <= usize::MAX && rest[i].members().len() <= usize::MAX by {
            assert(rest[i] == units[i]);
        }
        lemma_total_shape_size(rest);
        let last = units[units.len() - 1];
        assert(last.shape().size() == last.size());
        assert(shapes(units) =~= shapes(rest).push(last.shape()));
        lemma_total_shape_size_push(shapes(rest), last.shape());
    }
}

proof fn lemma_total_shape_size_push(list: Seq<UnitLike>, shape: UnitLike)
    ensures
        total_shape_size(list.push(shape)) == total_shape_size(list) + shape.size(),
    decreases list.len(),
{
    if list.len() == 0 {
        reveal_with_fuel(total_shape_size, 2);
        assert(list.push(shape).skip(1) =~= seq![]);
    } else {
        lemma_total_shape_size_push(list.skip(1), shape);
        assert(list.push(shape).skip(1) =~= list.skip(1).push(shape));
    }
}

/// The units with which cards match a format use all the cards, and have the shapes of the
/// format's units, from the last to the first.
pub proof fn a_match_has_the_shapes(f: Format, cards: Seq<Card>, found: Seq<Unit>)
    requires
        representable(f.units),
        matching(f, cards) == Some(found),
    ensures
        total(found) == cards.to_multiset(),
        found.len() == f.units.len(),
        forall|i: int|
            0 <= i < f.units.len() ==> found[f.units.len() - 1 - i].shape() == (
            #[trigger] f.units[i]).shape(),
{
    let wanted = shapes(f.units);
    let m = cards.to_multiset();
    search_is_complete(f.trump, m, wanted);
    lemma_total_shape_size(f.units);
    arrangement_has_the_shapes(f.trump, m, wanted, found);
    assert forall|i: int| 0 <= i < f.units.len() implies found[f.units.len() - 1 - i].shape() == (
    #[trigger] f.units[i]).shape() by {
        assert(wanted[i] == f.units[i].shape());
    }
}

/// Whether all of `cards` belong to `suit`.
pub(crate) fn have_suit(trump: Trump, suit: EffectiveSuit, cards: &[Card]) -> (r: bool)
    ensures
        r == all_in_suit(trump, suit, cards@),
{
    for i in 0..cards.len()
        invariant
            forall|j: int| 0 <= j < i ==> trump.suit_of(#[trigger] cards@[j]) == suit,
    {
        if trump.effective_suit(cards[i]) != suit {
            return false;
        }
    }
    true
}

/// What makes a unit stand out: its size and, between equals, that it is a tractor.
pub open spec fn weight(u: Unit) -> int {
    2 * u.size() + if u is Tractor {
        1int
    } else {
        0int
    }
}

/// The weight of the weightiest unit.
pub open spec fn top_weight(units: Seq<Unit>) -> int
    decreases units.len(),
{
    if units.len() == 0 {
        -1
    } else if top_weight(units.drop_last()) > weight(units.last()) {
        top_weight(units.drop_last())
    } else {
        weight(units.last())
    }
}

/// `list[k]` has the weightiest unit; among equals it is the last.
pub open spec fn is_best(list: Seq<Seq<Unit>>, k: int) -> bool {
    0 <= k < list.len() && forall|j: int|
        0 <= j < list.len() ==> top_weight(#[trigger] list[j]) <= top_weight(list[k]) && (k < j
            ==> top_weight(list[j]) < top_weight(list[k]))
}

/// The play of `list` that is taken for what was meant.
pub open spec fn best_play(list: Seq<Seq<Unit>>) -> Seq<Unit> {
    list[choose|k: int| is_best(list, k)]
}

/// The format that a first play of `cards` sets.
pub open spec fn lead_format(t: Trump, cards: Seq<Card>) -> Format {
    Format {
        suit: t.suit_of(cards[0]),
        trump: t,
        units: sorted_units(best_play(plays(t, cards.to_multiset()))),
    }
}

fn heavier(a: (usize, bool), b: (usize, bool)) -> (r: bool)
    ensures
        r == (2 * a.0 + (if a.1 {
            1int
        } else {
            0int
        }) > 2 * b.0 + (if b.1 {
            1int
        } else {
            0int
        })),
{
    a.0 > b.0 || a.0 == b.0 && a.1 && !b.1
}

/// The size of the weightiest unit, and whether it is a tractor.
fn heaviest(units: &Units) -> (r: (usize, bool))
    requires
        units.model().len() > 0,
        forall|i: int|
            0 <= i < units.model().len() ==> (#[trigger] units.model()[i]).size() <= usize::MAX,
    ensures
        2 * r.0 + (if r.1 {
            1int
        } else {
            0int
        }) == top_weight(units.model()),
{
    let list = units.as_slice();
    let ghost model = units.model();
    assert(list@.len() == model.len());
    assert(model[0] == list@[0]@);
    let mut best = (list[0].size(), list[0].is_tractor());
    proof {
        reveal_with_fuel(top_weight, 2);
        assert(model.take(1).drop_last() =~= seq![]);
        assert(model.take(1).last() == model[0]);
    }
    for i in 1..list.len()
        invariant
            list@ == units@,
            list@.len() > 0,
            model == units.model(),
            forall|i: int| 0 <= i < model.len() ==> (#[trigger] model[i]).size() <= usize::MAX,
            2 * best.0 + (if best.1 {
                1int
            } else {
                0int
            }) == top_weight(model.take(i as int)),
    {
        assert(model[i as int] == list@[i as int]@);
        assert(model.take(i + 1).drop_last() =~= model.take(i as int));
        let key = (list[i].size(), list[i].is_tractor());
        if !heavier(best, key) {
            best = key;
        }
    }
    assert(model.take(list.len() as int) =~= model);
    best
}

/// A play that splits the cards has as many cards as there are.
pub proof fn lemma_split_size(t: Trump, play: Seq<Unit>)
    requires
        forall|i: int| 0 <= i < play.len() ==> proper(t, #[trigger] play[i]),
    ensures
        total_size(play) == total(play).len(),
    decreases play.len(),
{
    if play.len() > 0 {
        let rest = play.drop_last();
        assert forall|i: int| 0 <= i < rest.len() implies proper(t, #[trigger] rest[i]) by {
            assert(rest[i] == play[i]);
        }
        lemma_split_size(t, rest);
        let u = play[play.len() - 1];
        assert(proper(t, u));
        if let Unit::Repeated { card, .. } = u {
            climbing_one(t, card);
            assert(u.members() =~= seq![card]);
        }
        lemma_unit_tally(t, u);
    }
}

pub proof fn lemma_size_in_total(units: Seq<Unit>, i: int)
    requires
        0 <= i < units.len(),
    ensures
        units[i].size() <= total_size(units),
    decreases units.len(),
{
    if i < units.len() - 1 {
        lemma_size_in_total(units.drop_last(), i);
    }
}

/// Everything about a way to split the cards that sorting it needs.
proof fn lemma_play_units(t: Trump, m: Multiset<Card>, play: Seq<Unit>)
    requires
        splits(t, m, play),
    ensures
        forall|i: int|
            0 <= i < play.len() ==> (#[trigger] play[i]).size() <= m.len()
                && play[i].members().len() > 0,
{
    lemma_split_size(t, play);
    assert forall|i: int| 0 <= i < play.len() implies (#[trigger] play[i]).size() <= m.len()
        && play[i].members().len() > 0 by {
        lemma_size_in_total(play, i);
        assert(proper(t, play[i]));
    }
}

pub proof fn lemma_best_exists(list: Seq<Seq<Unit>>)
    requires
        list.len() > 0,
    ensures
        exists|k: int| is_best(list, k),
    decreases list.len(),
{
    let last = list.len() - 1;
    if list.len() == 1 {
        assert(is_best(list, 0));
    } else {
        let rest = list.drop_last();
        lemma_best_exists(rest);
        let k = choose|k: int| is_best(rest, k);
        assert(rest[k] == list[k]);
        assert forall|j: int| 0 <= j < rest.len() implies top_weight(#[trigger] list[j])
            <= top_weight(list[k]) && (k < j ==> top_weight(list[j]) < top_weight(list[k])) by {
            assert(rest[j] == list[j]);
        }
        if top_weight(list[last]) < top_weight(list[k]) {
            assert(is_best(list, k));
        } else {
            assert(is_best(list, last));
        }
    }
}

/// The units of the format that a first play sets are the cards of the play, split into proper
/// units.
pub proof fn lead_splits_the_cards(t: Trump, cards: Seq<Card>)
    requires
        cards.len() > 0,
    ensures
        splits(t, cards.to_multiset(), lead_format(t, cards).units),
        total_size(lead_format(t, cards).units) == cards.len(),
{
    let m = cards.to_multiset();
    let list = plays(t, m);
    plays_split_the_cards(t, m);
    lemma_best_exists(list);
    let k = choose|k: int| is_best(list, k);
    let play = list[k];
    assert(splits(t, m, play));
    assert forall|i: int| 0 <= i < play.len() implies (#[trigger] play[i]).first().trump == t by {
        assert(proper(t, play[i]));
    }
    let units = sorted_units(play);
    sorted_units_are_sorted(t, play, play[0]);
    assert(units.len() == units.to_multiset().len());
    assert forall|i: int| 0 <= i < units.len() implies proper(t, #[trigger] units[i]) by {
        assert(units.contains(units[i]));
        assert(units.to_multiset().count(units[i]) > 0);
        assert(play.contains(units[i]));
        assert(play[play.index_of(units[i])] == units[i]);
    }
    lemma_split_size(t, units);
}

/// The index of the best play.
fn choose_play(list: &Plays) -> (r: usize)
    requires
        list.model().len() > 0,
        forall|i: int, j: int|
            0 <= i < list.model().len() && 0 <= j < list.model()[i].len() ==> (
            #[trigger] list.model()[i][j]).size() <= usize::MAX,
        forall|i: int| 0 <= i < list.model().len() ==> (#[trigger] list.model()[i]).len() > 0,
    ensures
        r < list@.len(),
        is_best(list.model(), r as int),
        list.model()[r as int] == best_play(list.model()),
{
    let plays = list.as_slice();
    let ghost model = list.model();
    assert(plays@.len() == model.len());
    assert(model[0] == plays@[0].model());
    let mut at: usize = 0;
    let mut best = heaviest(&plays[0]);
    for i in 1..plays.len()
        invariant
            plays@ == list@,
            plays@.len() > 0,
            model == list.model(),
            forall|i: int, j: int|
                0 <= i < model.len() && 0 <= j < model[i].len() ==> (
                #[trigger] model[i][j]).size() <= usize::MAX,
            forall|i: int| 0 <= i < model.len() ==> (#[trigger] model[i]).len() > 0,
            at < i,
            2 * best.0 + (if best.1 {
                1int
            } else {
                0int
            }) == top_weight(model[at as int]),
            forall|j: int|
                0 <= j < i ==> top_weight(#[trigger] model[j]) <= top_weight(model[at as int]) && (
                at < j ==> top_weight(model[j]) < top_weight(model[at as int])),
    {
        assert(model[i as int] == plays@[i as int].model());
        assert(model[i as int].len() > 0);
        let key = heaviest(&plays[i]);
        if !heavier(best, key) {
            best = key;
            at = i;
        }
    }
    proof {
        assert(is_best(model, at as int));
        let k = choose|k: int| is_best(model, k);
        assert(is_best(model, k));
        assert(top_weight(model[k]) <= top_weight(model[at as int]));
        assert(top_weight(model[at as int]) <= top_weight(model[k]));
    }
    at
}

impl TrickFormat {
    /// The units with which `cards` match the format.
    pub fn matches(&self, cards: &[Card]) -> (r: Result<Units, TrickError>)
        requires
            cards@.len() > 0,
        ensures
            match r {
                Ok(units) => matching(self@, cards@) == Some(units.model()),
                Err(e) => e == TrickError::NonMatchingPlay && matching(self@, cards@) is None,
            },
    {
        let suit = self.trump.effective_suit(cards[0]);
        if !have_suit(self.trump, suit, cards) {
            return Err(TrickError::NonMatchingPlay);
        }
        if suit != self.suit && suit != EffectiveSuit::Trump {
            return Err(TrickError::NonMatchingPlay);
        }
        let num_cards = cards.len();
        match count_cards(&self.units) {
            None => {
                return Err(TrickError::NonMatchingPlay);
            },
            Some(required) => {
                if num_cards != required {
                    return Err(TrickError::NonMatchingPlay);
                }
            },
        }
        let wanted = shapes_of(&self.units);
        let (found, found_units) = UnitLike::check_play(self.trump, cards, wanted.as_slice());
        if found {
            Ok(found_units)
        } else {
            Err(TrickError::NonMatchingPlay)
        }
    }

    /// The format that a first play of `cards` sets.
    pub fn from_cards(trump: Trump, cards: &[Card]) -> (r: Result<TrickFormat, TrickError>)
        ensures
            match r {
                Ok(f) => cards@.len() > 0 && all_in_suit(trump, trump.suit_of(cards@[0]), cards@)
                    && f@ == lead_format(trump, cards@),
                Err(e) => e == TrickError::WrongNumberOfSuits && (cards@.len() == 0
                    || !all_in_suit(trump, trump.suit_of(cards@[0]), cards@)),
            },
    {
        let num_cards = cards.len();
        if num_cards == 0 {
            return Err(TrickError::WrongNumberOfSuits);
        }
        let suit = trump.effective_suit(cards[0]);
        if !have_suit(trump, suit, cards) {
            return Err(TrickError::WrongNumberOfSuits);
        }
        let possibilities = TrickUnit::find_plays(trump, cards);
        let ghost m = cards@.to_multiset();
        let ghost model = possibilities.model();
        proof {
            plays_split_the_cards(trump, m);
            assert forall|i: int, j: int|
                0 <= i < model.len() && 0 <= j < model[i].len() implies (
            #[trigger] model[i][j]).size() <= usize::MAX by {
                assert(splits(trump, m, model[i]));
                lemma_play_units(trump, m, model[i]);
            }
            assert forall|i: int| 0 <= i < model.len() implies (#[trigger] model[i]).len() > 0 by {
                assert(splits(trump, m, model[i]));
            }
        }
        let best = choose_play(&possibilities);
        let list = possibilities.as_slice();
        proof {
            assert(model[best as int] == list@[best as int].model());
            assert(splits(trump, m, model[best as int]));
            lemma_play_units(trump, m, model[best as int]);
        }
        let units = sort_units(&list[best]);
        Ok(TrickFormat { suit, units, trump })
    }
}

proof fn lemma_total_front(units: Seq<Unit>)
    requires
        units.len() > 0,
    ensures
        total(units) == units[0].tally().add(total(units.skip(1))),
    decreases units.len(),
{
    let rest = units.skip(1);
    if units.len() == 1 {
        reveal_with_fuel(total, 2);
        assert(units.drop_last() =~= seq![]);
        assert(rest =~= seq![]);
    } else {
        let front = units.drop_last();
        lemma_total_front(front);
        assert(front.skip(1) =~= rest.drop_last());
        assert(rest.last() == units.last());
    }
    assert(total(units) =~= units[0].tally().add(total(rest)));
}

proof fn lemma_total_skip(units: Seq<Unit>, i: int)
    requires
        0 <= i <= units.len(),
    ensures
        total(units.skip(i)).subset_of(total(units)),
    decreases i,
{
    if i == 0 {
        assert(units.skip(0) =~= units);
    } else {
        lemma_total_front(units);
        lemma_total_skip(units.skip(1), i - 1);
        assert(units.skip(1).skip(i - 1) =~= units.skip(i));
        assert forall|c: Card| total(units.skip(i)).count(c) <= total(units).count(c) by {
            assert(total(units.skip(i)).count(c) <= total(units.skip(1)).count(c));
        }
    }
}

/// A card that is there belongs to one of the units.
proof fn lemma_owner(units: Seq<Unit>, c: Card) -> (i: int)
    requires
        total(units).count(c) > 0,
    ensures
        0 <= i < units.len(),
        units[i].tally().count(c) > 0,
    decreases units.len(),
{
    if units.last().tally().count(c) > 0 {
        units.len() - 1
    } else {
        lemma_owner(units.drop_last(), c)
    }
}

/// All units together have at least what one of them has.
pub proof fn lemma_unit_in_total(units: Seq<Unit>, i: int)
    requires
        0 <= i < units.len(),
    ensures
        units[i].tally().subset_of(total(units)),
    decreases units.len(),
{
    if i < units.len() - 1 {
        lemma_unit_in_total(units.drop_last(), i);
        assert(units.drop_last()[i] == units[i]);
        assert forall|c: Card| units[i].tally().count(c) <= total(units).count(c) by {
            assert(units[i].tally().count(c) <= total(units.drop_last()).count(c));
        }
    } else {
        assert forall|c: Card| units[i].tally().count(c) <= total(units).count(c) by {}
    }
}

/// Where each unit stands out among its own cards and those of the units behind it, the units can
/// be found again, in turn, among their cards.
proof fn lemma_found_again(t: Trump, units: Seq<Unit>)
    requires
        representable(units),
        forall|i: int| 0 <= i < units.len() ==> proper(t, #[trigger] units[i]),
        forall|i: int|
            0 <= i < units.len() ==> stands_out(t, total(units.skip(i)), #[trigger] units[i]),
    ensures
        arranged(
            t,
            total(units),
            shapes(units),
            Seq::new(units.len(), |i: int| units[units.len() - 1 - i]),
        ),
    decreases units.len(),
{
    let found = Seq::new(units.len(), |i: int| units[units.len() - 1 - i]);
    let m = total(units);
    if units.len() > 0 {
        let u = units[0];
        let rest = units.skip(1);
        assert forall|i: int| 0 <= i < rest.len() implies proper(t, #[trigger] rest[i])
            && rest[i].width() <= usize::MAX && rest[i].members().len() <= usize::MAX
            && stands_out(t, total(rest.skip(i)), rest[i]) by {
            assert(rest[i] == units[i + 1]);
            assert(rest.skip(i) =~= units.skip(i + 1));
        }
        lemma_found_again(t, rest);
        lemma_total_front(units);
        assert(m.sub(u.tally()) =~= total(rest));
        assert(shapes(units).skip(1) =~= shapes(rest));
        assert(found.drop_last() =~= Seq::new(rest.len(), |i: int| rest[rest.len() - 1 - i]));
        assert(found.last() == u);
        assert(shapes(units)[0] == u.shape());
        assert(units.skip(0) =~= units);
        lemma_unit_in_total(units, 0);
        match u {
            Unit::Repeated { count, card } => {
                climbing_one(t, card);
                lemma_unit_tally(t, u);
                assert(u.members()[0].card == card.card);
                assert(u.tally().count(card.card) == count);
                assert(u.tally().count(card.card) <= m.count(card.card));
                repeated_cards_are_candidates(t, m, count as usize, card.card);
            },
            Unit::Tractor { .. } => {
                tractors_that_stand_out_are_candidates(t, m, u);
            },
        }
    }
}

/// A way to split cards is found again by its shapes if each of its units stands out among its own
/// cards and those of the units behind it.
pub proof fn plays_that_stand_out_are_found(t: Trump, m: Multiset<Card>, play: Seq<Unit>)
    requires
        splits(t, m, play),
        m.len() <= usize::MAX,
        forall|i: int|
            0 <= i < play.len() ==> stands_out(t, total(play.skip(i)), #[trigger] play[i]),
    ensures
        first_fit(t, m, shapes(play)) is Some,
{
    lemma_split_size(t, play);
    assert forall|i: int| 0 <= i < play.len() implies (#[trigger] play[i]).width() <= usize::MAX
        && play[i].members().len() <= usize::MAX by {
        assert(proper(t, play[i]));
        lemma_size_in_total(play, i);
        match play[i] {
            Unit::Tractor { count, members } => {
                assert(count <= count * members.len() && members.len() <= count * members.len())
                    by (nonlinear_arith)
                    requires
                        count >= 2,
                        members.len() >= 2,
                ;
            },
            Unit::Repeated { .. } => {},
        }
    }
    lemma_found_again(t, play);
    search_is_complete(t, m, shapes(play));
}

/// No two of `units` are tractors.
pub open spec fn one_tractor_at_most(units: Seq<Unit>) -> bool {
    forall|i: int, j: int|
        0 <= i < j < units.len() ==> !((#[trigger] units[i]) is Tractor && (
        #[trigger] units[j]) is Tractor)
}

/// The cards of a proper unit.
proof fn lemma_proper_tally(t: Trump, u: Unit)
    requires
        proper(t, u),
    ensures
        forall|c: Card|
            #[trigger] u.tally().count(c) == if among(u.members(), c) {
                u.width()
            } else {
                0
            },
        u.width() > 0,
        u.size() >= u.width(),
        u is Tractor ==> u.size() >= 2 * u.width(),
{
    match u {
        Unit::Repeated { card, .. } => {
            climbing_one(t, card);
            assert(u.members() =~= seq![card]);
        },
        Unit::Tractor { count, members } => {
            assert(count * members.len() >= 2 * count) by (nonlinear_arith)
                requires
                    members.len() >= 2,
                    count >= 0,
            ;
        },
    }
    lemma_unit_tally(t, u);
}

/// The tractor of a play that is listed stands out: what is listed behind it lies below it.
proof fn lemma_listed_stands_out(t: Trump, m: Multiset<Card>, play: Seq<Unit>, i: int)
    requires
        splits(t, m, play),
        descends(t, m, play),
        one_tractor_at_most(play),
        0 <= i < play.len(),
    ensures
        stands_out(t, total(play.skip(i)), play[i]),
{
    let u = play[i];
    let tail = play.skip(i);
    let rest = play.skip(i + 1);
    if u is Tractor {
        assert(proper(t, u));
        lemma_proper_tally(t, u);
        lemma_total_front(tail);
        assert(tail[0] == u);
        assert(tail.skip(1) =~= rest);
        assert forall|c: Card| t.rank(c) >= t.rank(u.first().card) implies #[trigger] total(
            tail,
        ).count(c) == u.tally().count(c) by {
            if total(rest).count(c) > 0 {
                let k = lemma_owner(rest, c);
                let below = play[i + 1 + k];
                assert(rest[k] == below);
                assert(proper(t, below));
                lemma_proper_tally(t, below);
                assert(below is Repeated);
                assert(below.first().card == c);
                assert(t.rank(play[i].first().card) > t.rank(below.first().card));
            }
        }
        let first = u.members()[0].card;
        assert(among(u.members(), first));
        assert(total(tail).count(first) == u.width());
    }
}

/// Every way to split cards that is listed and has one tractor at most is found again by its
/// shapes.
pub proof fn plays_with_one_tractor_are_found(t: Trump, m: Multiset<Card>, i: int)
    requires
        m.len() <= usize::MAX,
        0 <= i < plays(t, m).len(),
        one_tractor_at_most(plays(t, m)[i]),
    ensures
        first_fit(t, m, shapes(plays(t, m)[i])) is Some,
{
    let play = plays(t, m)[i];
    plays_split_the_cards(t, m);
    plays_descend(t, m);
    assert forall|j: int| 0 <= j < play.len() implies stands_out(
        t,
        total(play.skip(j)),
        #[trigger] play[j],
    ) by {
        lemma_listed_stands_out(t, m, play, j);
    }
    plays_that_stand_out_are_found(t, m, play);
}

pub proof fn lemma_top_weight(units: Seq<Unit>)
    ensures
        forall|i: int|
            0 <= i < units.len() ==> weight(#[trigger] units[i]) <= top_weight(units),
        units.len() > 0 ==> exists|i: int|
            0 <= i < units.len() && weight(#[trigger] units[i]) == top_weight(units),
    decreases units.len(),
{
    if units.len() > 0 {
        let rest = units.drop_last();
        let end = units.len() - 1;
        lemma_top_weight(rest);
        assert forall|i: int| 0 <= i < units.len() implies weight(#[trigger] units[i])
            <= top_weight(units) by {
            if i < end {
                assert(rest[i] == units[i]);
            }
        }
        if top_weight(rest) > weight(units[end]) {
            let i = choose|i: int|
                0 <= i < rest.len() && weight(#[trigger] rest[i]) == top_weight(rest);
            assert(units[i] == rest[i]);
        } else {
            assert(weight(units[end]) == top_weight(units));
        }
    }
}

/// The best play either splits no card over several units, or has a tractor that is at least as
/// large as any card occurs often.
proof fn lemma_best_play(t: Trump, m: Multiset<Card>, play: Seq<Unit>)
    requires
        m.len() > 0,
        play == best_play(plays(t, m)),
    ensures
        uses_all_copies(m, play) || exists|i: int|
            0 <= i < play.len() && (#[trigger] play[i]) is Tractor && forall|c: Card| #[trigger]
                m.count(c) <= play[i].size(),
{
    let list = plays(t, m);
    plays_split_the_cards(t, m);
    lemma_best_exists(list);
    let k = choose|k: int| is_best(list, k);
    let end = list.len() - 1;
    last_play_uses_all_copies(t, m);
    if k < end {
        let last = list[end];
        assert(top_weight(last) < top_weight(play));
        assert(splits(t, m, last));
        assert(splits(t, m, play));
        lemma_top_weight(play);
        lemma_top_weight(last);
        let i = choose|i: int|
            0 <= i < play.len() && weight(#[trigger] play[i]) == top_weight(play);
        assert forall|c: Card| 2 * m.count(c) <= top_weight(last) by {
            if m.count(c) > 0 {
                let j = lemma_owner(last, c);
                assert(proper(t, last[j]));
                lemma_proper_tally(t, last[j]);
                let a = choose|a: int|
                    0 <= a < last[j].members().len() && (#[trigger] last[j].members()[a]).card == c;
                assert(m.count(last[j].members()[a].card) == last[j].width());
                assert(weight(last[j]) <= top_weight(last));
            } else {
                assert(weight(last[0]) <= top_weight(last));
            }
        }
        assert(proper(t, play[i]));
        if let Unit::Repeated { count, card } = play[i] {
            lemma_proper_tally(t, play[i]);
            assert(play[i].members()[0].card == card.card);
            assert(among(play[i].members(), card.card));
            lemma_unit_in_total(play, i);
            assert(play[i].tally().count(card.card) <= m.count(card.card));
            assert(2 * m.count(card.card) <= top_weight(last));
        }
        assert forall|c: Card| #[trigger] m.count(c) <= play[i].size() by {
            assert(2 * m.count(c) <= top_weight(last));
        }
    }
}

/// The tractor of a lead stands out among its own cards and those of the larger units.
proof fn lemma_lead_stands_out(t: Trump, cards: Seq<Card>, i: int)
    requires
        cards.len() > 0,
        0 <= i < lead_format(t, cards).units.len(),
        one_tractor_at_most(lead_format(t, cards).units),
    ensures
        stands_out(
            t,
            total(lead_format(t, cards).units.skip(i)),
            lead_format(t, cards).units[i],
        ),
{
    let m = cards.to_multiset();
    let play = best_play(plays(t, m));
    let units = lead_format(t, cards).units;
    let u = units[i];
    let tail = units.skip(i);
    if u is Tractor {
        lead_splits_the_cards(t, cards);
        lemma_sorted_lead(t, cards);
        lemma_best_play(t, m, play);
        lemma_total_skip(units, i);
        lemma_total_front(tail);
        assert(tail[0] == u);
        assert(proper(t, u));
        lemma_proper_tally(t, u);
        let rest = tail.skip(1);
        let first = u.members()[0].card;
        assert(among(u.members(), first));
        assert(total(tail).count(first) == u.width()) by {
            if total(rest).count(first) > 0 {
                let k = lemma_owner(rest, first);
                let other = units[i + 1 + k];
                assert(rest[k] == other);
                assert(proper(t, other));
                lemma_proper_tally(t, other);
                lemma_unit_in_total(rest, k);
                assert(other.tally().count(first) <= total(rest).count(first));
                assert(total(tail).count(first) <= m.count(first));
                if uses_all_copies(m, play) {
                    let a = play.index_of(u);
                    assert(play.contains(u) && play[a] == u);
                    assert(m.count(play[a].members()[0].card) == u.width());
                } else {
                    let a = choose|a: int|
                        0 <= a < play.len() && (#[trigger] play[a]) is Tractor && forall|c: Card|
                            #[trigger] m.count(c) <= play[a].size();
                    let b = units.index_of(play[a]);
                    assert(units.contains(play[a]) && units[b] == play[a]);
                    assert(b == i) by {
                        if b < i {
                            assert(!(units[b] is Tractor && units[i] is Tractor));
                        } else if b > i {
                            assert(!(units[i] is Tractor && units[b] is Tractor));
                        }
                    }
                    assert(other is Repeated);
                    assert(m.count(first) <= u.size());
                    assert(other.size() >= u.size());
                    assert(other.tally().count(first) == other.size());
                }
            }
        }
        assert forall|c: Card| #[trigger] total(tail).count(c) > 0 implies total(tail).count(c)
            >= u.width() by {
            let k = lemma_owner(tail, c);
            let other = units[i + k];
            assert(tail[k] == other);
            assert(proper(t, other));
            lemma_proper_tally(t, other);
            lemma_unit_in_total(tail, k);
            assert(other.tally().count(c) <= total(tail).count(c));
            if k > 0 {
                assert(!(units[i] is Tractor && units[i + k] is Tractor));
                assert(other.size() >= u.size());
            }
        }
        assert(total(tail).count(u.members()[0].card) == u.width());
    }
}

/// The units of a lead are those of the best play, by size.
proof fn lemma_sorted_lead(t: Trump, cards: Seq<Card>)
    requires
        cards.len() > 0,
    ensures
        ({
            let units = lead_format(t, cards).units;
            let play = best_play(plays(t, cards.to_multiset()));
            &&& forall|u: Unit| #[trigger] units.contains(u) <==> play.contains(u)
            &&& forall|i: int, j: int|
                0 <= i < j < units.len() ==> (#[trigger] units[i]).size() <= (
                #[trigger] units[j]).size()
            &&& forall|i: int| 0 <= i < units.len() ==> play.contains(#[trigger] units[i])
            &&& forall|i: int| 0 <= i < play.len() ==> units.contains(#[trigger] play[i])
        }),
{
    let m = cards.to_multiset();
    let list = plays(t, m);
    plays_split_the_cards(t, m);
    lemma_best_exists(list);
    let k = choose|k: int| is_best(list, k);
    let play = list[k];
    assert(splits(t, m, play));
    assert forall|i: int| 0 <= i < play.len() implies (#[trigger] play[i]).first().trump == t by {
        assert(proper(t, play[i]));
    }
    let units = sorted_units(play);
    sorted_units_are_sorted(t, play, play[0]);
    assert forall|u: Unit| #[trigger] units.contains(u) <==> play.contains(u) by {
        assert(units.to_multiset().count(u) == play.to_multiset().count(u));
    }
    assert forall|i: int, j: int| 0 <= i < j < units.len() implies (#[trigger] units[i]).size() <= (
    #[trigger] units[j]).size() by {
        assert(!unit_before(units[j], units[i]));
    }
    assert forall|i: int| 0 <= i < units.len() implies play.contains(#[trigger] units[i]) by {
        assert(units.contains(units[i]));
    }
    assert forall|i: int| 0 <= i < play.len() implies units.contains(#[trigger] play[i]) by {
        assert(play.contains(play[i]));
    }
}

/// A first play that has one tractor at most matches the format that it sets.
pub proof fn leads_with_one_tractor_match(t: Trump, cards: Seq<Card>)
    requires
        0 < cards.len() <= usize::MAX,
        all_in_suit(t, t.suit_of(cards[0]), cards),
        one_tractor_at_most(lead_format(t, cards).units),
    ensures
        matching(lead_format(t, cards), cards) is Some,
{
    let units = lead_format(t, cards).units;
    lead_splits_the_cards(t, cards);
    assert forall|i: int| 0 <= i < units.len() implies stands_out(
        t,
        total(units.skip(i)),
        #[trigger] units[i],
    ) by {
        lemma_lead_stands_out(t, cards, i);
    }
    plays_that_stand_out_are_found(t, cards.to_multiset(), units);
}

/// The different cards of a unit.
spec fn member_cards(u: Unit) -> Seq<Card> {
    u.members().map_values(|c: OrderedCard| c.card)
}

/// Units that take up all of `m` are the same.
proof fn lemma_same_unit(t: Trump, m: Multiset<Card>, a: Unit, b: Unit)
    requires
        proper(t, a),
        proper(t, b),
        a.tally() == m,
        b.tally() == m,
    ensures
        a == b,
{
    lemma_proper_tally(t, a);
    lemma_proper_tally(t, b);
    let x = member_cards(a);
    let y = member_cards(b);
    lemma_member_cards(t, a);
    lemma_member_cards(t, b);
    assert forall|c: Card| #[trigger] x.contains(c) <==> y.contains(c) by {
        assert(m.count(c) > 0 <==> x.contains(c));
        assert(m.count(c) > 0 <==> y.contains(c));
    }
    lemma_lists_unique(t, x, y);
    assert(a.members() =~= b.members()) by {
        assert forall|j: int| 0 <= j < a.members().len() implies a.members()[j]
            == b.members()[j] by {
            assert(x[j] == y[j]);
            assert(a.members()[j].trump == t && b.members()[j].trump == t);
        }
    }
    let first = a.members()[0].card;
    assert(among(a.members(), first));
    assert(among(b.members(), first)) by {
        assert(b.members()[0].card == first);
    }
    assert(a.width() == m.count(first));
    assert(b.width() == m.count(first));
}

/// The cards of a proper unit ascend.
proof fn lemma_member_cards(t: Trump, u: Unit)
    requires
        proper(t, u),
    ensures
        u.members().len() > 0,
        increasing(t, member_cards(u)),
        forall|j: int| 0 <= j < u.members().len() ==> (#[trigger] u.members()[j]).trump == t,
        forall|c: Card|
            #[trigger] member_cards(u).contains(c) <==> among(u.members(), c),
{
    let cards = member_cards(u);
    if let Unit::Repeated { card, .. } = u {
        assert(u.members() =~= seq![card]);
    }
    assert forall|i: int, j: int| 0 <= i < j < cards.len() implies t.rank(#[trigger] cards[i])
        < t.rank(#[trigger] cards[j]) by {
        assert(u.members()[i].rank() < u.members()[j].rank());
    }
    assert forall|c: Card| #[trigger] cards.contains(c) <==> among(u.members(), c) by {
        if cards.contains(c) {
            let j = cards.index_of(c);
            assert(u.members()[j].card == c);
        }
        if among(u.members(), c) {
            let j = choose|j: int|
                0 <= j < u.members().len() && (#[trigger] u.members()[j]).card == c;
            assert(cards[j] == c);
        }
    }
}

/// A first play of the cards of one proper unit is taken for that unit.
pub proof fn a_unit_leads_as_itself(t: Trump, u: Unit)
    requires
        proper(t, u),
    ensures
        lead_format(t, u.cards()).units == seq![u],
{
    let m = u.tally();
    let list = starts(t, m);
    lemma_proper_tally(t, u);
    size_counts_the_cards(u);
    assert(m.len() == u.size());
    proper_units_are_starts(t, u);
    let k = list.index_of(u);
    lemma_first_of_size(list, m.len(), k);
    let j = choose|j: int| first_of_size(list, m.len(), j);
    let play = seq![list[j]];
    assert(plays(t, m) =~= seq![play]);
    plays_split_the_cards(t, m);
    assert(splits(t, m, plays(t, m)[0]));
    assert(play[0] == list[j]);
    reveal_with_fuel(total, 2);
    assert(play.drop_last() =~= seq![]);
    assert(total(play) =~= list[j].tally());
    lemma_same_unit(t, m, list[j], u);
    assert(best_play(plays(t, m)) == play) by {
        lemma_best_exists(plays(t, m));
    }
    reveal_with_fuel(sorted_units, 2);
    assert(sorted_units(play) =~= seq![u]);
}

/// A play that matches the format in its own suit is legal, whatever else is in the hand.
pub proof fn matching_plays_are_legal(f: Format, hand: Multiset<Card>, proposed: Seq<Card>)
    requires
        all_in_suit(f.trump, f.suit, proposed),
        matching(f, proposed) is Some,
    ensures
        legal_play(f, hand, proposed),
{
    let all = proposed.to_multiset();
    let played = in_suit(f.trump, f.suit, all);
    assert forall|c: Card| all.count(c) > 0 implies f.trump.suit_of(c) == f.suit by {
        assert(proposed.contains(c));
        assert(proposed[proposed.index_of(c)] == c);
    }
    assert(played =~= all);
}

/// A legal play of cards from the hand follows suit as far as the hand allows.
pub proof fn legal_plays_follow_suit(f: Format, hand: Multiset<Card>, proposed: Seq<Card>)
    requires
        proposed.to_multiset().subset_of(hand),
        legal_play(f, hand, proposed),
    ensures
        ({
            let played = in_suit(f.trump, f.suit, proposed.to_multiset());
            let held = in_suit(f.trump, f.suit, hand);
            played.len() == proposed.len() || played == held
        }),
{
    let all = proposed.to_multiset();
    let played = in_suit(f.trump, f.suit, all);
    let held = in_suit(f.trump, f.suit, hand);
    lemma_filter_len(f.trump, f.suit, all);
    assert forall|c: Card| played.count(c) <= held.count(c) by {
        assert(all.count(c) <= hand.count(c));
    }
    if played.len() < proposed.len() {
        assert(held =~= played.add(held.sub(played)));
        assert(held.sub(played).len() == 0);
        assert(held.sub(played) =~= Multiset::empty());
        assert(played =~= held);
    }
}

pub proof fn lemma_filter_len(t: Trump, suit: EffectiveSuit, m: Multiset<Card>)
    ensures
        in_suit(t, suit, m).len() <= m.len(),
{
    let played = in_suit(t, suit, m);
    assert(m =~= played.add(m.sub(played)));
}

proof fn lemma_same_cards(t: Trump, m: Multiset<Card>, shapes: Seq<UnitLike>)
    ensures
        verdict(t, m, m, shapes) != Some(false),
    decreases total_strength(shapes), downgrades(shapes).len() + 1,
{
    lemma_same_cards_weaker(t, m, shapes, downgrades(shapes).len());
}

proof fn lemma_same_cards_weaker(t: Trump, m: Multiset<Card>, shapes: Seq<UnitLike>, k: nat)
    requires
        k <= downgrades(shapes).len(),
    ensures
        weaker_verdict(t, m, m, shapes, k) != Some(false),
    decreases total_strength(shapes), k,
{
    if k > 0 {
        lemma_downgrade(shapes, k - 1);
        lemma_same_cards(t, m, downgrades(shapes)[k - 1]);
        lemma_same_cards_weaker(t, m, shapes, (k - 1) as nat);
    }
}

/// A play with all cards of the suit that are in the hand, be there any or none, is legal if it
/// has as many cards as the format asks for.
pub proof fn playing_the_whole_suit_is_legal(f: Format, hand: Multiset<Card>, proposed: Seq<Card>)
    requires
        in_suit(f.trump, f.suit, proposed.to_multiset()) == in_suit(f.trump, f.suit, hand),
        proposed.len() == total_size(f.units),
    ensures
        legal_play(f, hand, proposed),
{
    let all = proposed.to_multiset();
    let played = in_suit(f.trump, f.suit, all);
    if played.len() == proposed.len() {
        assert(all =~= played.add(all.sub(played)));
        assert(all.sub(played).len() == 0);
        assert(all.sub(played) =~= Multiset::empty());
        assert(all =~= played);
        lemma_same_cards(f.trump, all, shapes(f.units));
    } else {
        lemma_filter_len(f.trump, f.suit, all);
    }
}

} // verus!

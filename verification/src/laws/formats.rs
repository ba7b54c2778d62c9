//! Laws of formats: what a lead asks for, what matches it and what is a legal answer.

use crate::format::{
    all_in_suit, downgrades, in_suit, is_best, lead_format, legal_play, lemma_best_exists,
    lemma_filter_len, lemma_top_weight, matching, shapes, top_weight, verdict, weaker_verdict,
    weight, Format,
};
use crate::laws::units::sorting_units;
use crate::plays::{plays, plays_split_the_cards, proper, splits};
use crate::search::{arranged, first_fit, search_is_complete, total_size};
use crate::types::{Card, EffectiveSuit, Trump};
use crate::unit::{Unit, UnitLike};
use vstd::multiset::Multiset;
use vstd::prelude::*;

verus! {

broadcast use {vstd::multiset::group_multiset_axioms, vstd::seq_lib::group_to_multiset_ensures};

/// The cards of a suit are those that count as it, as often as they are there.
pub proof fn cards_of_a_suit(t: Trump, suit: EffectiveSuit, m: Multiset<Card>, cards: Seq<Card>)
    ensures
        forall|c: Card|
            #[trigger] in_suit(t, suit, m).count(c) == if t.suit_of(c) == suit {
                m.count(c)
            } else {
                0
            },
        in_suit(t, suit, m).len() <= m.len(),
        all_in_suit(t, suit, cards) <==> forall|c: Card| #[trigger]
            cards.contains(c) ==> t.suit_of(c) == suit,
        all_in_suit(t, suit, cards) <==> in_suit(t, suit, cards.to_multiset()).len()
            == cards.len(),
{
    lemma_filter_len(t, suit, m);
    let all = cards.to_multiset();
    let those = in_suit(t, suit, all);
    if all_in_suit(t, suit, cards) {
        assert forall|c: Card| #[trigger] cards.contains(c) implies t.suit_of(c) == suit by {
            assert(cards[cards.index_of(c)] == c);
        }
        assert(those =~= all);
    }
    if forall|c: Card| #[trigger] cards.contains(c) ==> t.suit_of(c) == suit {
        assert forall|i: int| 0 <= i < cards.len() implies t.suit_of(#[trigger] cards[i])
            == suit by {
            assert(cards.contains(cards[i]));
        }
    }
    if those.len() == cards.len() {
        assert(all =~= those.add(all.sub(those)));
        assert(all.sub(those).len() == 0);
        assert(all.sub(those) =~= Multiset::empty());
        assert forall|i: int| 0 <= i < cards.len() implies t.suit_of(#[trigger] cards[i])
            == suit by {
            assert(cards.contains(cards[i]));
            assert(all.count(cards[i]) > 0);
            assert(all.sub(those).count(cards[i]) == 0);
        }
    }
}

/// A format asks for the shapes of its units, in their order.
pub proof fn shapes_of_a_format(units: Seq<Unit>)
    ensures
        shapes(units).len() == units.len(),
        forall|i: int| 0 <= i < units.len() ==> #[trigger] shapes(units)[i] == units[i].shape(),
{
}

/// Units of the shapes `wanted` can be found side by side among the cards `m`.
pub open spec fn can_show(t: Trump, m: Multiset<Card>, wanted: Seq<UnitLike>) -> bool {
    exists|found: Seq<Unit>| #[trigger] arranged(t, m, wanted, found)
}

proof fn lemma_can_show(t: Trump, m: Multiset<Card>, wanted: Seq<UnitLike>)
    ensures
        can_show(t, m, wanted) <==> first_fit(t, m, wanted) is Some,
{
    search_is_complete(t, m, wanted);
    if first_fit(t, m, wanted) is Some {
        assert(arranged(t, m, wanted, first_fit(t, m, wanted)->Some_0));
    }
}

proof fn lemma_weaker_verdict(
    t: Trump,
    played: Multiset<Card>,
    held: Multiset<Card>,
    wanted: Seq<UnitLike>,
    n: nat,
)
    requires
        n <= downgrades(wanted).len(),
    ensures
        match weaker_verdict(t, played, held, wanted, n) {
            Some(fine) => exists|k: int|
                {
                    &&& 0 <= k < n
                    &&& verdict(t, played, held, #[trigger] downgrades(wanted)[k]) == Some(fine)
                    &&& forall|j: int|
                        k < j < n ==> verdict(
                            t,
                            played,
                            held,
                            #[trigger] downgrades(wanted)[j],
                        ) is None
                },
            None => forall|j: int|
                0 <= j < n ==> verdict(t, played, held, #[trigger] downgrades(wanted)[j]) is None,
        },
    decreases n,
{
    if n > 0 {
        let last = n - 1;
        lemma_weaker_verdict(t, played, held, wanted, last as nat);
        match verdict(t, played, held, downgrades(wanted)[last]) {
            Some(fine) => {
                assert(verdict(t, played, held, downgrades(wanted)[last]) == Some(fine));
            },
            None => match weaker_verdict(t, played, held, wanted, last as nat) {
                Some(fine) => {
                    let k = choose|k: int|
                        {
                            &&& 0 <= k < last
                            &&& verdict(t, played, held, #[trigger] downgrades(wanted)[k]) == Some(
                                fine,
                            )
                            &&& forall|j: int|
                                k < j < last ==> verdict(
                                    t,
                                    played,
                                    held,
                                    #[trigger] downgrades(wanted)[j],
                                ) is None
                        };
                    assert(verdict(t, played, held, downgrades(wanted)[k]) == Some(fine));
                },
                None => {},
            },
        }
    }
}

/// A requirement that the play meets makes it fine, and one that the hand could have met but the
/// play does not makes it wrong. Where neither can meet it, its weaker forms are asked, the last
/// one first, and the first of those that has an answer decides.
pub proof fn how_requirements_decide(
    t: Trump,
    played: Multiset<Card>,
    held: Multiset<Card>,
    wanted: Seq<UnitLike>,
)
    ensures
        can_show(t, played, wanted) ==> verdict(t, played, held, wanted) == Some(true),
        !can_show(t, played, wanted) && can_show(t, held, wanted) ==> verdict(
            t,
            played,
            held,
            wanted,
        ) == Some(false),
        !can_show(t, played, wanted) && !can_show(t, held, wanted) ==> match verdict(
            t,
            played,
            held,
            wanted,
        ) {
            Some(fine) => exists|k: int|
                {
                    &&& 0 <= k < downgrades(wanted).len()
                    &&& verdict(t, played, held, #[trigger] downgrades(wanted)[k]) == Some(fine)
                    &&& forall|j: int|
                        k < j < downgrades(wanted).len() ==> verdict(
                            t,
                            played,
                            held,
                            #[trigger] downgrades(wanted)[j],
                        ) is None
                },
            None => forall|j: int|
                0 <= j < downgrades(wanted).len() ==> verdict(
                    t,
                    played,
                    held,
                    #[trigger] downgrades(wanted)[j],
                ) is None,
        },
{
    lemma_can_show(t, played, wanted);
    lemma_can_show(t, held, wanted);
    lemma_weaker_verdict(t, played, held, wanted, downgrades(wanted).len());
}

/// Shapes at the end that cannot be weakened are given up, and the last one that can is replaced
/// by each of its weaker forms.
pub proof fn how_requirements_weaken(
    before: Seq<UnitLike>,
    shape: UnitLike,
    behind: Seq<UnitLike>,
)
    requires
        shape.weaker().len() > 0,
        forall|i: int| 0 <= i < behind.len() ==> (#[trigger] behind[i]).weaker().len() == 0,
    ensures
        downgrades(before.push(shape) + behind).len() == shape.weaker().len(),
        forall|k: int|
            0 <= k < shape.weaker().len() ==> #[trigger] downgrades(before.push(shape) + behind)[k]
                == before + shape.weaker()[k],
        downgrades(behind).len() == 0,
    decreases behind.len(),
{
    let all = before.push(shape) + behind;
    if behind.len() == 0 {
        assert(all =~= before.push(shape));
        assert(all.drop_last() =~= before);
    } else {
        let fewer = behind.drop_last();
        assert forall|i: int| 0 <= i < fewer.len() implies (#[trigger] fewer[i]).weaker().len()
            == 0 by {
            assert(fewer[i] == behind[i]);
        }
        how_requirements_weaken(before, shape, fewer);
        assert(all.drop_last() =~= before.push(shape) + fewer);
        assert(all.last() == behind[behind.len() - 1]);
        assert(behind.last() == behind[behind.len() - 1]);
    }
}

/// A play needs as many cards as the format has.
pub proof fn legal_plays_have_the_right_size(f: Format, hand: Multiset<Card>, proposed: Seq<Card>)
    requires
        legal_play(f, hand, proposed),
    ensures
        proposed.len() == total_size(f.units),
{
}

/// A play of the right size that has cards of other suits is legal exactly if the hand has no
/// more cards of the suit than are played.
pub proof fn when_leaving_the_suit_is_legal(f: Format, hand: Multiset<Card>, proposed: Seq<Card>)
    requires
        proposed.len() == total_size(f.units),
        exists|i: int|
            0 <= i < proposed.len() && f.trump.suit_of(#[trigger] proposed[i]) != f.suit,
    ensures
        legal_play(f, hand, proposed) <==> in_suit(
            f.trump,
            f.suit,
            proposed.to_multiset(),
        ).len() == in_suit(f.trump, f.suit, hand).len(),
{
    cards_of_a_suit(f.trump, f.suit, proposed.to_multiset(), proposed);
    assert(proposed.to_multiset().len() == proposed.len());
}

/// A play within the suit is legal if units of the format can be found in it, and not if they
/// cannot but could be found among the cards of the suit in the hand. Where they can be found in
/// neither, the weaker forms of the format are asked, the last one first, and the play is not
/// legal exactly if the first of them that has an answer says so.
pub proof fn when_following_suit_is_legal(f: Format, hand: Multiset<Card>, proposed: Seq<Card>)
    requires
        proposed.len() == total_size(f.units),
        forall|i: int|
            0 <= i < proposed.len() ==> f.trump.suit_of(#[trigger] proposed[i]) == f.suit,
    ensures
        ({
            let t = f.trump;
            let wanted = shapes(f.units);
            let played = proposed.to_multiset();
            let held = in_suit(f.trump, f.suit, hand);
            &&& can_show(t, played, wanted) ==> legal_play(f, hand, proposed)
            &&& !can_show(t, played, wanted) && can_show(t, held, wanted) ==> !legal_play(
                f,
                hand,
                proposed,
            )
            &&& !can_show(t, played, wanted) && !can_show(t, held, wanted) ==> (!legal_play(
                f,
                hand,
                proposed,
            ) <==> exists|k: int|
                {
                    &&& 0 <= k < downgrades(wanted).len()
                    &&& verdict(t, played, held, #[trigger] downgrades(wanted)[k]) == Some(false)
                    &&& forall|j: int|
                        k < j < downgrades(wanted).len() ==> verdict(
                            t,
                            played,
                            held,
                            #[trigger] downgrades(wanted)[j],
                        ) is None
                })
        }),
{
    let t = f.trump;
    let wanted = shapes(f.units);
    let played = proposed.to_multiset();
    let held = in_suit(f.trump, f.suit, hand);
    cards_of_a_suit(t, f.suit, played, proposed);
    how_requirements_decide(t, played, held, wanted);
    if !can_show(t, played, wanted) && !can_show(t, held, wanted) {
        if exists|k: int|
            {
                &&& 0 <= k < downgrades(wanted).len()
                &&& verdict(t, played, held, #[trigger] downgrades(wanted)[k]) == Some(false)
                &&& forall|j: int|
                    k < j < downgrades(wanted).len() ==> verdict(
                        t,
                        played,
                        held,
                        #[trigger] downgrades(wanted)[j],
                    ) is None
            } {
            let k = choose|k: int|
                {
                    &&& 0 <= k < downgrades(wanted).len()
                    &&& verdict(t, played, held, #[trigger] downgrades(wanted)[k]) == Some(false)
                    &&& forall|j: int|
                        k < j < downgrades(wanted).len() ==> verdict(
                            t,
                            played,
                            held,
                            #[trigger] downgrades(wanted)[j],
                        ) is None
                };
            match verdict(t, played, held, wanted) {
                Some(fine) => {
                    let i = choose|i: int|
                        {
                            &&& 0 <= i < downgrades(wanted).len()
                            &&& verdict(t, played, held, #[trigger] downgrades(wanted)[i]) == Some(
                                fine,
                            )
                            &&& forall|j: int|
                                i < j < downgrades(wanted).len() ==> verdict(
                                    t,
                                    played,
                                    held,
                                    #[trigger] downgrades(wanted)[j],
                                ) is None
                        };
                    if i < k {
                        assert(verdict(t, played, held, downgrades(wanted)[k]) is None);
                    } else if k < i {
                        assert(verdict(t, played, held, downgrades(wanted)[i]) is None);
                    }
                },
                None => {
                    assert(verdict(t, played, held, downgrades(wanted)[k]) is None);
                },
            }
        }
    }
}

/// Cards match a format exactly if they all belong to its suit, or all to trump, are as many as
/// it has, and units of its shapes can be found in them. The units are the first that are found.
pub proof fn what_matches(f: Format, cards: Seq<Card>)
    requires
        cards.len() > 0,
    ensures
        matching(f, cards) is Some <==> {
            &&& cards.len() == total_size(f.units)
            &&& can_show(f.trump, cards.to_multiset(), shapes(f.units))
            &&& (forall|i: int|
                0 <= i < cards.len() ==> f.trump.suit_of(#[trigger] cards[i]) == f.suit) || (
            forall|i: int|
                0 <= i < cards.len() ==> f.trump.suit_of(#[trigger] cards[i])
                    == EffectiveSuit::Trump)
        },
        matching(f, cards) is Some ==> matching(f, cards) == first_fit(
            f.trump,
            cards.to_multiset(),
            shapes(f.units),
        ),
{
    lemma_can_show(f.trump, cards.to_multiset(), shapes(f.units));
    let suit = f.trump.suit_of(cards[0]);
    if forall|i: int| 0 <= i < cards.len() ==> f.trump.suit_of(#[trigger] cards[i]) == f.suit {
        assert(all_in_suit(f.trump, suit, cards));
    }
    if forall|i: int|
        0 <= i < cards.len() ==> f.trump.suit_of(#[trigger] cards[i]) == EffectiveSuit::Trump {
        assert(all_in_suit(f.trump, suit, cards));
    }
}

/// `a` is at least as weighty as `b`: larger, or as large and a tractor if `b` is one.
pub open spec fn as_weighty(a: Unit, b: Unit) -> bool {
    a.size() > b.size() || a.size() == b.size() && (b is Tractor ==> a is Tractor)
}

/// A lead has the suit of its cards, and for its units those of a way to split them, by size and
/// then by first card. That way has a unit at least as weighty as any unit of any way, and no way
/// that is listed later has one as weighty.
pub proof fn what_a_lead_asks_for(t: Trump, cards: Seq<Card>, v: Unit)
    requires
        cards.len() > 0,
        v.first().trump == t,
    ensures
        ({
            let f = lead_format(t, cards);
            let list = plays(t, cards.to_multiset());
            &&& f.trump == t
            &&& f.suit == t.suit_of(cards[0])
            &&& forall|i: int, j: int|
                0 <= i < j < f.units.len() ==> {
                    let a = #[trigger] f.units[i];
                    let b = #[trigger] f.units[j];
                    a.size() < b.size() || a.size() == b.size() && t.rank(a.first().card)
                        <= t.rank(b.first().card)
                }
            &&& exists|k: int|
                {
                    &&& 0 <= k < list.len()
                    &&& (#[trigger] list[k]).to_multiset() == f.units.to_multiset()
                    &&& f.units.filter(
                        |x: Unit|
                            x.size() == v.size() && t.rank(x.first().card) == t.rank(
                                v.first().card,
                            ),
                    ) == list[k].filter(
                        |x: Unit|
                            x.size() == v.size() && t.rank(x.first().card) == t.rank(
                                v.first().card,
                            ),
                    )
                    &&& exists|a: int|
                        0 <= a < list[k].len() && outweighs(list, k, #[trigger] list[k][a])
                }
        }),
{
    let m = cards.to_multiset();
    let list = plays(t, m);
    plays_split_the_cards(t, m);
    lemma_best_exists(list);
    let k = choose|k: int| is_best(list, k);
    let play = list[k];
    assert(splits(t, m, play));
    assert forall|i: int| 0 <= i < play.len() implies (#[trigger] play[i]).first().trump == t by {
        assert(proper(t, play[i]));
    }
    sorting_units(t, play, v);
    lemma_top_weight(play);
    let a = choose|a: int| 0 <= a < play.len() && weight(#[trigger] play[a]) == top_weight(play);
    assert forall|j: int, b: int| 0 <= j < list.len() && 0 <= b < list[j].len() implies as_weighty(
        play[a],
        #[trigger] list[j][b],
    ) && (j > k ==> !as_weighty(list[j][b], play[a])) by {
        lemma_top_weight(list[j]);
        assert(weight(list[j][b]) <= top_weight(list[j]));
        assert(top_weight(list[j]) <= top_weight(list[k]));
    }
    assert(outweighs(list, k, list[k][a]));
    assert(list[k].to_multiset() == lead_format(t, cards).units.to_multiset());
}

/// `u` is at least as weighty as any unit of `list`, and weightier than those behind `list[k]`.
pub open spec fn outweighs(list: Seq<Seq<Unit>>, k: int, u: Unit) -> bool {
    forall|j: int, b: int|
        0 <= j < list.len() && 0 <= b < list[j].len() ==> as_weighty(u, #[trigger] list[j][b]) && (j
            > k ==> !as_weighty(list[j][b], u))
}

} // verus!

//! The cards that each player holds.

use crate::counts::CardCounts;
use crate::types::{Card, Number, PlayerID};
use vstd::multiset::Multiset;
use vstd::prelude::*;

verus! {

broadcast use {vstd::multiset::group_multiset_axioms, vstd::seq_lib::group_to_multiset_ensures};

#[derive(Clone, Copy, Debug, PartialEq, Eq, Structural)]
pub enum HandError {
    /// There is no such player.
    PlayerNotFound,
    /// The player does not hold these cards.
    CardsNotFound,
}

/// The hands of all players.
#[derive(Debug)]
pub struct Hands {
    hands: Vec<(PlayerID, CardCounts)>,
    level: Number,
}

/// Who holds what according to `entries`.
pub open spec fn seated(entries: Seq<(PlayerID, CardCounts)>) -> Map<PlayerID, Multiset<Card>>
    decreases entries.len(),
{
    if entries.len() == 0 {
        Map::empty()
    } else {
        seated(entries.drop_last()).insert(entries.last().0, entries.last().1@)
    }
}

spec fn seats_wf(entries: Seq<(PlayerID, CardCounts)>) -> bool {
    &&& forall|i: int| 0 <= i < entries.len() ==> (#[trigger] entries[i]).1.wf()
    &&& forall|i: int, j: int|
        0 <= i < j < entries.len() ==> (#[trigger] entries[i]).0 != (#[trigger] entries[j]).0
}

proof fn lemma_seated_absent(entries: Seq<(PlayerID, CardCounts)>, id: PlayerID)
    requires
        forall|i: int| 0 <= i < entries.len() ==> (#[trigger] entries[i]).0 != id,
    ensures
        !seated(entries).dom().contains(id),
    decreases entries.len(),
{
    if entries.len() > 0 {
        let rest = entries.drop_last();
        assert forall|i: int| 0 <= i < rest.len() implies (#[trigger] rest[i]).0 != id by {
            assert(rest[i] == entries[i]);
        }
        lemma_seated_absent(rest, id);
        assert(entries[entries.len() - 1].0 != id);
    }
}

proof fn lemma_seated_at(entries: Seq<(PlayerID, CardCounts)>, i: int)
    requires
        seats_wf(entries),
        0 <= i < entries.len(),
    ensures
        seated(entries).dom().contains(entries[i].0),
        seated(entries)[entries[i].0] == entries[i].1@,
    decreases entries.len(),
{
    if i < entries.len() - 1 {
        let rest = entries.drop_last();
        assert forall|k: int| 0 <= k < rest.len() implies (#[trigger] rest[k]).1.wf() by {
            assert(rest[k] == entries[k]);
        }
        assert forall|k: int, j: int| 0 <= k < j < rest.len() implies (#[trigger] rest[k]).0 != (
        #[trigger] rest[j]).0 by {
            assert(rest[k] == entries[k] && rest[j] == entries[j]);
        }
        lemma_seated_at(rest, i);
        assert(entries[i].0 != entries[entries.len() - 1].0);
        assert(rest[i] == entries[i]);
    }
}

/// Changing one hand.
proof fn lemma_seated_update(
    before: Seq<(PlayerID, CardCounts)>,
    now: Seq<(PlayerID, CardCounts)>,
    i: int,
)
    requires
        seats_wf(before),
        0 <= i < before.len(),
        now == before.update(i, now[i]),
        now[i].0 == before[i].0,
    ensures
        seated(now) == seated(before).insert(before[i].0, now[i].1@),
    decreases before.len(),
{
    let last = before.len() - 1;
    let b = before.drop_last();
    let n = now.drop_last();
    if i == last {
        assert(n =~= b);
        assert(seated(now) =~= seated(before).insert(before[i].0, now[i].1@));
    } else {
        assert forall|k: int| 0 <= k < b.len() implies (#[trigger] b[k]).1.wf() by {
            assert(b[k] == before[k]);
        }
        assert forall|k: int, j: int| 0 <= k < j < b.len() implies (#[trigger] b[k]).0 != (
        #[trigger] b[j]).0 by {
            assert(b[k] == before[k] && b[j] == before[j]);
        }
        assert(n =~= b.update(i, n[i]));
        lemma_seated_update(b, n, i);
        assert(before[i].0 != before[last].0);
        assert(now.last() == before.last());
        assert(seated(now) =~= seated(before).insert(before[i].0, now[i].1@));
    }
}

impl View for Hands {
    type V = Map<PlayerID, Multiset<Card>>;

    closed spec fn view(&self) -> Map<PlayerID, Multiset<Card>> {
        seated(self.hands@)
    }
}

impl Hands {
    /// No player has two hands.
    pub closed spec fn wf(&self) -> bool {
        seats_wf(self.hands@)
    }

    /// The number that the round is played at.
    pub closed spec fn played_at(&self) -> Number {
        self.level
    }

    /// No player holds a card more often than a machine integer can say.
    pub proof fn hands_are_bounded(&self)
        requires
            self.wf(),
        ensures
            forall|id: PlayerID, c: Card|
                self@.dom().contains(id) ==> #[trigger] self@[id].count(c) <= usize::MAX,
    {
        assert forall|id: PlayerID, c: Card|
            self@.dom().contains(id) implies #[trigger] self@[id].count(c) <= usize::MAX by {
            let e = self.hands@;
            if forall|i: int| 0 <= i < e.len() ==> (#[trigger] e[i]).0 != id {
                lemma_seated_absent(e, id);
            } else {
                let i = choose|i: int| 0 <= i < e.len() && (#[trigger] e[i]).0 == id;
                lemma_seated_at(e, i);
                e[i].1.lemma_bounded();
            }
        }
    }

    /// The number that the round is played at.
    pub fn level(&self) -> (r: Number)
        ensures
            r == self.played_at(),
    {
        self.level
    }

    /// Empty hands for `players`.
    pub fn new(players: Vec<PlayerID>, level: Number) -> (r: Hands)
        ensures
            r.wf(),
            r.played_at() == level,
            forall|id: PlayerID| #[trigger] r@.dom().contains(id) <==> players@.contains(id),
            forall|id: PlayerID| #[trigger]
                r@.dom().contains(id) ==> r@[id] == Multiset::<Card>::empty(),
    {
        let mut hands = Hands { hands: Vec::new(), level };
        for i in 0..players.len()
            invariant
                hands.wf(),
                hands.played_at() == level,
                forall|id: PlayerID| #[trigger]
                    hands@.dom().contains(id) <==> players@.take(i as int).contains(id),
                forall|id: PlayerID| #[trigger]
                    hands@.dom().contains(id) ==> hands@[id] == Multiset::<Card>::empty(),
        {
            let id = players[i];
            let ghost before = hands.hands@;
            let seat = hands.find(id);
            if seat.is_none() {
                hands.hands.push((id, CardCounts::new()));
                assert(hands.hands@.drop_last() =~= before);
            }
            proof {
                let done = players@.take(i as int);
                let more = players@.take(i + 1);
                assert(more =~= done.push(id));
                assert forall|p: PlayerID| #[trigger] more.contains(p) <==> done.contains(p) || p
                    == id by {
                    if done.contains(p) {
                        assert(more[done.index_of(p)] == p);
                    }
                    if p == id {
                        assert(more[i as int] == p);
                    }
                    if more.contains(p) {
                        let k = more.index_of(p);
                        if k < i {
                            assert(done[k] == p);
                        }
                    }
                }
                assert forall|p: PlayerID| #[trigger] hands@.dom().contains(p) <==> more.contains(
                    p,
                ) by {
                    assert(hands@.dom().contains(p) <==> done.contains(p) || p == id);
                }
            }
        }
        assert(players@.take(players.len() as int) =~= players@);
        hands
    }

    fn find(&self, id: PlayerID) -> (r: Option<usize>)
        requires
            self.wf(),
        ensures
            match r {
                Some(i) => i < self.hands@.len() && self.hands@[i as int].0 == id
                    && self@.dom().contains(id) && self@[id] == self.hands@[i as int].1@
                    && self.hands@[i as int].1.wf(),
                None => !self@.dom().contains(id) && forall|i: int|
                    0 <= i < self.hands@.len() ==> (#[trigger] self.hands@[i]).0 != id,
            },
    {
        for i in 0..self.hands.len()
            invariant
                self.wf(),
                forall|j: int| 0 <= j < i ==> (#[trigger] self.hands@[j]).0 != id,
        {
            if self.hands[i].0 == id {
                proof {
                    lemma_seated_at(self.hands@, i as int);
                }
                return Some(i);
            }
        }
        proof {
            lemma_seated_absent(self.hands@, id);
        }
        None
    }

    /// The cards that a player holds.
    pub fn get(&self, id: PlayerID) -> (r: Result<&CardCounts, HandError>)
        requires
            self.wf(),
        ensures
            match r {
                Ok(hand) => self@.dom().contains(id) && hand@ == self@[id] && hand.wf(),
                Err(e) => e == HandError::PlayerNotFound && !self@.dom().contains(id),
            },
    {
        match self.find(id) {
            Some(i) => Ok(&self.hands[i].1),
            None => Err(HandError::PlayerNotFound),
        }
    }

    /// Whether a player holds `cards`.
    pub fn contains(&self, id: PlayerID, cards: &[Card]) -> (r: Result<(), HandError>)
        requires
            self.wf(),
        ensures
            r == held(self@, id, cards@),
    {
        let hand = match self.get(id) {
            Ok(hand) => hand,
            Err(e) => {
                return Err(e);
            },
        };
        let requested = Card::count(cards);
        let entries = requested.entries();
        for i in 0..entries.len()
            invariant
                hand.wf(),
                hand@ == self@[id],
                self@.dom().contains(id),
                crate::counts::tally(entries@) == cards@.to_multiset(),
                crate::counts::distinct(entries@),
                forall|j: int|
                    0 <= j < i ==> hand@.count((#[trigger] entries@[j]).0) >= entries@[j].1,
        {
            if hand.get(entries[i].0) < entries[i].1 {
                proof {
                    crate::counts::lemma_tally_at(entries@, i as int);
                }
                return Err(HandError::CardsNotFound);
            }
        }
        proof {
            assert forall|c: Card| cards@.to_multiset().count(c) <= hand@.count(c) by {
                if cards@.to_multiset().count(c) > 0 {
                    crate::counts::lemma_tally_entry(entries@, c);
                    let j = choose|j: int| 0 <= j < entries@.len() && (#[trigger] entries@[j]).0 == c;
                    crate::counts::lemma_tally_at(entries@, j);
                }
            }
        }
        Ok(())
    }

    /// Gives `cards` to a player.
    pub fn add(&mut self, id: PlayerID, cards: &[Card]) -> (r: Result<(), HandError>)
        requires
            old(self).wf(),
            old(self)@.dom().contains(id) ==> has_room(old(self)@[id], cards@),
        ensures
            final(self).wf(),
            final(self).played_at() == old(self).played_at(),
            match r {
                Ok(()) => old(self)@.dom().contains(id) && final(self)@ == old(self)@.insert(
                    id,
                    old(self)@[id].add(cards@.to_multiset()),
                ),
                Err(e) => e == HandError::PlayerNotFound && !old(self)@.dom().contains(id)
                    && *final(self) == *old(self),
            },
    {
        let i = match self.find(id) {
            Some(i) => i,
            None => {
                return Err(HandError::PlayerNotFound);
            },
        };
        let ghost before = self.hands@;
        let ghost m = self@[id];
        assert(cards@.take(0).to_multiset() =~= Multiset::empty());
        assert(m.add(Multiset::empty()) =~= m);
        let hand = &mut self.hands[i].1;
        for j in 0..cards.len()
            invariant
                hand.wf(),
                hand@ == m.add(cards@.take(j as int).to_multiset()),
                has_room(m, cards@),
        {
            proof {
                let done = cards@.take(j as int);
                let card = cards@[j as int];
                assert(cards@.take(j + 1) =~= done.push(card));
                lemma_take_counts(cards@, j + 1, card);
                assert(m.add(done.to_multiset()).insert(card) =~= m.add(
                    done.push(card).to_multiset(),
                ));
                assert(m.count(card) + cards@.to_multiset().count(card) <= usize::MAX);
            }
            hand.insert(cards[j]);
        }
        proof {
            assert(cards@.take(cards.len() as int) =~= cards@);
            lemma_seated_update(before, self.hands@, i as int);
        }
        Ok(())
    }

    /// Takes `cards` from a player.
    pub fn remove(&mut self, id: PlayerID, cards: &[Card]) -> (r: Result<(), HandError>)
        requires
            old(self).wf(),
        ensures
            final(self).wf(),
            final(self).played_at() == old(self).played_at(),
            r == held(old(self)@, id, cards@),
            match r {
                Ok(()) => final(self)@ == old(self)@.insert(
                    id,
                    old(self)@[id].sub(cards@.to_multiset()),
                ),
                Err(_) => *final(self) == *old(self),
            },
    {
        match self.contains(id, cards) {
            Ok(()) => {},
            Err(e) => {
                return Err(e);
            },
        }
        let i = match self.find(id) {
            Some(i) => i,
            None => {
                return Err(HandError::PlayerNotFound);
            },
        };
        let ghost before = self.hands@;
        let ghost m = self@[id];
        assert(cards@.take(0).to_multiset() =~= Multiset::empty());
        assert(m.sub(Multiset::empty()) =~= m);
        let hand = &mut self.hands[i].1;
        for j in 0..cards.len()
            invariant
                hand.wf(),
                hand@ == m.sub(cards@.take(j as int).to_multiset()),
                cards@.to_multiset().subset_of(m),
        {
            proof {
                let done = cards@.take(j as int);
                let card = cards@[j as int];
                assert(cards@.take(j + 1) =~= done.push(card));
                lemma_take_counts(cards@, j + 1, card);
                assert(cards@.to_multiset().count(card) <= m.count(card));
                assert forall|c: Card| done.push(card).to_multiset().count(c) <= m.count(c) by {
                    lemma_take_counts(cards@, j + 1, c);
                }
                assert(m.sub(done.to_multiset()).remove(card) =~= m.sub(
                    done.push(card).to_multiset(),
                ));
            }
            hand.remove(cards[j]);
        }
        proof {
            assert(cards@.take(cards.len() as int) =~= cards@);
            lemma_seated_update(before, self.hands@, i as int);
        }
        Ok(())
    }
}

/// No card would occur more often than a machine integer can say.
pub open spec fn has_room(m: Multiset<Card>, cards: Seq<Card>) -> bool {
    forall|c: Card| #[trigger] m.count(c) + cards.to_multiset().count(c) <= usize::MAX
}

/// Whether the player `id` holds `cards`.
pub open spec fn held(
    hands: Map<PlayerID, Multiset<Card>>,
    id: PlayerID,
    cards: Seq<Card>,
) -> Result<(), HandError> {
    if !hands.dom().contains(id) {
        Err(HandError::PlayerNotFound)
    } else if !cards.to_multiset().subset_of(hands[id]) {
        Err(HandError::CardsNotFound)
    } else {
        Ok(())
    }
}

proof fn lemma_take_counts(cards: Seq<Card>, i: int, c: Card)
    requires
        0 <= i <= cards.len(),
    ensures
        cards.take(i).to_multiset().count(c) <= cards.to_multiset().count(c),
{
    assert(cards =~= cards.take(i) + cards.skip(i));
    vstd::seq_lib::lemma_multiset_commutative(cards.take(i), cards.skip(i));
}

} // verus!

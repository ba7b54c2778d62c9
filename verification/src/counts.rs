//! Multisets of cards: the tally of a hand, and tallies kept in card order.

use crate::types::{rank_is_injective, Card, Trump};
use crate::unit::copies;
use vstd::multiset::Multiset;
use vstd::prelude::*;

verus! {

broadcast use {vstd::multiset::group_multiset_axioms, vstd::seq_lib::group_to_multiset_ensures};

/// The cards of `entries`, each as often as its entry says.
pub open spec fn tally(entries: Seq<(Card, usize)>) -> Multiset<Card>
    decreases entries.len(),
{
    if entries.len() == 0 {
        Multiset::empty()
    } else {
        tally(entries.drop_last()).add(
            copies(entries.last().0, entries.last().1 as nat).to_multiset(),
        )
    }
}

/// No card has two entries.
pub open spec fn distinct(entries: Seq<(Card, usize)>) -> bool {
    forall|i: int, j: int|
        0 <= i < j < entries.len() ==> (#[trigger] entries[i]).0 != (#[trigger] entries[j]).0
}

/// No entry is for zero cards.
pub open spec fn positive(entries: Seq<(Card, usize)>) -> bool {
    forall|i: int| 0 <= i < entries.len() ==> (#[trigger] entries[i]).1 > 0
}

/// The entries stand in ascending order.
pub open spec fn in_order(t: Trump, entries: Seq<(Card, usize)>) -> bool {
    forall|i: int, j: int|
        0 <= i < j < entries.len() ==> t.rank((#[trigger] entries[i]).0) < t.rank(
            (#[trigger] entries[j]).0,
        )
}

pub proof fn lemma_copies(card: Card, n: nat)
    ensures
        copies(card, n).to_multiset().len() == n,
        forall|c: Card|
            #[trigger] copies(card, n).to_multiset().count(c) == if c == card {
                n
            } else {
                0
            },
    decreases n,
{
    if n > 0 {
        lemma_copies(card, (n - 1) as nat);
        assert(copies(card, n) =~= copies(card, (n - 1) as nat).push(card));
    } else {
        assert(copies(card, n) =~= Seq::<Card>::empty());
    }
}

pub proof fn lemma_tally_absent(entries: Seq<(Card, usize)>, card: Card)
    requires
        forall|i: int| 0 <= i < entries.len() ==> (#[trigger] entries[i]).0 != card,
    ensures
        tally(entries).count(card) == 0,
    decreases entries.len(),
{
    if entries.len() > 0 {
        assert forall|i: int| 0 <= i < entries.len() - 1 implies (
        #[trigger] entries.drop_last()[i]).0 != card by {
            assert(entries[i].0 != card);
        }
        lemma_tally_absent(entries.drop_last(), card);
        lemma_copies(entries.last().0, entries.last().1 as nat);
        assert(entries[entries.len() - 1].0 != card);
    }
}

pub proof fn lemma_tally_at(entries: Seq<(Card, usize)>, i: int)
    requires
        distinct(entries),
        0 <= i < entries.len(),
    ensures
        tally(entries).count(entries[i].0) == entries[i].1,
    decreases entries.len(),
{
    let rest = entries.drop_last();
    lemma_copies(entries.last().0, entries.last().1 as nat);
    if i == entries.len() - 1 {
        assert forall|j: int| 0 <= j < rest.len() implies (#[trigger] rest[j]).0
            != entries[i].0 by {
            assert(entries[j].0 != entries[i].0);
        }
        lemma_tally_absent(rest, entries[i].0);
    } else {
        assert forall|k: int, j: int| 0 <= k < j < rest.len() implies (#[trigger] rest[k]).0 != (
        #[trigger] rest[j]).0 by {
            assert(entries[k].0 != entries[j].0);
        }
        lemma_tally_at(rest, i);
        assert(entries[i].0 != entries[entries.len() - 1].0);
    }
}

/// `entries` is a listing of `m`.
proof fn lemma_tally_is(entries: Seq<(Card, usize)>, m: Multiset<Card>)
    requires
        distinct(entries),
        forall|i: int|
            0 <= i < entries.len() ==> m.count((#[trigger] entries[i]).0) == entries[i].1,
        forall|c: Card|
            #[trigger] m.count(c) > 0 ==> exists|i: int|
                0 <= i < entries.len() && (#[trigger] entries[i]).0 == c,
    ensures
        tally(entries) == m,
{
    assert forall|c: Card| tally(entries).count(c) == m.count(c) by {
        if exists|i: int| 0 <= i < entries.len() && (#[trigger] entries[i]).0 == c {
            let i = choose|i: int| 0 <= i < entries.len() && (#[trigger] entries[i]).0 == c;
            lemma_tally_at(entries, i);
        } else {
            lemma_tally_absent(entries, c);
        }
    }
    assert(tally(entries) =~= m);
}

/// A card of the tally has an entry.
pub proof fn lemma_tally_entry(entries: Seq<(Card, usize)>, card: Card)
    requires
        tally(entries).count(card) > 0,
    ensures
        exists|i: int| 0 <= i < entries.len() && (#[trigger] entries[i]).0 == card,
{
    if !(exists|i: int| 0 <= i < entries.len() && (#[trigger] entries[i]).0 == card) {
        lemma_tally_absent(entries, card);
    }
}

/// How many cards of each kind there are.
#[derive(Debug)]
pub struct CardCounts {
    entries: Vec<(Card, usize)>,
}

impl View for CardCounts {
    type V = Multiset<Card>;

    closed spec fn view(&self) -> Multiset<Card> {
        tally(self.entries@)
    }
}

impl CardCounts {
    /// Every card has at most one entry, and no entry is for zero cards.
    pub closed spec fn wf(&self) -> bool {
        distinct(self.entries@) && positive(self.entries@)
    }

    /// No cards at all.
    pub fn new() -> (r: CardCounts)
        ensures
            r.wf(),
            r@ == Multiset::<Card>::empty(),
    {
        CardCounts { entries: Vec::new() }
    }

    /// No card occurs more often than a machine integer can say.
    pub proof fn lemma_bounded(&self)
        requires
            self.wf(),
        ensures
            forall|c: Card| #[trigger] self@.count(c) <= usize::MAX,
    {
        let e = self.entries@;
        assert forall|c: Card| #[trigger] self@.count(c) <= usize::MAX by {
            if self@.count(c) > 0 {
                lemma_tally_entry(e, c);
                let i = choose|i: int| 0 <= i < e.len() && (#[trigger] e[i]).0 == c;
                lemma_tally_at(e, i);
            }
        }
    }

    /// The cards with their counts, in no particular order.
    pub fn entries(&self) -> (r: &[(Card, usize)])
        requires
            self.wf(),
        ensures
            distinct(r@),
            positive(r@),
            tally(r@) == self@,
    {
        self.entries.as_slice()
    }

    fn find(&self, card: Card) -> (r: Option<usize>)
        requires
            self.wf(),
        ensures
            match r {
                Some(i) => i < self.entries@.len() && self.entries@[i as int].0 == card
                    && self@.count(card) == self.entries@[i as int].1,
                None => self@.count(card) == 0 && forall|i: int|
                    0 <= i < self.entries@.len() ==> (#[trigger] self.entries@[i]).0 != card,
            },
    {
        for i in 0..self.entries.len()
            invariant
                self.wf(),
                forall|j: int| 0 <= j < i ==> (#[trigger] self.entries@[j]).0 != card,
        {
            if self.entries[i].0 == card {
                proof {
                    lemma_tally_at(self.entries@, i as int);
                }
                return Some(i);
            }
        }
        proof {
            lemma_tally_absent(self.entries@, card);
        }
        None
    }

    /// How often `card` occurs.
    pub fn get(&self, card: Card) -> (r: usize)
        requires
            self.wf(),
        ensures
            r == self@.count(card),
    {
        match self.find(card) {
            Some(i) => self.entries[i].1,
            None => 0,
        }
    }

    /// Adds one `card`.
    pub fn insert(&mut self, card: Card)
        requires
            old(self).wf(),
            old(self)@.count(card) < usize::MAX,
        ensures
            final(self).wf(),
            final(self)@ == old(self)@.insert(card),
    {
        let ghost before = self.entries@;
        let ghost m = self@;
        match self.find(card) {
            Some(i) => {
                let n = self.entries[i].1;
                self.entries.set(i, (card, n + 1));
                proof {
                    lemma_entry_changed(before, self.entries@, i as int, m.insert(card));
                }
            },
            None => {
                self.entries.push((card, 1));
                proof {
                    let now = self.entries@;
                    assert forall|j: int| 0 <= j < now.len() implies m.insert(card).count(
                        (#[trigger] now[j]).0,
                    ) == now[j].1 by {
                        if j < before.len() {
                            assert(now[j] == before[j]);
                            lemma_tally_at(before, j);
                        }
                    }
                    assert forall|c: Card| #[trigger] m.insert(card).count(c) > 0 implies exists|
                        j: int,
                    |
                        0 <= j < now.len() && (#[trigger] now[j]).0 == c by {
                        if c == card {
                            assert(now[before.len() as int].0 == c);
                        } else {
                            lemma_tally_entry(before, c);
                            let j = choose|j: int|
                                0 <= j < before.len() && (#[trigger] before[j]).0 == c;
                            assert(now[j].0 == c);
                        }
                    }
                    lemma_tally_is(now, m.insert(card));
                }
            },
        }
    }

    /// Takes one `card` away.
    pub fn remove(&mut self, card: Card)
        requires
            old(self).wf(),
            old(self)@.count(card) > 0,
        ensures
            final(self).wf(),
            final(self)@ == old(self)@.remove(card),
    {
        let ghost before = self.entries@;
        let ghost m = self@;
        if let Some(i) = self.find(card) {
            let n = self.entries[i].1;
            if n == 1 {
                self.entries.remove(i);
                proof {
                    lemma_entry_removed(before, i as int, m.remove(card));
                }
            } else {
                self.entries.set(i, (card, n - 1));
                proof {
                    lemma_entry_changed(before, self.entries@, i as int, m.remove(card));
                }
            }
        }
    }
}

/// Changing the count of one entry.
proof fn lemma_entry_changed(
    before: Seq<(Card, usize)>,
    now: Seq<(Card, usize)>,
    i: int,
    m: Multiset<Card>,
)
    requires
        distinct(before),
        0 <= i < before.len(),
        now == before.update(i, now[i]),
        now[i].0 == before[i].0,
        now[i].1 == m.count(now[i].0),
        forall|c: Card| c != before[i].0 ==> #[trigger] m.count(c) == tally(before).count(c),
    ensures
        distinct(now),
        tally(now) == m,
{
    assert forall|k: int, j: int| 0 <= k < j < now.len() implies (#[trigger] now[k]).0 != (
    #[trigger] now[j]).0 by {
        assert(before[k].0 != before[j].0);
    }
    assert forall|j: int| 0 <= j < now.len() implies m.count((#[trigger] now[j]).0)
        == now[j].1 by {
        if j != i {
            assert(now[j] == before[j]);
            lemma_tally_at(before, j);
            assert(before[j].0 != before[i].0);
        }
    }
    assert forall|c: Card| #[trigger] m.count(c) > 0 implies exists|j: int|
        0 <= j < now.len() && (#[trigger] now[j]).0 == c by {
        if c == before[i].0 {
            assert(now[i].0 == c);
        } else {
            lemma_tally_entry(before, c);
            let j = choose|j: int| 0 <= j < before.len() && (#[trigger] before[j]).0 == c;
            assert(now[j].0 == c);
        }
    }
    lemma_tally_is(now, m);
}

/// Dropping one entry.
proof fn lemma_entry_removed(before: Seq<(Card, usize)>, i: int, m: Multiset<Card>)
    requires
        distinct(before),
        0 <= i < before.len(),
        m.count(before[i].0) == 0,
        forall|c: Card| c != before[i].0 ==> #[trigger] m.count(c) == tally(before).count(c),
    ensures
        distinct(before.remove(i)),
        tally(before.remove(i)) == m,
{
    let now = before.remove(i);
    assert forall|k: int, j: int| 0 <= k < j < now.len() implies (#[trigger] now[k]).0 != (
    #[trigger] now[j]).0 by {
        let k1 = if k < i {
            k
        } else {
            k + 1
        };
        let j1 = if j < i {
            j
        } else {
            j + 1
        };
        assert(before[k1].0 != before[j1].0);
    }
    assert forall|j: int| 0 <= j < now.len() implies m.count((#[trigger] now[j]).0)
        == now[j].1 by {
        let j1 = if j < i {
            j
        } else {
            j + 1
        };
        assert(now[j] == before[j1]);
        lemma_tally_at(before, j1);
        assert(before[j1].0 != before[i].0);
    }
    assert forall|c: Card| #[trigger] m.count(c) > 0 implies exists|j: int|
        0 <= j < now.len() && (#[trigger] now[j]).0 == c by {
        lemma_tally_entry(before, c);
        let j = choose|j: int| 0 <= j < before.len() && (#[trigger] before[j]).0 == c;
        let j1 = if j < i {
            j
        } else {
            j - 1
        };
        assert(now[j1].0 == c);
    }
    lemma_tally_is(now, m);
}

impl Card {
    /// Counts `cards` by kind.
    pub fn count(cards: &[Card]) -> (r: CardCounts)
        ensures
            r.wf(),
            r@ == cards@.to_multiset(),
    {
        let mut counts = CardCounts::new();
        assert(cards@.take(0) =~= Seq::<Card>::empty());
        for i in 0..cards.len()
            invariant
                counts.wf(),
                counts@ == cards@.take(i as int).to_multiset(),
        {
            assert(cards@.take(i + 1) =~= cards@.take(i as int).push(cards@[i as int]));
            assert(counts@.len() == i);
            counts.insert(cards[i]);
        }
        assert(cards@.take(cards.len() as int) =~= cards@);
        counts
    }
}

/// `cards` ascend without repetition.
pub open spec fn increasing(t: Trump, cards: Seq<Card>) -> bool {
    forall|i: int, j: int|
        0 <= i < j < cards.len() ==> t.rank(#[trigger] cards[i]) < t.rank(#[trigger] cards[j])
}

/// `cards` are the different cards of `m`, in ascending order.
pub open spec fn lists(t: Trump, m: Multiset<Card>, cards: Seq<Card>) -> bool {
    increasing(t, cards) && forall|c: Card| #[trigger] cards.contains(c) <==> m.count(c) > 0
}

/// The different cards of `m`, in ascending order.
pub open spec fn ascending(t: Trump, m: Multiset<Card>) -> Seq<Card> {
    choose|cards: Seq<Card>| lists(t, m, cards)
}

pub proof fn lemma_lists_unique(t: Trump, a: Seq<Card>, b: Seq<Card>)
    requires
        increasing(t, a),
        increasing(t, b),
        forall|c: Card| #[trigger] a.contains(c) <==> b.contains(c),
    ensures
        a == b,
    decreases a.len(),
{
    if a.len() == 0 {
        if b.len() > 0 {
            assert(b.contains(b[0]));
            assert(a.contains(b[0]));
        }
        assert(a =~= b);
    } else {
        let x = a.last();
        assert(a.contains(x));
        assert(b.contains(x));
        let y = b.last();
        assert(b.contains(y));
        assert(a.contains(y));
        assert(x == y) by {
            let i = a.index_of(y);
            let j = b.index_of(x);
            assert(a[i] == y && b[j] == x);
            if i < a.len() - 1 && j < b.len() - 1 {
                assert(t.rank(a[i]) < t.rank(a[a.len() - 1]));
                assert(t.rank(b[j]) < t.rank(b[b.len() - 1]));
            }
        }
        let a1 = a.drop_last();
        let b1 = b.drop_last();
        assert forall|c: Card| #[trigger] a1.contains(c) <==> b1.contains(c) by {
            if a1.contains(c) {
                let i = a1.index_of(c);
                assert(a[i] == c);
                assert(a.contains(c));
                assert(b.contains(c));
                let j = b.index_of(c);
                assert(t.rank(a[i]) < t.rank(a[a.len() - 1]));
                assert(b1[j] == c);
            }
            if b1.contains(c) {
                let i = b1.index_of(c);
                assert(b[i] == c);
                assert(b.contains(c));
                assert(a.contains(c));
                let j = a.index_of(c);
                assert(t.rank(b[i]) < t.rank(b[b.len() - 1]));
                assert(a1[j] == c);
            }
        }
        lemma_lists_unique(t, a1, b1);
        assert(a =~= a1.push(x));
        assert(b =~= b1.push(y));
    }
}

/// Every multiset of cards has a listing: the lowest `r` ranks of it, taken in turn.
proof fn lemma_lists_below(t: Trump, m: Multiset<Card>, r: nat) -> (cards: Seq<Card>)
    ensures
        increasing(t, cards),
        forall|c: Card|
            #[trigger] cards.contains(c) <==> m.count(c) > 0 && t.rank(c) < r,
    decreases r,
{
    if r == 0 {
        assert forall|c: Card| t.rank(c) >= 0 by {
            lemma_rank_bounds(t, c);
        }
        Seq::empty()
    } else {
        let below = lemma_lists_below(t, m, (r - 1) as nat);
        if exists|c: Card| m.count(c) > 0 && t.rank(c) == r - 1 {
            let top = choose|c: Card| m.count(c) > 0 && t.rank(c) == r - 1;
            let cards = below.push(top);
            assert forall|i: int, j: int| 0 <= i < j < cards.len() implies t.rank(
                #[trigger] cards[i],
            ) < t.rank(#[trigger] cards[j]) by {
                assert(below.contains(below[i]));
            }
            assert forall|c: Card| #[trigger]
                cards.contains(c) <==> m.count(c) > 0 && t.rank(c) < r by {
                if cards.contains(c) {
                    let i = cards.index_of(c);
                    if i < below.len() {
                        assert(below.contains(below[i]));
                    }
                }
                if m.count(c) > 0 && t.rank(c) < r {
                    if t.rank(c) == r - 1 {
                        rank_is_injective(t, c, top);
                        assert(cards[below.len() as int] == c);
                    } else {
                        assert(below.contains(c));
                        assert(cards[below.index_of(c)] == c);
                    }
                }
            }
            cards
        } else {
            below
        }
    }
}

pub proof fn lemma_rank_bounds(t: Trump, card: Card)
    ensures
        0 <= t.rank(card) < 320,
        0 <= t.tier(card) <= 15,
{
}

pub proof fn lemma_ascending(t: Trump, m: Multiset<Card>)
    ensures
        lists(t, m, ascending(t, m)),
{
    let cards = lemma_lists_below(t, m, 320);
    assert forall|c: Card| #[trigger] cards.contains(c) <==> m.count(c) > 0 by {
        lemma_rank_bounds(t, c);
    }
    assert(lists(t, m, cards));
}

/// Cards tallied in the order that a trump puts on them.
#[derive(Debug)]
pub struct SortedCounts {
    trump: Trump,
    entries: Vec<(Card, usize)>,
}

impl View for SortedCounts {
    type V = Multiset<Card>;

    closed spec fn view(&self) -> Multiset<Card> {
        tally(self.entries@)
    }
}

proof fn lemma_in_order_distinct(t: Trump, entries: Seq<(Card, usize)>)
    requires
        in_order(t, entries),
    ensures
        distinct(entries),
{
}

pub open spec fn cards_of(entries: Seq<(Card, usize)>) -> Seq<Card> {
    entries.map_values(|e: (Card, usize)| e.0)
}

impl SortedCounts {
    /// The entries ascend, and none is for zero cards.
    pub closed spec fn wf(&self) -> bool {
        in_order(self.trump, self.entries@) && positive(self.entries@)
    }

    pub closed spec fn order(&self) -> Trump {
        self.trump
    }

    pub fn new(trump: Trump) -> (r: SortedCounts)
        ensures
            r.wf(),
            r.order() == trump,
            r@ == Multiset::<Card>::empty(),
    {
        SortedCounts { trump, entries: Vec::new() }
    }

    /// No card occurs more often than a machine integer can say.
    pub proof fn lemma_bounded(&self)
        requires
            self.wf(),
        ensures
            forall|c: Card| #[trigger] self@.count(c) <= usize::MAX,
    {
        let e = self.entries@;
        lemma_in_order_distinct(self.trump, e);
        assert forall|c: Card| #[trigger] self@.count(c) <= usize::MAX by {
            if self@.count(c) > 0 {
                lemma_tally_entry(e, c);
                let i = choose|i: int| 0 <= i < e.len() && (#[trigger] e[i]).0 == c;
                lemma_tally_at(e, i);
            }
        }
    }

    pub fn trump(&self) -> (r: Trump)
        ensures
            r == self.order(),
    {
        self.trump
    }

    /// The cards with their counts, in ascending order.
    pub fn entries(&self) -> (r: &[(Card, usize)])
        requires
            self.wf(),
        ensures
            in_order(self.order(), r@),
            distinct(r@),
            positive(r@),
            tally(r@) == self@,
            cards_of(r@) == ascending(self.order(), self@),
            forall|i: int| 0 <= i < r@.len() ==> self@.count((#[trigger] r@[i]).0) == r@[i].1,
    {
        proof {
            let e = self.entries@;
            let t = self.trump;
            lemma_in_order_distinct(t, e);
            assert forall|i: int| 0 <= i < e.len() implies tally(e).count((#[trigger] e[i]).0)
                == e[i].1 by {
                lemma_tally_at(e, i);
            }
            lemma_ascending(t, self@);
            let s = cards_of(e);
            assert(increasing(t, s));
            assert forall|c: Card| #[trigger] s.contains(c) <==> ascending(t, self@).contains(
                c,
            ) by {
                if s.contains(c) {
                    let i = s.index_of(c);
                    assert(e[i].0 == c);
                    assert(e[i].1 > 0);
                }
                if self@.count(c) > 0 {
                    lemma_tally_entry(e, c);
                    let i = choose|i: int| 0 <= i < e.len() && (#[trigger] e[i]).0 == c;
                    assert(s[i] == c);
                }
            }
            lemma_lists_unique(t, s, ascending(t, self@));
        }
        self.entries.as_slice()
    }

    /// How many entries stand before `card`.
    fn position(&self, card: Card) -> (r: usize)
        requires
            self.wf(),
        ensures
            r <= self.entries@.len(),
            forall|i: int|
                0 <= i < r ==> self.trump.rank((#[trigger] self.entries@[i]).0) < self.trump.rank(
                    card,
                ),
            forall|i: int|
                r <= i < self.entries@.len() ==> self.trump.rank((#[trigger] self.entries@[i]).0)
                    >= self.trump.rank(card),
            if r < self.entries@.len() && self.entries@[r as int].0 == card {
                self@.count(card) == self.entries@[r as int].1
            } else {
                self@.count(card) == 0 && forall|i: int|
                    r <= i < self.entries@.len() ==> self.trump.rank(
                        (#[trigger] self.entries@[i]).0,
                    ) > self.trump.rank(card)
            },
    {
        let mut r: usize = 0;
        while r < self.entries.len() && self.trump.before(self.entries[r].0, card)
            invariant
                self.wf(),
                r <= self.entries@.len(),
                forall|i: int|
                    0 <= i < r ==> self.trump.rank((#[trigger] self.entries@[i]).0)
                        < self.trump.rank(card),
            decreases self.entries@.len() - r,
        {
            r = r + 1;
        }
        proof {
            let e = self.entries@;
            lemma_in_order_distinct(self.trump, e);
            if r < e.len() {
                assert forall|i: int| r <= i < e.len() implies self.trump.rank((#[trigger] e[i]).0)
                    >= self.trump.rank(e[r as int].0) by {
                }
                if e[r as int].0 == card {
                    lemma_tally_at(e, r as int);
                } else {
                    if self.trump.rank(e[r as int].0) == self.trump.rank(card) {
                        rank_is_injective(self.trump, e[r as int].0, card);
                    }
                    lemma_tally_absent(e, card);
                }
            } else {
                lemma_tally_absent(e, card);
            }
        }
        r
    }

    /// How often `card` occurs.
    pub fn get(&self, card: Card) -> (r: usize)
        requires
            self.wf(),
        ensures
            r == self@.count(card),
    {
        let i = self.position(card);
        if i < self.entries.len() && self.entries[i].0 == card {
            self.entries[i].1
        } else {
            0
        }
    }

    /// Adds `n` copies of `card`.
    pub fn put(&mut self, card: Card, n: usize)
        requires
            old(self).wf(),
            old(self)@.count(card) + n <= usize::MAX,
        ensures
            final(self).wf(),
            final(self).order() == old(self).order(),
            final(self)@ == old(self)@.add(copies(card, n as nat).to_multiset()),
    {
        let ghost before = self.entries@;
        let ghost m = self@.add(copies(card, n as nat).to_multiset());
        let i = self.position(card);
        proof {
            lemma_copies(card, n as nat);
            lemma_in_order_distinct(self.trump, before);
        }
        if i < self.entries.len() && self.entries[i].0 == card {
            let k = self.entries[i].1;
            self.entries.set(i, (card, k + n));
            proof {
                lemma_entry_changed(before, self.entries@, i as int, m);
            }
        } else if n > 0 {
            self.entries.insert(i, (card, n));
            proof {
                lemma_entry_inserted(self.trump, before, i as int, card, n, m);
            }
        } else {
            assert(self@ =~= m);
        }
    }

    /// Takes `n` copies of `card` away.
    #[verifier::rlimit(30)]
    pub fn take(&mut self, card: Card, n: usize)
        requires
            old(self).wf(),
            old(self)@.count(card) >= n,
        ensures
            final(self).wf(),
            final(self).order() == old(self).order(),
            final(self)@ == old(self)@.sub(copies(card, n as nat).to_multiset()),
    {
        let ghost before = self.entries@;
        let ghost m = self@.sub(copies(card, n as nat).to_multiset());
        let i = self.position(card);
        proof {
            lemma_copies(card, n as nat);
            lemma_in_order_distinct(self.trump, before);
        }
        if i < self.entries.len() && self.entries[i].0 == card {
            let k = self.entries[i].1;
            if k == n {
                self.entries.remove(i);
                proof {
                    lemma_entry_removed(before, i as int, m);
                    let now = self.entries@;
                    assert(now == before.remove(i as int));
                    assert forall|a: int, b: int| 0 <= a < b < now.len() implies self.trump.rank(
                        (#[trigger] now[a]).0,
                    ) < self.trump.rank((#[trigger] now[b]).0) by {
                        let a1 = if a < i {
                            a
                        } else {
                            a + 1
                        };
                        let b1 = if b < i {
                            b
                        } else {
                            b + 1
                        };
                        assert(now[a] == before[a1] && now[b] == before[b1]);
                    }
                }
            } else {
                self.entries.set(i, (card, k - n));
                proof {
                    lemma_entry_changed(before, self.entries@, i as int, m);
                }
            }
        } else {
            assert(self@ =~= m);
        }
    }
}

/// A new entry at its place in the order.
proof fn lemma_entry_inserted(
    t: Trump,
    before: Seq<(Card, usize)>,
    i: int,
    card: Card,
    n: usize,
    m: Multiset<Card>,
)
    requires
        in_order(t, before),
        0 <= i <= before.len(),
        forall|j: int| 0 <= j < i ==> t.rank((#[trigger] before[j]).0) < t.rank(card),
        forall|j: int| i <= j < before.len() ==> t.rank((#[trigger] before[j]).0) > t.rank(card),
        m.count(card) == n,
        forall|c: Card| c != card ==> #[trigger] m.count(c) == tally(before).count(c),
    ensures
        in_order(t, before.insert(i, (card, n))),
        tally(before.insert(i, (card, n))) == m,
{
    let now = before.insert(i, (card, n));
    assert forall|a: int, b: int| 0 <= a < b < now.len() implies t.rank((#[trigger] now[a]).0)
        < t.rank((#[trigger] now[b]).0) by {
        assert(a < i ==> now[a] == before[a]);
        assert(a > i ==> now[a] == before[a - 1]);
        assert(b < i ==> now[b] == before[b]);
        assert(b > i ==> now[b] == before[b - 1]);
    }
    lemma_in_order_distinct(t, now);
    lemma_in_order_distinct(t, before);
    assert forall|j: int| 0 <= j < now.len() implies m.count((#[trigger] now[j]).0)
        == now[j].1 by {
        if j != i {
            let j1 = if j < i {
                j
            } else {
                j - 1
            };
            assert(now[j] == before[j1]);
            lemma_tally_at(before, j1);
        }
    }
    assert forall|c: Card| #[trigger] m.count(c) > 0 implies exists|j: int|
        0 <= j < now.len() && (#[trigger] now[j]).0 == c by {
        if c == card {
            assert(now[i].0 == c);
        } else {
            lemma_tally_entry(before, c);
            let j = choose|j: int| 0 <= j < before.len() && (#[trigger] before[j]).0 == c;
            let j1 = if j < i {
                j
            } else {
                j + 1
            };
            assert(now[j1].0 == c);
        }
    }
    lemma_tally_is(now, m);
}

} // verus!

//! One trick: who plays what, and who wins it.

use crate::format::{
    a_unit_leads_as_itself, all_in_suit, count_cards, have_suit, lead_format, lead_splits_the_cards, legal_play,
    lemma_size_in_total, lemma_unit_in_total, matching, shapes, Format, TrickFormat,
};
use crate::hands::{has_room, held, HandError, Hands};
use crate::message::{Message, MessageVariant};
use crate::order::{sort_cards, sorted_cards, sorted_cards_are_sorted};
use crate::plays::proper;
use crate::search::{
    arrangement_has_the_shapes, climbing_one, lemma_unit_tally, search_is_complete, total_size,
};
use crate::small::Units;
use crate::throw::{check_throw, judge_throw, lemma_judged_unit, throw_fails_if_beaten};
use crate::types::{Card, PlayerID, Trump};
use crate::unit::{TrickUnit, Unit};
use std::cmp::Ordering;
use std::collections::VecDeque;
use vstd::multiset::Multiset;
use vstd::prelude::*;
use vstd::slice::slice_to_vec;

verus! {

broadcast use {vstd::multiset::group_multiset_axioms, vstd::seq_lib::group_to_multiset_ensures};

#[derive(Clone, Copy, Debug, PartialEq, Eq, Structural)]
pub enum TrickError {
    /// The hands do not allow it.
    HandError { source: HandError },
    /// The wrong number of cards was provided.
    WrongNumberOfCards,
    /// The cards have the wrong number of suits.
    WrongNumberOfSuits,
    /// The player is playing out of order.
    OutOfOrder,
    /// This play is illegal.
    IllegalPlay,
    /// This play does not match the format.
    NonMatchingPlay,
}

impl From<HandError> for TrickError {
    fn from(source: HandError) -> (r: TrickError) {
        TrickError::HandError { source }
    }
}

impl vstd::std_specs::convert::FromSpecImpl<HandError> for TrickError {
    open spec fn obeys_from_spec() -> bool {
        true
    }

    open spec fn from_spec(source: HandError) -> TrickError {
        TrickError::HandError { source }
    }
}

/// What one player put down.
#[derive(Debug)]
pub struct PlayedCards {
    pub id: PlayerID,
    pub cards: Vec<Card>,
    /// What else the player wanted to put down, where a throw failed.
    pub bad_throw_cards: Vec<Card>,
    /// Who made the throw fail.
    pub better_player: Option<PlayerID>,
}

/// What `PlayedCards` stand for.
#[verifier::ext_equal]
pub struct Played {
    pub id: PlayerID,
    pub cards: Seq<Card>,
    pub bad_throw_cards: Seq<Card>,
    pub better_player: Option<PlayerID>,
}

impl View for PlayedCards {
    type V = Played;

    open spec fn view(&self) -> Played {
        Played {
            id: self.id,
            cards: self.cards@,
            bad_throw_cards: self.bad_throw_cards@,
            better_player: self.better_player,
        }
    }
}

impl Clone for PlayedCards {
    fn clone(&self) -> (r: PlayedCards)
        ensures
            r@ == self@,
    {
        PlayedCards {
            id: self.id,
            cards: slice_to_vec(self.cards.as_slice()),
            bad_throw_cards: slice_to_vec(self.bad_throw_cards.as_slice()),
            better_player: self.better_player,
        }
    }
}

/// A trick being played.
#[derive(Debug)]
pub struct Trick {
    pub player_queue: VecDeque<PlayerID>,
    pub played_cards: Vec<PlayedCards>,
    pub current_winner: Option<PlayerID>,
    pub trick_format: Option<TrickFormat>,
    pub trump: Trump,
}

/// What a `Trick` stands for.
#[verifier::ext_equal]
pub struct TrickState {
    /// Who is still to play, in order.
    pub queue: Seq<PlayerID>,
    /// What was put down, in order.
    pub played: Seq<Played>,
    pub winner: Option<PlayerID>,
    pub format: Option<Format>,
    pub trump: Trump,
}

impl View for Trick {
    type V = TrickState;

    open spec fn view(&self) -> TrickState {
        TrickState {
            queue: self.player_queue@,
            played: self.played_cards@.map_values(|p: PlayedCards| p@),
            winner: self.current_winner,
            format: match self.trick_format {
                Some(f) => Some(f@),
                None => None,
            },
            trump: self.trump,
        }
    }
}

impl Clone for Trick {
    fn clone(&self) -> (r: Trick)
        ensures
            r@ == self@,
    {
        let mut played_cards: Vec<PlayedCards> = Vec::new();
        for i in 0..self.played_cards.len()
            invariant
                played_cards@.map_values(|p: PlayedCards| p@) == self@.played.take(i as int),
        {
            let ghost so_far = played_cards@.map_values(|p: PlayedCards| p@);
            let played = self.played_cards[i].clone();
            played_cards.push(played);
            assert(played_cards@.map_values(|p: PlayedCards| p@) =~= so_far.push(played@));
            assert(self@.played.take(i + 1) =~= so_far.push(self@.played[i as int]));
        }
        assert(self@.played.take(self.played_cards.len() as int) =~= self@.played);
        let trick_format = match &self.trick_format {
            Some(tf) => Some(tf.clone()),
            None => None,
        };
        let player_queue = self.player_queue.clone();
        assert(player_queue@ =~= self.player_queue@);
        Trick {
            player_queue,
            played_cards,
            current_winner: self.current_winner,
            trick_format,
            trump: self.trump,
        }
    }
}

/// The outcome of a trick.
#[derive(Debug)]
pub struct TrickEnded {
    pub winner: PlayerID,
    pub points: Vec<Card>,
    pub largest_trick_unit_size: usize,
    pub failed_throw_size: usize,
}

/// What a `TrickEnded` stands for.
#[verifier::ext_equal]
pub struct Ended {
    pub winner: PlayerID,
    /// The cards that are worth points, in the order in which they were played.
    pub points: Seq<Card>,
    pub largest_trick_unit_size: nat,
    pub failed_throw_size: nat,
}

impl View for TrickEnded {
    type V = Ended;

    open spec fn view(&self) -> Ended {
        Ended {
            winner: self.winner,
            points: self.points@,
            largest_trick_unit_size: self.largest_trick_unit_size as nat,
            failed_throw_size: self.failed_throw_size as nat,
        }
    }
}

/// Whether the first cards of `units` are all stronger than those of `best`, unit by unit.
pub open spec fn beats(t: Trump, units: Seq<Unit>, best: Seq<Unit>) -> bool {
    forall|i: int|
        0 <= i < units.len() && i < best.len() ==> t.strength((#[trigger] units[i]).first().card)
            > t.strength(best[i].first().card)
}

/// Which of the first `n` plays leads the trick, with the units that it is made of. The first
/// play leads until another matches the format and beats the one that leads.
pub open spec fn leader(f: Format, played: Seq<Played>, n: nat) -> (int, Seq<Unit>)
    decreases n,
{
    if n <= 1 {
        (0, f.units)
    } else {
        let best = leader(f, played, (n - 1) as nat);
        match matching(f, played[n - 1].cards) {
            Some(units) => if beats(f.trump, units, best.1) {
                (n - 1, units)
            } else {
                best
            },
            None => best,
        }
    }
}

/// Who wins with what was played so far.
pub open spec fn winner_of(format: Option<Format>, played: Seq<Played>) -> Option<PlayerID> {
    match format {
        Some(f) => Some(played[leader(f, played, played.len()).0].id),
        None => None,
    }
}

/// `f` asks for at least one card, and its units have first cards.
pub open spec fn format_valid(f: Format) -> bool {
    &&& total_size(f.units) > 0
    &&& forall|i: int| 0 <= i < f.units.len() ==> (#[trigger] f.units[i]).members().len() > 0
}

/// The states that a trick can be in: there is a format once something was played, everyone
/// played as many cards as it asks for, and the winner is known.
pub open spec fn valid(s: TrickState) -> bool {
    &&& s.winner == winner_of(s.format, s.played)
    &&& match s.format {
        Some(f) => {
            &&& s.played.len() > 0
            &&& f.trump == s.trump
            &&& format_valid(f)
            &&& forall|i: int|
                0 <= i < s.played.len() ==> (#[trigger] s.played[i]).cards.len() == total_size(
                    f.units,
                )
        },
        None => s.played.len() == 0,
    }
}

/// Whether `id` may play `cards`.
pub open spec fn can_play(
    s: TrickState,
    hands: Map<PlayerID, Multiset<Card>>,
    id: PlayerID,
    cards: Seq<Card>,
) -> Result<(), TrickError> {
    match held(hands, id, cards) {
        Err(source) => Err(TrickError::HandError { source }),
        Ok(()) => if s.queue.len() == 0 || s.queue[0] != id {
            Err(TrickError::OutOfOrder)
        } else {
            match s.format {
                Some(f) => if legal_play(f, hands[id], cards) {
                    Ok(())
                } else {
                    Err(TrickError::IllegalPlay)
                },
                None => if cards.len() > 0 && all_in_suit(
                    s.trump,
                    s.trump.suit_of(cards[0]),
                    cards,
                ) {
                    Ok(())
                } else {
                    Err(TrickError::WrongNumberOfSuits)
                },
            }
        },
    }
}

/// `cards` without `taken`: each of those is taken where it first occurs.
pub open spec fn left_over(cards: Seq<Card>, taken: Seq<Card>) -> Seq<Card>
    decreases taken.len(),
{
    if taken.len() == 0 {
        cards
    } else {
        left_over(cards, taken.drop_last()).remove_value(taken.last())
    }
}

/// What a player puts down, the format that then holds, and what the others are told.
pub struct Move {
    pub format: Format,
    pub cards: Seq<Card>,
    pub bad_throw_cards: Seq<Card>,
    pub better_player: Option<PlayerID>,
    pub messages: Seq<Message>,
}

/// All of `cards` are put down under the format `f`.
pub open spec fn plain_move(f: Format, cards: Seq<Card>) -> Move {
    Move {
        format: f,
        cards,
        bad_throw_cards: seq![],
        better_player: None,
        messages: seq![Message::PlayedCards { cards }],
    }
}

/// Of `cards`, which were to be thrown as `f` says, only `u` is put down, since `player` can
/// beat it.
pub open spec fn failed_throw(f: Format, cards: Seq<Card>, player: PlayerID, u: Unit) -> Move {
    Move {
        format: Format { suit: f.suit, trump: f.trump, units: seq![u] },
        cards: u.cards(),
        bad_throw_cards: left_over(cards, u.cards()),
        better_player: Some(player),
        messages: seq![
            Message::ThrowFailed { original_cards: cards, better_player: player },
            Message::PlayedCards { cards: u.cards() },
        ],
    }
}

/// What the first player puts down who wants to play `cards`: all of them, unless they are a
/// throw of several units and one of `others` can beat one of the units.
pub open spec fn opening(
    t: Trump,
    hands: Map<PlayerID, Multiset<Card>>,
    others: Seq<PlayerID>,
    cards: Seq<Card>,
) -> Result<Move, HandError> {
    let f = lead_format(t, cards);
    if f.units.len() > 1 {
        match judge_throw(f, hands, others) {
            Err(e) => Err(e),
            Ok(None) => Ok(plain_move(f, cards)),
            Ok(Some((player, u))) => Ok(failed_throw(f, cards, player, u)),
        }
    } else {
        Ok(plain_move(f, cards))
    }
}

/// What a play leads to.
pub struct Outcome {
    pub state: TrickState,
    pub hands: Map<PlayerID, Multiset<Card>>,
    pub messages: Seq<Message>,
}

/// The next player, `id`, makes the move `m`.
pub open spec fn after_move(
    s: TrickState,
    hands: Map<PlayerID, Multiset<Card>>,
    id: PlayerID,
    m: Move,
) -> Outcome {
    let played = s.played.push(
        Played {
            id,
            cards: m.cards,
            bad_throw_cards: m.bad_throw_cards,
            better_player: m.better_player,
        },
    );
    Outcome {
        state: TrickState {
            queue: s.queue.skip(1),
            played,
            winner: winner_of(Some(m.format), played),
            format: Some(m.format),
            trump: s.trump,
        },
        hands: hands.insert(id, hands[id].sub(m.cards.to_multiset())),
        messages: m.messages,
    }
}

/// The move of `id` who wants to play `cards` and may.
pub open spec fn move_with(
    s: TrickState,
    hands: Map<PlayerID, Multiset<Card>>,
    cards: Seq<Card>,
) -> Result<Move, HandError> {
    match s.format {
        Some(f) => Ok(plain_move(f, sorted_cards(s.trump, cards))),
        None => opening(s.trump, hands, s.queue.skip(1), sorted_cards(s.trump, cards)),
    }
}

/// What happens when `id` wants to play `cards`.
pub open spec fn play(
    s: TrickState,
    hands: Map<PlayerID, Multiset<Card>>,
    id: PlayerID,
    cards: Seq<Card>,
) -> Result<Outcome, TrickError> {
    match can_play(s, hands, id, cards) {
        Err(e) => Err(e),
        Ok(()) => match move_with(s, hands, cards) {
            Err(source) => Err(TrickError::HandError { source }),
            Ok(m) => Ok(after_move(s, hands, id, m)),
        },
    }
}

/// What happens when `id` wants to take back what they played.
pub open spec fn undo(
    s: TrickState,
    hands: Map<PlayerID, Multiset<Card>>,
    id: PlayerID,
) -> Result<(TrickState, Map<PlayerID, Multiset<Card>>), TrickError> {
    if s.played.len() > 0 && s.played.last().id == id {
        let played = s.played.drop_last();
        let format = if played.len() == 0 {
            None
        } else {
            s.format
        };
        Ok(
            (
                TrickState {
                    queue: seq![id] + s.queue,
                    played,
                    winner: winner_of(format, played),
                    format,
                    trump: s.trump,
                },
                hands.insert(id, hands[id].add(s.played.last().cards.to_multiset())),
            ),
        )
    } else {
        Err(TrickError::OutOfOrder)
    }
}

/// Those of `cards` that are worth points.
pub open spec fn point_cards(cards: Seq<Card>) -> Seq<Card> {
    cards.filter(|c: Card| c.worth() is Some)
}

/// All point cards that were played, in order.
pub open spec fn points_played(played: Seq<Played>) -> Seq<Card>
    decreases played.len(),
{
    if played.len() == 0 {
        seq![]
    } else {
        points_played(played.drop_last()) + point_cards(played.last().cards)
    }
}

/// The size of the largest unit.
pub open spec fn largest_size(units: Seq<Unit>) -> nat
    decreases units.len(),
{
    if units.len() == 0 {
        0
    } else if largest_size(units.drop_last()) > units.last().size() {
        largest_size(units.drop_last())
    } else {
        units.last().size()
    }
}

/// How the trick ends: everyone must have played.
pub open spec fn ending(s: TrickState) -> Result<Ended, TrickError> {
    match (s.format, s.winner) {
        (Some(f), Some(winner)) => if s.queue.len() == 0 && s.played.len() > 0 {
            Ok(
                Ended {
                    winner,
                    points: points_played(s.played),
                    largest_trick_unit_size: largest_size(f.units),
                    failed_throw_size: s.played[0].bad_throw_cards.len(),
                },
            )
        } else {
            Err(TrickError::OutOfOrder)
        },
        _ => Err(TrickError::OutOfOrder),
    }
}

/// The units that match a format have first cards.
proof fn lemma_matching(f: Format, cards: Seq<Card>, units: Seq<Unit>)
    requires
        matching(f, cards) == Some(units),
    ensures
        forall|i: int| 0 <= i < units.len() ==> (#[trigger] units[i]).members().len() > 0,
{
    let m = cards.to_multiset();
    let wanted = shapes(f.units);
    search_is_complete(f.trump, m, wanted);
    arrangement_has_the_shapes(f.trump, m, wanted, units);
    assert forall|i: int| 0 <= i < units.len() implies (#[trigger] units[i]).members().len()
        > 0 by {
        let shape = wanted[wanted.len() - 1 - i];
        assert(wanted.len() - 1 - (wanted.len() - 1 - i) == i);
    }
}

/// The play that leads is one of the plays, and its units have first cards.
pub proof fn lemma_leader(f: Format, played: Seq<Played>, n: nat)
    requires
        format_valid(f),
        0 < n <= played.len(),
    ensures
        0 <= leader(f, played, n).0 < n,
        forall|i: int|
            0 <= i < leader(f, played, n).1.len() ==> (#[trigger] leader(
                f,
                played,
                n,
            ).1[i]).members().len() > 0,
    decreases n,
{
    if n > 1 {
        lemma_leader(f, played, (n - 1) as nat);
        match matching(f, played[n - 1].cards) {
            Some(units) => {
                lemma_matching(f, played[n - 1].cards, units);
            },
            None => {},
        }
    }
}

/// Taking cards out one by one takes them all out.
pub proof fn lemma_left_over(cards: Seq<Card>, taken: Seq<Card>)
    requires
        taken.to_multiset().subset_of(cards.to_multiset()),
    ensures
        left_over(cards, taken).to_multiset() == cards.to_multiset().sub(taken.to_multiset()),
    decreases taken.len(),
{
    let m = cards.to_multiset();
    if taken.len() == 0 {
        assert(m.sub(taken.to_multiset()) =~= m);
    } else {
        let rest = taken.drop_last();
        let last = taken.last();
        assert(taken =~= rest.push(last));
        assert(taken.to_multiset() == rest.to_multiset().insert(last));
        assert forall|c: Card| rest.to_multiset().count(c) <= m.count(c) by {
            assert(taken.to_multiset().count(c) <= m.count(c));
        }
        lemma_left_over(cards, rest);
        let before = left_over(cards, rest);
        assert(taken.to_multiset().count(last) <= m.count(last));
        assert(before.to_multiset().count(last) > 0);
        assert(before.contains(last));
        before.index_of_first_ensures(last);
        assert(m.sub(rest.to_multiset()).remove(last) =~= m.sub(taken.to_multiset()));
    }
}

/// A proper unit has cards, as many as its size says.
proof fn lemma_proper(t: Trump, u: Unit)
    requires
        proper(t, u),
    ensures
        u.members().len() > 0,
        u.size() > 0,
        u.cards().len() == u.size(),
        total_size(seq![u]) == u.size(),
{
    match u {
        Unit::Tractor { count, members } => {
            assert(count * members.len() > 0) by (nonlinear_arith)
                requires
                    count >= 2,
                    members.len() >= 2,
            ;
        },
        Unit::Repeated { count, card } => {
            climbing_one(t, card);
        },
    }
    lemma_unit_tally(t, u);
    reveal_with_fuel(total_size, 2);
    assert(seq![u].drop_last() =~= seq![]);
}

/// The first player puts down what the format asks for, and keeps the rest of what they wanted
/// to put down.
proof fn lemma_opening(
    t: Trump,
    hands: Map<PlayerID, Multiset<Card>>,
    others: Seq<PlayerID>,
    cards: Seq<Card>,
    m: Move,
)
    requires
        cards.len() > 0,
        opening(t, hands, others, cards) == Ok::<Move, HandError>(m),
    ensures
        m.format.trump == t,
        format_valid(m.format),
        m.cards.len() == total_size(m.format.units),
        m.cards.to_multiset().subset_of(cards.to_multiset()),
        m.cards.to_multiset().add(m.bad_throw_cards.to_multiset()) == cards.to_multiset(),
{
    let f = lead_format(t, cards);
    let all = cards.to_multiset();
    lead_splits_the_cards(t, cards);
    assert forall|i: int| 0 <= i < f.units.len() implies (#[trigger] f.units[i]).members().len()
        > 0 by {
        lemma_proper(t, f.units[i]);
    }
    if m.better_player is Some {
        lemma_judged_unit(f, hands, others);
        let u = judge_throw(f, hands, others)->Ok_0->Some_0.1;
        let i = f.units.index_of(u);
        assert(f.units[i] == u);
        lemma_proper(t, u);
        lemma_unit_in_total(f.units, i);
        lemma_left_over(cards, u.cards());
        assert(u.tally().add(all.sub(u.tally())) =~= all) by {
            assert forall|c: Card| u.tally().count(c) <= all.count(c) by {}
        }
    } else {
        assert(all.add(m.bad_throw_cards.to_multiset()) =~= all) by {
            assert(m.bad_throw_cards =~= seq![]);
        }
    }
}

/// What is put down comes from `cards`, and what is not goes back.
pub proof fn lemma_move(
    s: TrickState,
    hands: Map<PlayerID, Multiset<Card>>,
    id: PlayerID,
    cards: Seq<Card>,
    m: Move,
)
    requires
        valid(s),
        can_play(s, hands, id, cards) is Ok,
        move_with(s, hands, cards) == Ok::<Move, HandError>(m),
    ensures
        m.format.trump == s.trump,
        s.format is Some ==> s.format == Some(m.format),
        format_valid(m.format),
        m.cards.len() == total_size(m.format.units),
        m.cards.to_multiset().subset_of(hands[id]),
        m.cards.to_multiset().add(m.bad_throw_cards.to_multiset()) == cards.to_multiset(),
{
    let sorted = sorted_cards(s.trump, cards);
    let all = cards.to_multiset();
    sorted_cards_are_sorted(s.trump, cards, sorted);
    assert(sorted.len() == cards.len()) by {
        assert(sorted.to_multiset().len() == all.len());
    }
    match s.format {
        Some(f) => {
            assert(m.bad_throw_cards =~= seq![]);
            assert(all.add(m.bad_throw_cards.to_multiset()) =~= all);
        },
        None => {
            lemma_opening(s.trump, hands, s.queue.skip(1), sorted, m);
            assert forall|c: Card| m.cards.to_multiset().count(c) <= hands[id].count(c) by {
                assert(m.cards.to_multiset().count(c) <= all.count(c));
            }
        },
    }
}

/// A play takes a trick from one valid state to another.
pub proof fn play_keeps_valid(
    s: TrickState,
    hands: Map<PlayerID, Multiset<Card>>,
    id: PlayerID,
    cards: Seq<Card>,
)
    requires
        valid(s),
        play(s, hands, id, cards) is Ok,
    ensures
        valid(play(s, hands, id, cards)->Ok_0.state),
{
    let m = move_with(s, hands, cards)->Ok_0;
    lemma_move(s, hands, id, cards, m);
    let now = after_move(s, hands, id, m).state;
    assert forall|i: int| 0 <= i < now.played.len() implies (#[trigger] now.played[i]).cards.len()
        == total_size(m.format.units) by {
        if i < s.played.len() {
            assert(now.played[i] == s.played[i]);
        }
    }
}

/// Taking a play back takes a trick from one valid state to another.
pub proof fn undo_keeps_valid(s: TrickState, hands: Map<PlayerID, Multiset<Card>>, id: PlayerID)
    requires
        valid(s),
        undo(s, hands, id) is Ok,
    ensures
        valid(undo(s, hands, id)->Ok_0.0),
{
    let now = undo(s, hands, id)->Ok_0.0;
    assert forall|i: int| 0 <= i < now.played.len() implies (#[trigger] now.played[i])
        == s.played[i] by {}
}

/// Taking back what was just played restores the trick and the hands.
pub proof fn undo_reverts_play(
    s: TrickState,
    hands: Map<PlayerID, Multiset<Card>>,
    id: PlayerID,
    cards: Seq<Card>,
)
    requires
        valid(s),
        play(s, hands, id, cards) is Ok,
    ensures
        undo(
            play(s, hands, id, cards)->Ok_0.state,
            play(s, hands, id, cards)->Ok_0.hands,
            id,
        ) == Ok::<(TrickState, Map<PlayerID, Multiset<Card>>), TrickError>((s, hands)),
{
    let m = move_with(s, hands, cards)->Ok_0;
    let now = play(s, hands, id, cards)->Ok_0;
    lemma_move(s, hands, id, cards, m);
    let put = m.cards.to_multiset();
    let (state, back) = undo(now.state, now.hands, id)->Ok_0;
    assert(now.state.played.drop_last() =~= s.played);
    assert(state.queue =~= s.queue);
    assert(hands[id].sub(put).add(put) =~= hands[id]) by {
        assert forall|c: Card| put.count(c) <= hands[id].count(c) by {}
    }
    assert(back =~= hands);
}

/// A play moves cards from the hand of the player to the trick and changes no other hand. What
/// is put down, together with what a failed throw leaves in the hand, is what the player wanted
/// to play.
pub proof fn play_conserves_cards(
    s: TrickState,
    hands: Map<PlayerID, Multiset<Card>>,
    id: PlayerID,
    cards: Seq<Card>,
)
    requires
        valid(s),
        play(s, hands, id, cards) is Ok,
    ensures
        ({
            let now = play(s, hands, id, cards)->Ok_0;
            let put = now.state.played.last();
            &&& now.state.played.drop_last() == s.played
            &&& put.id == id
            &&& now.hands.dom() == hands.dom()
            &&& forall|p: PlayerID| p != id ==> #[trigger] now.hands[p] == hands[p]
            &&& now.hands[id].add(put.cards.to_multiset()) == hands[id]
            &&& put.cards.to_multiset().add(put.bad_throw_cards.to_multiset())
                == cards.to_multiset()
        }),
{
    let m = move_with(s, hands, cards)->Ok_0;
    lemma_move(s, hands, id, cards, m);
    let now = play(s, hands, id, cards)->Ok_0;
    let put = m.cards.to_multiset();
    assert(now.state.played.drop_last() =~= s.played);
    assert(now.hands.dom() =~= hands.dom());
    assert(hands[id].sub(put).add(put) =~= hands[id]) by {
        assert forall|c: Card| put.count(c) <= hands[id].count(c) by {}
    }
}

/// Where no hand holds more of a card than a machine integer can say, there is room to take back
/// what was just played.
pub proof fn plays_can_be_taken_back(
    s: TrickState,
    hands: Map<PlayerID, Multiset<Card>>,
    id: PlayerID,
    cards: Seq<Card>,
)
    requires
        valid(s),
        play(s, hands, id, cards) is Ok,
        forall|p: PlayerID, c: Card|
            hands.dom().contains(p) ==> #[trigger] hands[p].count(c) <= usize::MAX,
    ensures
        ({
            let now = play(s, hands, id, cards)->Ok_0;
            &&& now.hands.dom().contains(id)
            &&& has_room(now.hands[id], now.state.played.last().cards)
        }),
{
    play_conserves_cards(s, hands, id, cards);
    let now = play(s, hands, id, cards)->Ok_0;
    let put = now.state.played.last().cards;
    assert forall|c: Card| #[trigger]
        now.hands[id].count(c) + put.to_multiset().count(c) <= usize::MAX by {
        assert(now.hands[id].add(put.to_multiset()).count(c) == hands[id].count(c));
    }
}

/// A play that is allowed goes through, provided that everyone who is to play has a hand.
pub proof fn allowed_plays_succeed(
    s: TrickState,
    hands: Map<PlayerID, Multiset<Card>>,
    id: PlayerID,
    cards: Seq<Card>,
)
    requires
        can_play(s, hands, id, cards) is Ok,
        forall|i: int| 0 <= i < s.queue.len() ==> hands.dom().contains(#[trigger] s.queue[i]),
    ensures
        play(s, hands, id, cards) is Ok,
{
    let others = s.queue.skip(1);
    assert forall|i: int| 0 <= i < others.len() implies hands.dom().contains(
        #[trigger] others[i],
    ) by {
        assert(others[i] == s.queue[i + 1]);
    }
    throw_fails_if_beaten(lead_format(s.trump, sorted_cards(s.trump, cards)), hands, others);
}

/// A trick can be completed exactly if everyone has played and anyone has, and then it is won by
/// someone who played.
pub proof fn completed_tricks_have_a_winner(s: TrickState)
    requires
        valid(s),
    ensures
        ending(s) is Ok <==> s.queue.len() == 0 && s.played.len() > 0,
        ending(s) is Ok ==> exists|i: int|
            0 <= i < s.played.len() && (#[trigger] s.played[i]).id == ending(s)->Ok_0.winner,
{
    if s.played.len() > 0 {
        let f = s.format->Some_0;
        lemma_leader(f, s.played, s.played.len());
    }
}

/// The players of a trick, in the order in which they play.
pub open spec fn players_of(s: TrickState) -> Seq<PlayerID> {
    s.played.map_values(|p: Played| p.id) + s.queue
}

/// Only the first play can be a throw that failed.
pub open spec fn only_leads_fail(s: TrickState) -> bool {
    forall|i: int|
        0 < i < s.played.len() ==> (#[trigger] s.played[i]).bad_throw_cards.len() == 0
            && s.played[i].better_player is None
}

/// The format is the one that the cards put down first set, also where they are all that is left
/// of a throw that failed.
pub open spec fn format_is_led(s: TrickState) -> bool {
    s.format is Some ==> s.played.len() > 0 && s.format == Some(
        lead_format(s.trump, s.played[0].cards),
    )
}

/// What a player holds together with what they have put down.
pub open spec fn owned(
    s: TrickState,
    hands: Map<PlayerID, Multiset<Card>>,
    id: PlayerID,
) -> Multiset<Card> {
    hands[id].add(put_down(s.played, id))
}

/// What `id` has put down.
pub open spec fn put_down(played: Seq<Played>, id: PlayerID) -> Multiset<Card>
    decreases played.len(),
{
    if played.len() == 0 {
        Multiset::empty()
    } else if played.last().id == id {
        put_down(played.drop_last(), id).add(played.last().cards.to_multiset())
    } else {
        put_down(played.drop_last(), id)
    }
}

/// Something that a player wants to do.
pub enum Step {
    Play { id: PlayerID, cards: Seq<Card> },
    TakeBack { id: PlayerID },
}

/// What one step leads to. A step that is refused changes nothing.
pub open spec fn after_step(
    s: TrickState,
    hands: Map<PlayerID, Multiset<Card>>,
    step: Step,
) -> (TrickState, Map<PlayerID, Multiset<Card>>) {
    match step {
        Step::Play { id, cards } => match play(s, hands, id, cards) {
            Ok(outcome) => (outcome.state, outcome.hands),
            Err(_) => (s, hands),
        },
        Step::TakeBack { id } => match undo(s, hands, id) {
            Ok(now) => now,
            Err(_) => (s, hands),
        },
    }
}

/// What `steps` lead to, one after the other.
pub open spec fn after_steps(
    s: TrickState,
    hands: Map<PlayerID, Multiset<Card>>,
    steps: Seq<Step>,
) -> (TrickState, Map<PlayerID, Multiset<Card>>)
    decreases steps.len(),
{
    if steps.len() == 0 {
        (s, hands)
    } else {
        let (before, held) = after_steps(s, hands, steps.drop_last());
        after_step(before, held, steps.last())
    }
}

/// A trick that nobody has played to yet.
pub open spec fn fresh(t: Trump, players: Seq<PlayerID>) -> TrickState {
    TrickState { queue: players, played: seq![], winner: None, format: None, trump: t }
}

/// A play keeps the players in order, fails as a throw only if it is the first, and leaves the
/// format to the cards put down first.
pub proof fn play_keeps_the_history(
    s: TrickState,
    hands: Map<PlayerID, Multiset<Card>>,
    id: PlayerID,
    cards: Seq<Card>,
)
    requires
        valid(s),
        play(s, hands, id, cards) is Ok,
    ensures
        ({
            let now = play(s, hands, id, cards)->Ok_0.state;
            &&& now.trump == s.trump
            &&& players_of(now) == players_of(s)
            &&& only_leads_fail(s) ==> only_leads_fail(now)
            &&& format_is_led(s) ==> format_is_led(now)
        }),
{
    let now = play(s, hands, id, cards)->Ok_0.state;
    let m = move_with(s, hands, cards)->Ok_0;
    let n = s.played.len() as int;
    assert(players_of(now) =~= players_of(s));
    assert forall|i: int| 0 <= i < n implies #[trigger] now.played[i] == s.played[i] by {}
    match s.format {
        Some(f) => {
            assert(now.played[n].bad_throw_cards =~= seq![]);
        },
        None => {
            let sorted = sorted_cards(s.trump, cards);
            lemma_sorted_suit(s.trump, cards);
            lemma_opening_is_led(s.trump, hands, s.queue.skip(1), sorted, m);
        },
    }
}

/// Taking a play back keeps all that as well.
pub proof fn undo_keeps_the_history(
    s: TrickState,
    hands: Map<PlayerID, Multiset<Card>>,
    id: PlayerID,
)
    requires
        undo(s, hands, id) is Ok,
    ensures
        ({
            let now = undo(s, hands, id)->Ok_0.0;
            &&& now.trump == s.trump
            &&& players_of(now) == players_of(s)
            &&& only_leads_fail(s) ==> only_leads_fail(now)
            &&& format_is_led(s) ==> format_is_led(now)
        }),
{
    let now = undo(s, hands, id)->Ok_0.0;
    assert(players_of(now) =~= players_of(s));
    assert forall|i: int| 0 <= i < now.played.len() implies #[trigger] now.played[i]
        == s.played[i] by {}
}

/// Whatever the players do, in whatever order: the trick stays valid, those who have played and
/// those who are to play remain the players in their order, only the first play can be a throw
/// that failed, the format is that of the cards put down first, and nobody gains or loses a card.
pub proof fn histories_are_orderly(
    t: Trump,
    players: Seq<PlayerID>,
    hands: Map<PlayerID, Multiset<Card>>,
    steps: Seq<Step>,
)
    ensures
        ({
            let (s, held) = after_steps(fresh(t, players), hands, steps);
            &&& valid(s)
            &&& s.trump == t
            &&& players_of(s) == players
            &&& only_leads_fail(s)
            &&& format_is_led(s)
            &&& held.dom() == hands.dom()
            &&& forall|i: int|
                0 <= i < s.played.len() ==> hands.dom().contains((#[trigger] s.played[i]).id)
            &&& forall|id: PlayerID|
                hands.dom().contains(id) ==> #[trigger] owned(s, held, id) == hands[id]
        }),
    decreases steps.len(),
{
    if steps.len() == 0 {
        assert(players_of(fresh(t, players)) =~= players);
        assert forall|id: PlayerID| hands.dom().contains(id) implies #[trigger] owned(
            fresh(t, players),
            hands,
            id,
        ) == hands[id] by {
            assert(owned(fresh(t, players), hands, id) =~= hands[id]);
        }
    } else {
        let (s, held) = after_steps(fresh(t, players), hands, steps.drop_last());
        histories_are_orderly(t, players, hands, steps.drop_last());
        lemma_step(s, held, steps.last());
        let (now, after) = after_step(s, held, steps.last());
        assert forall|id: PlayerID| hands.dom().contains(id) implies #[trigger] owned(
            now,
            after,
            id,
        ) == hands[id] by {
            assert(owned(s, held, id) == hands[id]);
        }
    }
}

proof fn lemma_step(s: TrickState, hands: Map<PlayerID, Multiset<Card>>, step: Step)
    requires
        valid(s),
        only_leads_fail(s),
        format_is_led(s),
        forall|i: int| 0 <= i < s.played.len() ==> hands.dom().contains((#[trigger] s.played[i]).id),
    ensures
        ({
            let (now, after) = after_step(s, hands, step);
            &&& valid(now)
            &&& now.trump == s.trump
            &&& players_of(now) == players_of(s)
            &&& only_leads_fail(now)
            &&& format_is_led(now)
            &&& after.dom() == hands.dom()
            &&& forall|i: int|
                0 <= i < now.played.len() ==> hands.dom().contains((#[trigger] now.played[i]).id)
            &&& forall|id: PlayerID| #[trigger] owned(now, after, id) == owned(s, hands, id)
        }),
{
    let (now, after) = after_step(s, hands, step);
    match step {
        Step::Play { id, cards } => {
            if play(s, hands, id, cards) is Ok {
                play_keeps_valid(s, hands, id, cards);
                play_keeps_the_history(s, hands, id, cards);
                play_conserves_cards(s, hands, id, cards);
                let put = now.played.last().cards.to_multiset();
                assert forall|i: int| 0 <= i < now.played.len() implies hands.dom().contains(
                    (#[trigger] now.played[i]).id,
                ) by {
                    if i < s.played.len() {
                        assert(now.played[i] == s.played[i]);
                    }
                }
                assert forall|p: PlayerID| #[trigger] owned(now, after, p) == owned(
                    s,
                    hands,
                    p,
                ) by {
                    if p == id {
                        assert(after[p].add(put) == hands[p]);
                        assert(owned(now, after, p) =~= owned(s, hands, p));
                    } else {
                        assert(after[p] == hands[p]);
                    }
                }
            }
        },
        Step::TakeBack { id } => {
            if undo(s, hands, id) is Ok {
                undo_keeps_valid(s, hands, id);
                undo_keeps_the_history(s, hands, id);
                assert(s.played[s.played.len() - 1].id == id);
                assert(after.dom() =~= hands.dom());
                assert forall|i: int| 0 <= i < now.played.len() implies hands.dom().contains(
                    (#[trigger] now.played[i]).id,
                ) by {
                    assert(now.played[i] == s.played[i]);
                }
                assert forall|p: PlayerID| #[trigger] owned(now, after, p) == owned(
                    s,
                    hands,
                    p,
                ) by {
                    assert(owned(now, after, p) =~= owned(s, hands, p));
                }
            }
        },
    }
}

/// The largest unit that a trick is reported with is the largest that the cards put down first
/// are made of.
pub proof fn largest_unit_is_that_of_the_lead(s: TrickState)
    requires
        format_is_led(s),
        ending(s) is Ok,
    ensures
        ending(s)->Ok_0.largest_trick_unit_size == largest_size(
            lead_format(s.trump, s.played[0].cards).units,
        ),
{
}

/// The format after a first play is that of what is put down.
proof fn lemma_opening_is_led(
    t: Trump,
    hands: Map<PlayerID, Multiset<Card>>,
    others: Seq<PlayerID>,
    cards: Seq<Card>,
    m: Move,
)
    requires
        cards.len() > 0,
        all_in_suit(t, t.suit_of(cards[0]), cards),
        opening(t, hands, others, cards) == Ok::<Move, HandError>(m),
    ensures
        m.format == lead_format(t, m.cards),
{
    let f = lead_format(t, cards);
    if m.better_player is Some {
        lemma_opening(t, hands, others, cards, m);
        lemma_judged_unit(f, hands, others);
        lead_splits_the_cards(t, cards);
        let u = judge_throw(f, hands, others)->Ok_0->Some_0.1;
        let i = f.units.index_of(u);
        assert(f.units[i] == u);
        assert(proper(t, u));
        lemma_proper(t, u);
        a_unit_leads_as_itself(t, u);
        let c = u.cards()[0];
        assert(u.cards().contains(c));
        assert(u.cards().to_multiset().count(c) <= cards.to_multiset().count(c));
        assert(cards.contains(c));
        assert(cards[cards.index_of(c)] == c);
        assert(m.format.units =~= lead_format(t, m.cards).units);
    }
}

/// The first play leads with the units of the format, any other with the units by which it
/// matches. No later play that matches beats the one that leads.
pub proof fn leader_is_unbeaten(f: Format, played: Seq<Played>, n: nat)
    requires
        0 < n <= played.len(),
    ensures
        0 <= leader(f, played, n).0 < n,
        leader(f, played, n).0 == 0 ==> leader(f, played, n).1 == f.units,
        leader(f, played, n).0 > 0 ==> matching(f, played[leader(f, played, n).0].cards) == Some(
            leader(f, played, n).1,
        ),
        forall|j: int|
            leader(f, played, n).0 < j < n ==> match matching(f, (#[trigger] played[j]).cards) {
                Some(units) => !beats(f.trump, units, leader(f, played, n).1),
                None => true,
            },
    decreases n,
{
    if n > 1 {
        leader_is_unbeaten(f, played, (n - 1) as nat);
    }
}

fn stronger(trump: Trump, a: Card, b: Card) -> (r: bool)
    ensures
        r == (trump.strength(a) > trump.strength(b)),
{
    match trump.compare_effective(a, b) {
        Ordering::Greater => true,
        _ => false,
    }
}

/// Whether `units` beat `best`.
fn all_greater(trump: Trump, units: &Units, best: &Units) -> (r: bool)
    requires
        forall|i: int|
            0 <= i < units.model().len() ==> (#[trigger] units.model()[i]).members().len() > 0,
        forall|i: int|
            0 <= i < best.model().len() ==> (#[trigger] best.model()[i]).members().len() > 0,
    ensures
        r == beats(trump, units.model(), best.model()),
{
    let a = units.as_slice();
    let b = best.as_slice();
    let n = if a.len() < b.len() {
        a.len()
    } else {
        b.len()
    };
    for i in 0..n
        invariant
            n <= a@.len(),
            n <= b@.len(),
            a@ == units@,
            b@ == best@,
            forall|i: int|
                0 <= i < units.model().len() ==> (#[trigger] units.model()[i]).members().len() > 0,
            forall|i: int|
                0 <= i < best.model().len() ==> (#[trigger] best.model()[i]).members().len() > 0,
            forall|j: int|
                0 <= j < i ==> trump.strength((#[trigger] units.model()[j]).first().card)
                    > trump.strength(best.model()[j].first().card),
    {
        assert(units.model()[i as int] == a@[i as int]@);
        assert(best.model()[i as int] == b@[i as int]@);
        if !stronger(trump, a[i].first_card().card, b[i].first_card().card) {
            return false;
        }
    }
    true
}

/// `cards` without `taken`.
fn take_out(cards: &Vec<Card>, taken: &[Card]) -> (r: Vec<Card>)
    requires
        taken@.to_multiset().subset_of(cards@.to_multiset()),
    ensures
        r@ == left_over(cards@, taken@),
{
    let mut rest = slice_to_vec(cards.as_slice());
    for i in 0..taken.len()
        invariant
            rest@ == left_over(cards@, taken@.take(i as int)),
    {
        let ghost before = rest@;
        assert(taken@.take(i + 1).drop_last() =~= taken@.take(i as int));
        let n = rest.len();
        let mut at: usize = 0;
        while at < n && rest[at] != taken[i]
            invariant
                at <= n,
                n == rest@.len(),
                rest@ == before,
                i < taken@.len(),
                forall|j: int| 0 <= j < at ==> rest@[j] != taken@[i as int],
            decreases n - at,
        {
            at += 1;
        }
        proof {
            before.index_of_first_ensures(taken@[i as int]);
        }
        if at < n {
            rest.remove(at);
        }
    }
    assert(taken@.take(taken.len() as int) =~= taken@);
    rest
}

/// What a player puts down. There is a format only if it is new.
struct Placed {
    format: Option<TrickFormat>,
    cards: Vec<Card>,
    bad_throw_cards: Vec<Card>,
    better_player: Option<PlayerID>,
    messages: Vec<MessageVariant>,
}

impl Placed {
    /// What a move does in a state with the format `format`.
    spec fn makes(self, format: Option<Format>, m: Move) -> bool {
        &&& match self.format {
            Some(f) => f@ == m.format,
            None => format == Some(m.format),
        }
        &&& self.cards@ == m.cards
        &&& self.bad_throw_cards@ == m.bad_throw_cards
        &&& self.better_player == m.better_player
        &&& self.messages@.map_values(|v: MessageVariant| v@) == m.messages
    }
}

/// All of `cards` are put down.
fn put_all(format: Option<TrickFormat>, cards: Vec<Card>) -> (r: Placed)
    ensures
        r.format == format,
        r.cards@ == cards@,
        r.bad_throw_cards@ == Seq::<Card>::empty(),
        r.better_player is None,
        r.messages@.map_values(|v: MessageVariant| v@) == seq![
            Message::PlayedCards { cards: cards@ },
        ],
{
    let mut messages: Vec<MessageVariant> = Vec::new();
    messages.push(MessageVariant::PlayedCards { cards: slice_to_vec(cards.as_slice()) });
    assert(messages@.map_values(|v: MessageVariant| v@) =~= seq![
        Message::PlayedCards { cards: cards@ },
    ]);
    Placed { format, cards, bad_throw_cards: Vec::new(), better_player: None, messages }
}

/// Only the unit at `k` of the throw is put down.
fn put_one(format: TrickFormat, cards: Vec<Card>, player: PlayerID, k: usize) -> (r: Placed)
    requires
        k < format.units@.len(),
        format@.units[k as int].tally().subset_of(cards@.to_multiset()),
    ensures
        r.makes(None, failed_throw(format@, cards@, player, format@.units[k as int])),
{
    let ghost u = format@.units[k as int];
    let unit = format.units.as_slice()[k].clone();
    assert(unit@ == u);
    let forced = unit.cards();
    let forced_cards = slice_to_vec(forced.as_slice());
    let rest = take_out(&cards, forced_cards.as_slice());
    let mut messages: Vec<MessageVariant> = Vec::new();
    messages.push(
        MessageVariant::PlayedCards { cards: slice_to_vec(forced_cards.as_slice()) },
    );
    messages.insert(0, MessageVariant::ThrowFailed { original_cards: cards, better_player: player });
    let mut units = Units::new();
    units.push(unit);
    let now = TrickFormat { suit: format.suit, trump: format.trump, units };
    assert(now@.units =~= seq![u]);
    assert(messages@.map_values(|v: MessageVariant| v@) =~= failed_throw(
        format@,
        cards@,
        player,
        u,
    ).messages);
    Placed {
        format: Some(now),
        cards: forced_cards,
        bad_throw_cards: rest,
        better_player: Some(player),
        messages,
    }
}

impl Trick {
    /// The trick is in a state that it can be in.
    pub open spec fn wf(&self) -> bool {
        valid(self@)
    }

    /// A trick that nobody has played to yet.
    pub fn new(trump: Trump, players: Vec<PlayerID>) -> (r: Trick)
        ensures
            r.wf(),
            r@ == fresh(trump, players@),
    {
        let mut player_queue: VecDeque<PlayerID> = VecDeque::new();
        for i in 0..players.len()
            invariant
                player_queue@ == players@.take(i as int),
        {
            player_queue.push_back(players[i]);
            assert(player_queue@ =~= players@.take(i + 1));
        }
        assert(players@.take(players.len() as int) =~= players@);
        let r = Trick {
            player_queue,
            played_cards: Vec::new(),
            current_winner: None,
            trick_format: None,
            trump,
        };
        assert(r@.played =~= seq![]);
        r
    }

    /// What was put down so far, in order.
    pub fn played_cards(&self) -> (r: &[PlayedCards])
        ensures
            r@ == self.played_cards@,
    {
        self.played_cards.as_slice()
    }

    /// Who is to play next.
    pub fn next_player(&self) -> (r: Option<PlayerID>)
        ensures
            r == if self@.queue.len() > 0 {
                Some(self@.queue[0])
            } else {
                None
            },
    {
        if self.player_queue.len() > 0 {
            Some(self.player_queue[0])
        } else {
            None
        }
    }

    /// Who is still to play, in order.
    pub fn player_queue(&self) -> (r: Vec<PlayerID>)
        ensures
            r@ == self@.queue,
    {
        self.players_from(0)
    }

    fn players_from(&self, start: usize) -> (r: Vec<PlayerID>)
        requires
            start <= self@.queue.len(),
        ensures
            r@ == self@.queue.skip(start as int),
    {
        let mut players: Vec<PlayerID> = Vec::new();
        for i in start..self.player_queue.len()
            invariant
                start <= i,
                players@ == self@.queue.subrange(start as int, i as int),
        {
            players.push(self.player_queue[i]);
            assert(players@ =~= self@.queue.subrange(start as int, i + 1));
        }
        players
    }

    /// Determines whether the player can play the cards.
    ///
    /// Whether a throw stands is not part of the question.
    pub fn can_play_cards(&self, id: PlayerID, hands: &Hands, cards: &[Card]) -> (r: Result<
        (),
        TrickError,
    >)
        requires
            hands.wf(),
        ensures
            r == can_play(self@, hands@, id, cards@),
    {
        match hands.contains(id, cards) {
            Ok(()) => {},
            Err(e) => {
                return Err(TrickError::from(e));
            },
        }
        if self.next_player() != Some(id) {
            return Err(TrickError::OutOfOrder);
        }
        match &self.trick_format {
            Some(tf) => match hands.get(id) {
                Ok(hand) => if tf.is_legal_play(hand, cards) {
                    Ok(())
                } else {
                    Err(TrickError::IllegalPlay)
                },
                Err(e) => Err(TrickError::from(e)),
            },
            None => {
                let num_cards = cards.len();
                if num_cards > 0 && have_suit(
                    self.trump,
                    self.trump.effective_suit(cards[0]),
                    cards,
                ) {
                    Ok(())
                } else {
                    Err(TrickError::WrongNumberOfSuits)
                }
            },
        }
    }

    /// What the first player puts down who wants to play the sorted `cards`.
    fn open_with(&self, hands: &Hands, cards: Vec<Card>) -> (r: Result<Placed, TrickError>)
        requires
            hands.wf(),
            self@.queue.len() > 0,
            cards@.len() > 0,
            all_in_suit(self@.trump, self@.trump.suit_of(cards@[0]), cards@),
        ensures
            match (r, opening(self@.trump, hands@, self@.queue.skip(1), cards@)) {
                (Ok(placed), Ok(m)) => placed.makes(None, m),
                (Err(e), Err(source)) => e == (TrickError::HandError { source }),
                _ => false,
            },
    {
        let tf = match TrickFormat::from_cards(self.trump, cards.as_slice()) {
            Ok(tf) => tf,
            Err(e) => {
                return Err(e);
            },
        };
        let ghost f = tf@;
        proof {
            lead_splits_the_cards(self.trump, cards@);
            assert forall|i: int|
                0 <= i < f.units.len() && (#[trigger] f.units[i]) is Tractor implies f.units[i].members().len()
                >= 2 by {
                assert(proper(self.trump, f.units[i]));
            }
        }
        if tf.units.as_slice().len() > 1 {
            // This is a throw: see whether another player can beat one of its units.
            let others = self.players_from(1);
            match check_throw(&tf, hands, others.as_slice()) {
                Err(e) => {
                    return Err(TrickError::from(e));
                },
                Ok(None) => {},
                Ok(Some((player, k))) => {
                    proof {
                        lemma_unit_in_total(f.units, k as int);
                    }
                    return Ok(put_one(tf, cards, player, k));
                },
            }
        }
        let placed = put_all(Some(tf), cards);
        assert(placed.bad_throw_cards@ =~= seq![]);
        Ok(placed)
    }

    /// Actually plays the cards, if possible. On error, nothing changes.
    pub fn play_cards(&mut self, id: PlayerID, hands: &mut Hands, cards: &[Card]) -> (r: Result<
        Vec<MessageVariant>,
        TrickError,
    >)
        requires
            old(self).wf(),
            old(hands).wf(),
        ensures
            final(self).wf(),
            final(hands).wf(),
            final(hands).played_at() == old(hands).played_at(),
            match (r, play(old(self)@, old(hands)@, id, cards@)) {
                (Ok(messages), Ok(outcome)) => {
                    &&& final(self)@ == outcome.state
                    &&& final(hands)@ == outcome.hands
                    &&& messages@.map_values(|v: MessageVariant| v@) == outcome.messages
                    // What was played can be taken back.
                    &&& final(hands)@.dom().contains(id)
                    &&& has_room(final(hands)@[id], final(self)@.played.last().cards)
                },
                (Err(e), Err(expected)) => {
                    &&& e == expected
                    &&& *final(self) == *old(self)
                    &&& *final(hands) == *old(hands)
                },
                _ => false,
            },
    {
        match self.can_play_cards(id, hands, cards) {
            Ok(()) => {},
            Err(e) => {
                return Err(e);
            },
        }
        let ghost s = self@;
        let ghost before = hands@;
        let sorted = sort_cards(self.trump, cards);
        let placed = match self.trick_format {
            Some(_) => put_all(None, sorted),
            None => {
                proof {
                    lemma_sorted_suit(self.trump, cards@);
                }
                match self.open_with(hands, sorted) {
                    Ok(placed) => placed,
                    Err(e) => {
                        return Err(e);
                    },
                }
            },
        };
        let ghost m = move_with(s, before, cards@)->Ok_0;
        proof {
            assert(Seq::<Card>::empty() =~= seq![]);
            assert(placed.makes(s.format, m));
            lemma_move(s, before, id, cards@, m);
            play_keeps_valid(s, before, id, cards@);
            hands.hands_are_bounded();
            plays_can_be_taken_back(s, before, id, cards@);
        }
        match hands.remove(id, placed.cards.as_slice()) {
            Ok(()) => {},
            Err(e) => {
                return Err(TrickError::from(e));
            },
        }
        let _ = self.player_queue.pop_front();
        self.played_cards.push(
            PlayedCards {
                id,
                cards: placed.cards,
                bad_throw_cards: placed.bad_throw_cards,
                better_player: placed.better_player,
            },
        );
        if let Some(tf) = placed.format {
            self.trick_format = Some(tf);
        }
        proof {
            assert(self@.played =~= after_move(s, before, id, m).state.played);
            assert(self@.queue =~= s.queue.skip(1));
            let now = after_move(s, before, id, m).state;
            assert forall|i: int| 0 <= i < self.played_cards@.len() implies (
            #[trigger] self.played_cards@[i]).cards@.len() == total_size(m.format.units) by {
                assert(now.played[i] == self.played_cards@[i]@);
            }
        }
        self.current_winner = Trick::winner(&self.trick_format, self.played_cards.as_slice());
        Ok(placed.messages)
    }

    /// Takes back the cards that `id` just played.
    pub fn take_back(&mut self, id: PlayerID, hands: &mut Hands) -> (r: Result<(), TrickError>)
        requires
            old(self).wf(),
            old(hands).wf(),
            undo(old(self)@, old(hands)@, id) is Ok ==> old(hands)@.dom().contains(id) && has_room(
                old(hands)@[id],
                old(self)@.played.last().cards,
            ),
        ensures
            final(self).wf(),
            final(hands).wf(),
            final(hands).played_at() == old(hands).played_at(),
            match (r, undo(old(self)@, old(hands)@, id)) {
                (Ok(()), Ok((state, back))) => final(self)@ == state && final(hands)@ == back,
                (Err(e), Err(expected)) => {
                    &&& e == expected
                    &&& *final(self) == *old(self)
                    &&& *final(hands) == *old(hands)
                },
                _ => false,
            },
    {
        let num_played = self.played_cards.len();
        if num_played == 0 || self.played_cards[num_played - 1].id != id {
            return Err(TrickError::OutOfOrder);
        }
        let ghost s = self@;
        proof {
            undo_keeps_valid(s, hands@, id);
        }
        if let Some(played) = self.played_cards.pop() {
            assert(played@ == s.played.last());
            match hands.add(id, played.cards.as_slice()) {
                Ok(()) => {},
                Err(e) => {
                    return Err(TrickError::from(e));
                },
            }
        }
        self.player_queue.push_front(id);
        assert(self@.played =~= s.played.drop_last());
        if num_played == 1 {
            self.trick_format = None;
        }
        proof {
            assert forall|i: int| 0 <= i < self.played_cards@.len() implies (
            #[trigger] self.played_cards@[i]).cards@ == s.played[i].cards by {
                assert(self@.played[i] == self.played_cards@[i]@);
            }
        }
        self.current_winner = Trick::winner(&self.trick_format, self.played_cards.as_slice());
        Ok(())
    }

    /// Completes the trick and determines the winner. Returns the point cards that the winner
    /// won.
    pub fn complete(&self) -> (r: Result<TrickEnded, TrickError>)
        requires
            self.wf(),
        ensures
            match (r, ending(self@)) {
                (Ok(ended), Ok(expected)) => ended@ == expected,
                (Err(e), Err(expected)) => e == expected,
                _ => false,
            },
    {
        let num_played = self.played_cards.len();
        if self.player_queue.len() > 0 || num_played == 0 {
            return Err(TrickError::OutOfOrder);
        }
        match (&self.trick_format, self.current_winner) {
            (Some(tf), Some(winner)) => {
                assert(self@.played[0] == self.played_cards@[0]@);
                assert(self.played_cards@[0].cards.len() == total_size(tf@.units));
                Ok(
                    TrickEnded {
                        winner,
                        points: all_card_points(self.played_cards.as_slice()),
                        largest_trick_unit_size: largest(&tf.units),
                        failed_throw_size: self.played_cards[0].bad_throw_cards.len(),
                    },
                )
            },
            _ => Err(TrickError::OutOfOrder),
        }
    }

    /// Who wins with what was played.
    fn winner(format: &Option<TrickFormat>, played: &[PlayedCards]) -> (r: Option<PlayerID>)
        requires
            format matches Some(f) ==> format_valid(f@) && played@.len() > 0 && forall|i: int|
                0 <= i < played@.len() ==> (#[trigger] played@[i]).cards@.len() == total_size(
                    f@.units,
                ),
        ensures
            r == winner_of(
                match *format {
                    Some(f) => Some(f@),
                    None => None,
                },
                played@.map_values(|p: PlayedCards| p@),
            ),
    {
        match format {
            Some(tf) => {
                let ghost plays = played@.map_values(|p: PlayedCards| p@);
                let ghost f = tf@;
                let mut best: usize = 0;
                let mut units = tf.units.clone();
                for i in 1..played.len()
                    invariant
                        f == tf@,
                        format_valid(f),
                        plays == played@.map_values(|p: PlayedCards| p@),
                        forall|i: int|
                            0 <= i < played@.len() ==> (#[trigger] played@[i]).cards@.len()
                                == total_size(f.units),
                        best < i,
                        i <= played@.len(),
                        leader(f, plays, i as nat) == (best as int, units.model()),
                {
                    assert(plays[i as int] == played@[i as int]@);
                    proof {
                        lemma_leader(f, plays, i as nat);
                    }
                    if let Ok(found) = tf.matches(played[i].cards.as_slice()) {
                        proof {
                            lemma_matching(f, plays[i as int].cards, found.model());
                            assert forall|k: int| 0 <= k < units.model().len() implies (
                            #[trigger] units.model()[k]).members().len() > 0 by {
                                assert(leader(f, plays, i as nat).1[k] == units.model()[k]);
                            }
                        }
                        if all_greater(tf.trump, &found, &units) {
                            best = i;
                            units = found;
                        }
                    }
                }
                Some(played[best].id)
            },
            None => None,
        }
    }
}

/// Sorted cards have the same suit.
proof fn lemma_sorted_suit(t: Trump, cards: Seq<Card>)
    requires
        cards.len() > 0,
        all_in_suit(t, t.suit_of(cards[0]), cards),
    ensures
        sorted_cards(t, cards).len() > 0,
        all_in_suit(t, t.suit_of(sorted_cards(t, cards)[0]), sorted_cards(t, cards)),
{
    let sorted = sorted_cards(t, cards);
    let suit = t.suit_of(cards[0]);
    sorted_cards_are_sorted(t, cards, sorted);
    assert(sorted.to_multiset().len() == cards.to_multiset().len());
    assert forall|i: int| 0 <= i < sorted.len() implies t.suit_of(#[trigger] sorted[i]) == suit by {
        assert(sorted.to_multiset().count(sorted[i]) > 0) by {
            assert(sorted.contains(sorted[i]));
        }
        assert(cards.contains(sorted[i]));
        assert(cards[cards.index_of(sorted[i])] == sorted[i]);
    }
}

fn all_card_points(played: &[PlayedCards]) -> (r: Vec<Card>)
    ensures
        r@ == points_played(played@.map_values(|p: PlayedCards| p@)),
{
    let ghost plays = played@.map_values(|p: PlayedCards| p@);
    let ghost pays = |c: Card| c.worth() is Some;
    let mut points: Vec<Card> = Vec::new();
    for i in 0..played.len()
        invariant
            plays == played@.map_values(|p: PlayedCards| p@),
            pays == (|c: Card| c.worth() is Some),
            points@ == points_played(plays.take(i as int)),
    {
        let cards = &played[i].cards;
        let ghost before = points@;
        assert(cards@.take(0).filter(pays) =~= seq![]);
        for j in 0..cards.len()
            invariant
                pays == (|c: Card| c.worth() is Some),
                points@ == before + cards@.take(j as int).filter(pays),
        {
            proof {
                let done = cards@.take(j as int);
                assert(cards@.take(j + 1) =~= done.push(cards@[j as int]));
                reveal(Seq::filter);
                assert(done.push(cards@[j as int]).drop_last() =~= done);
            }
            if cards[j].points().is_some() {
                points.push(cards[j]);
            }
        }
        proof {
            assert(cards@.take(cards.len() as int) =~= cards@);
            assert(plays.take(i + 1).drop_last() =~= plays.take(i as int));
            assert(plays.take(i + 1).last().cards == cards@);
        }
    }
    assert(plays.take(played.len() as int) =~= plays);
    points
}

fn largest(units: &Units) -> (r: usize)
    requires
        total_size(units.model()) <= usize::MAX,
    ensures
        r == largest_size(units.model()),
{
    let list = units.as_slice();
    let ghost model = units.model();
    let mut largest: usize = 0;
    for i in 0..list.len()
        invariant
            list@ == units@,
            model == units.model(),
            total_size(model) <= usize::MAX,
            largest == largest_size(model.take(i as int)),
    {
        assert(model[i as int] == list@[i as int]@);
        assert(model.take(i + 1).drop_last() =~= model.take(i as int));
        proof {
            lemma_size_in_total(model, i as int);
        }
        let size = list[i].size();
        if size >= largest {
            largest = size;
        }
    }
    assert(model.take(list.len() as int) =~= model);
    largest
}

/// Whether the units of a format have first cards and any cards at all.
fn format_is_valid(format: &TrickFormat) -> (r: bool)
    ensures
        r == format_valid(format@),
{
    match count_cards(&format.units) {
        Some(n) => {
            if n == 0 {
                return false;
            }
        },
        None => {},
    }
    let list = format.units.as_slice();
    let ghost model = format@.units;
    for i in 0..list.len()
        invariant
            list@ == format.units@,
            model == format@.units,
            forall|j: int| 0 <= j < i ==> (#[trigger] model[j]).members().len() > 0,
    {
        assert(model[i as int] == list@[i as int]@);
        if let TrickUnit::Tractor { members, .. } = &list[i] {
            if members.as_slice().len() == 0 {
                return false;
            }
        }
    }
    true
}

/// Whether everyone put down as many cards as `format` asks for.
fn counts_agree(format: &TrickFormat, played: &[PlayedCards]) -> (r: bool)
    ensures
        r == forall|i: int|
            0 <= i < played@.len() ==> (#[trigger] played@[i]).cards@.len() == total_size(
                format@.units,
            ),
{
    let required = count_cards(&format.units);
    for i in 0..played.len()
        invariant
            match required {
                Some(n) => n == total_size(format@.units),
                None => total_size(format@.units) > usize::MAX,
            },
            forall|j: int|
                0 <= j < i ==> (#[trigger] played@[j]).cards@.len() == total_size(format@.units),
    {
        let n = played[i].cards.len();
        if required != Some(n) {
            return false;
        }
    }
    true
}

impl Trick {
    /// Whether the trick is in a state that it can be in. This always holds of a trick that was
    /// made by `new`; it is in question only where a trick was put together from its parts.
    pub fn is_valid(&self) -> (r: bool)
        ensures
            r == self.wf(),
    {
        let num_played = self.played_cards.len();
        let ghost s = self@;
        proof {
            assert forall|i: int| 0 <= i < s.played.len() implies #[trigger] s.played[i]
                == self.played_cards@[i]@ by {}
        }
        match &self.trick_format {
            None => num_played == 0 && self.current_winner.is_none(),
            Some(tf) => {
                if num_played == 0 || tf.trump != self.trump || !format_is_valid(tf)
                    || !counts_agree(tf, self.played_cards.as_slice()) {
                    proof {
                        if num_played > 0 && tf.trump == self.trump && format_valid(tf@) {
                            let i = choose|i: int|
                                0 <= i < self.played_cards@.len() && (
                                #[trigger] self.played_cards@[i]).cards@.len() != total_size(
                                    tf@.units,
                                );
                            assert(s.played[i] == self.played_cards@[i]@);
                        }
                    }
                    return false;
                }
                self.current_winner == Trick::winner(
                    &self.trick_format,
                    self.played_cards.as_slice(),
                )
            },
        }
    }
}

} // verus!

//! What the other players are told about a play.

use crate::types::{Card, PlayerID};
use vstd::prelude::*;
use vstd::slice::slice_to_vec;

verus! {

#[derive(Debug, PartialEq, Eq)]
pub enum MessageVariant {
    /// A throw was beaten by a player, and only a part of it stands.
    ThrowFailed { original_cards: Vec<Card>, better_player: PlayerID },
    /// The player put down these cards.
    PlayedCards { cards: Vec<Card> },
}

/// What a `MessageVariant` stands for.
pub enum Message {
    ThrowFailed { original_cards: Seq<Card>, better_player: PlayerID },
    PlayedCards { cards: Seq<Card> },
}

impl View for MessageVariant {
    type V = Message;

    open spec fn view(&self) -> Message {
        match *self {
            MessageVariant::ThrowFailed { original_cards, better_player } => Message::ThrowFailed {
                original_cards: original_cards@,
                better_player,
            },
            MessageVariant::PlayedCards { cards } => Message::PlayedCards { cards: cards@ },
        }
    }
}

impl Clone for MessageVariant {
    fn clone(&self) -> (r: MessageVariant)
        ensures
            r@ == self@,
    {
        match self {
            MessageVariant::ThrowFailed { original_cards, better_player } =>
            MessageVariant::ThrowFailed {
                original_cards: slice_to_vec(original_cards.as_slice()),
                better_player: *better_player,
            },
            MessageVariant::PlayedCards { cards } => MessageVariant::PlayedCards {
                cards: slice_to_vec(cards.as_slice()),
            },
        }
    }
}

} // verus!

# shengji_core

The rules for playing one trick of Shengji (Tractor), proved with Verus.

A trick is led with cards of one suit, which are split into units: repeated cards and tractors
(runs of cards that each occur at least twice). A lead of several units is a throw, which stands
only if nobody can beat one of its units. The others answer with as many cards, follow suit and
match the units as far as their hands allow, and the best play that matches wins.

- `src/types.rs`: cards, suits and the order that a trump puts on them.
- `src/counts.rs`, `src/hands.rs`: tallies of cards, and who holds which.
- `src/small.rs`: short lists on top of `smallvec`, the only part that is trusted.
- `src/unit.rs`, `src/tractor.rs`: units, their shapes, and the tractors among given cards.
- `src/search.rs`, `src/plays.rs`, `src/order.rs`: finding units of given shapes, splitting cards
  into units, and sorting.
- `src/format.rs`, `src/throw.rs`: what a lead asks of the others, and whether a throw stands.
- `src/trick.rs`, `src/message.rs`: a trick from the first play to the last.
- `app/`: the state of a trick in the form in which it is stored and sent.

The public proof functions state what holds of the library as a whole: that plays neither lose nor
gain cards, that taking a play back undoes it, that every way to split cards uses all of them, and
the like.

//! Short lists, kept in place by `smallvec::SmallVec` while they are small.
//!
//! Each list below hides a `SmallVec` from Verus, which takes no declaration of that type, and has
//! a spec function that names its contents. What is known of `SmallVec` is what the methods marked
//! `external_body` state; running out of memory aside, none of them fails. Those that write text
//! state nothing, since Verus sees no text in a `Formatter`.

use crate::types::Card;
use crate::unit::{OrderedCard, TrickUnit, Unit, UnitLike};
use smallvec::SmallVec;
use std::fmt::{Debug, Error, Formatter};
use vstd::prelude::*;

verus! {

/// Where text is written to.
#[verifier::external_type_specification]
#[verifier::external_body]
pub struct ExFormatter<'a>(std::fmt::Formatter<'a>);

/// Why text could not be written.
#[verifier::external_type_specification]
#[verifier::external_body]
pub struct ExError(std::fmt::Error);

/// `write!` with `Debug::fmt` of a card: writes `card` on one line, whatever `f` asks for. Nothing
/// is said of what is written, since a `Formatter` shows none of it.
#[verifier::external_body]
pub(crate) fn write_card(f: &mut Formatter<'_>, card: Card) -> (r: Result<(), Error>) {
    write!(f, "{:?}", card)
}

/// Cards together with their trump, such as the members of a tractor.
#[verifier::external_body]
#[derive(PartialEq, Eq)]
pub struct OrderedCards {
    list: SmallVec<[OrderedCard; 3]>,
}

/// The contents of the list, in order.
pub uninterp spec fn ordered_cards_in(list: OrderedCards) -> Seq<OrderedCard>;

impl View for OrderedCards {
    type V = Seq<OrderedCard>;

    open spec fn view(&self) -> Seq<OrderedCard> {
        ordered_cards_in(*self)
    }
}

impl OrderedCards {
    /// `SmallVec::new`: an empty list.
    #[verifier::external_body]
    pub(crate) fn new() -> (r: OrderedCards)
        ensures
            ordered_cards_in(r) == Seq::<OrderedCard>::empty(),
    {
        OrderedCards { list: SmallVec::new() }
    }

    /// `SmallVec::push`: `item` goes behind what is there.
    #[verifier::external_body]
    pub(crate) fn push(&mut self, item: OrderedCard)
        ensures
            ordered_cards_in(*final(self)) == ordered_cards_in(*old(self)).push(item),
    {
        self.list.push(item)
    }

    /// `SmallVec::as_slice`: the contents as a slice.
    #[verifier::external_body]
    pub(crate) fn as_slice(&self) -> (r: &[OrderedCard])
        ensures
            r@ == ordered_cards_in(*self),
    {
        self.list.as_slice()
    }

    /// `Debug::fmt` of `SmallVec`: writes the items as a list. Nothing is said of what is
    /// written, since a `Formatter` shows none of it.
    #[verifier::external_body]
    fn show(&self, f: &mut Formatter<'_>) -> (r: Result<(), Error>) {
        self.list.fmt(f)
    }
}

/// The units that a play is made of.
#[verifier::external_body]
#[derive(PartialEq, Eq)]
pub struct Units {
    list: SmallVec<[TrickUnit; 4]>,
}

/// The contents of the list, in order.
pub uninterp spec fn units_in(list: Units) -> Seq<TrickUnit>;

impl View for Units {
    type V = Seq<TrickUnit>;

    open spec fn view(&self) -> Seq<TrickUnit> {
        units_in(*self)
    }
}

impl Units {
    /// `SmallVec::new`: an empty list.
    #[verifier::external_body]
    pub(crate) fn new() -> (r: Units)
        ensures
            units_in(r) == Seq::<TrickUnit>::empty(),
    {
        Units { list: SmallVec::new() }
    }

    /// `SmallVec::push`: `item` goes behind what is there.
    #[verifier::external_body]
    pub(crate) fn push(&mut self, item: TrickUnit)
        ensures
            units_in(*final(self)) == units_in(*old(self)).push(item),
    {
        self.list.push(item)
    }

    /// `SmallVec::insert`: `item` takes the place at `index`, and what stood there and behind
    /// moves up by one. It panics on an index beyond the end.
    #[verifier::external_body]
    pub(crate) fn insert(&mut self, index: usize, item: TrickUnit)
        requires
            index <= units_in(*old(self)).len(),
        ensures
            units_in(*final(self)) == units_in(*old(self)).insert(index as int, item),
    {
        self.list.insert(index, item)
    }

    /// `SmallVec::as_slice`: the contents as a slice.
    #[verifier::external_body]
    pub(crate) fn as_slice(&self) -> (r: &[TrickUnit])
        ensures
            r@ == units_in(*self),
    {
        self.list.as_slice()
    }

    /// `Debug::fmt` of `SmallVec`: writes the items as a list. Nothing is said of what is
    /// written, since a `Formatter` shows none of it.
    #[verifier::external_body]
    fn show(&self, f: &mut Formatter<'_>) -> (r: Result<(), Error>) {
        self.list.fmt(f)
    }
}

/// The cards of one unit.
#[verifier::external_body]
#[derive(PartialEq, Eq)]
pub struct Cards {
    list: SmallVec<[Card; 4]>,
}

/// The contents of the list, in order.
pub uninterp spec fn cards_in(list: Cards) -> Seq<Card>;

impl View for Cards {
    type V = Seq<Card>;

    open spec fn view(&self) -> Seq<Card> {
        cards_in(*self)
    }
}

impl Cards {
    /// `SmallVec::new`: an empty list.
    #[verifier::external_body]
    pub(crate) fn new() -> (r: Cards)
        ensures
            cards_in(r) == Seq::<Card>::empty(),
    {
        Cards { list: SmallVec::new() }
    }

    /// `SmallVec::push`: `item` goes behind what is there.
    #[verifier::external_body]
    pub(crate) fn push(&mut self, item: Card)
        ensures
            cards_in(*final(self)) == cards_in(*old(self)).push(item),
    {
        self.list.push(item)
    }

    /// `SmallVec::as_slice`: the contents as a slice.
    #[verifier::external_body]
    pub(crate) fn as_slice(&self) -> (r: &[Card])
        ensures
            r@ == cards_in(*self),
    {
        self.list.as_slice()
    }

    /// `Debug::fmt` of `SmallVec`: writes the items as a list. Nothing is said of what is
    /// written, since a `Formatter` shows none of it.
    #[verifier::external_body]
    fn show(&self, f: &mut Formatter<'_>) -> (r: Result<(), Error>) {
        self.list.fmt(f)
    }

    /// `write!` with `Debug::fmt` of `SmallVec`: writes the cards as a list on one line, whatever
    /// `f` asks for. Nothing is said of what is written, since a `Formatter` shows none of it.
    #[verifier::external_body]
    pub(crate) fn write(&self, f: &mut Formatter<'_>) -> (r: Result<(), Error>) {
        write!(f, "{:?}", self.list)
    }
}

/// The shapes that a play is required to have.
#[verifier::external_body]
#[derive(Debug, PartialEq, Eq)]
pub struct Shapes {
    list: SmallVec<[UnitLike; 4]>,
}

/// The contents of the list, in order.
pub uninterp spec fn shapes_in(list: Shapes) -> Seq<UnitLike>;

impl View for Shapes {
    type V = Seq<UnitLike>;

    open spec fn view(&self) -> Seq<UnitLike> {
        shapes_in(*self)
    }
}

impl Shapes {
    /// `SmallVec::new`: an empty list.
    #[verifier::external_body]
    pub(crate) fn new() -> (r: Shapes)
        ensures
            shapes_in(r) == Seq::<UnitLike>::empty(),
    {
        Shapes { list: SmallVec::new() }
    }

    /// `SmallVec::push`: `item` goes behind what is there.
    #[verifier::external_body]
    pub(crate) fn push(&mut self, item: UnitLike)
        ensures
            shapes_in(*final(self)) == shapes_in(*old(self)).push(item),
    {
        self.list.push(item)
    }

    /// `SmallVec::pop`: takes the last item out, where there is one.
    #[verifier::external_body]
    pub(crate) fn pop(&mut self) -> (r: Option<UnitLike>)
        ensures
            match r {
                Some(item) => shapes_in(*old(self)) == shapes_in(*final(self)).push(item),
                None => shapes_in(*old(self)).len() == 0 && shapes_in(*final(self)).len() == 0,
            },
    {
        self.list.pop()
    }

    /// `SmallVec::as_slice`: the contents as a slice.
    #[verifier::external_body]
    pub(crate) fn as_slice(&self) -> (r: &[UnitLike])
        ensures
            r@ == shapes_in(*self),
    {
        self.list.as_slice()
    }
}

/// Alternative lists of shapes.
#[verifier::external_body]
#[derive(Debug, PartialEq, Eq)]
pub struct ShapeLists {
    list: SmallVec<[Shapes; 3]>,
}

/// The contents of the list, in order.
pub uninterp spec fn shape_lists_in(list: ShapeLists) -> Seq<Shapes>;

impl View for ShapeLists {
    type V = Seq<Shapes>;

    open spec fn view(&self) -> Seq<Shapes> {
        shape_lists_in(*self)
    }
}

impl ShapeLists {
    /// `SmallVec::new`: an empty list.
    #[verifier::external_body]
    pub(crate) fn new() -> (r: ShapeLists)
        ensures
            shape_lists_in(r) == Seq::<Shapes>::empty(),
    {
        ShapeLists { list: SmallVec::new() }
    }

    /// `SmallVec::push`: `item` goes behind what is there.
    #[verifier::external_body]
    pub(crate) fn push(&mut self, item: Shapes)
        ensures
            shape_lists_in(*final(self)) == shape_lists_in(*old(self)).push(item),
    {
        self.list.push(item)
    }

    /// `SmallVec::pop`: takes the last item out, where there is one.
    #[verifier::external_body]
    pub(crate) fn pop(&mut self) -> (r: Option<Shapes>)
        ensures
            match r {
                Some(item) => shape_lists_in(*old(self)) == shape_lists_in(*final(self)).push(item),
                None => shape_lists_in(*old(self)).len() == 0 && shape_lists_in(*final(self)).len() == 0,
            },
    {
        self.list.pop()
    }

    /// `SmallVec::as_slice`: the contents as a slice.
    #[verifier::external_body]
    pub(crate) fn as_slice(&self) -> (r: &[Shapes])
        ensures
            r@ == shape_lists_in(*self),
    {
        self.list.as_slice()
    }
}

/// Alternative ways to split cards into units.
#[verifier::external_body]
#[derive(Debug, PartialEq, Eq)]
pub struct Plays {
    list: SmallVec<[Units; 4]>,
}

/// The contents of the list, in order.
pub uninterp spec fn plays_in(list: Plays) -> Seq<Units>;

impl View for Plays {
    type V = Seq<Units>;

    open spec fn view(&self) -> Seq<Units> {
        plays_in(*self)
    }
}

impl Plays {
    /// `SmallVec::new`: an empty list.
    #[verifier::external_body]
    pub(crate) fn new() -> (r: Plays)
        ensures
            plays_in(r) == Seq::<Units>::empty(),
    {
        Plays { list: SmallVec::new() }
    }

    /// `SmallVec::push`: `item` goes behind what is there.
    #[verifier::external_body]
    pub(crate) fn push(&mut self, item: Units)
        ensures
            plays_in(*final(self)) == plays_in(*old(self)).push(item),
    {
        self.list.push(item)
    }

    /// `SmallVec::as_slice`: the contents as a slice.
    #[verifier::external_body]
    pub(crate) fn as_slice(&self) -> (r: &[Units])
        ensures
            r@ == plays_in(*self),
    {
        self.list.as_slice()
    }
}

/// Cards that may be visited next, each with the run that leads to it.
#[verifier::external_body]
#[derive(Debug, PartialEq, Eq)]
pub struct Fringe {
    list: SmallVec<[(OrderedCard, OrderedCards); 1]>,
}

/// The contents of the list, in order.
pub uninterp spec fn fringe_in(list: Fringe) -> Seq<(OrderedCard, OrderedCards)>;

impl View for Fringe {
    type V = Seq<(OrderedCard, OrderedCards)>;

    open spec fn view(&self) -> Seq<(OrderedCard, OrderedCards)> {
        fringe_in(*self)
    }
}

impl Fringe {
    /// `SmallVec::new`: an empty list.
    #[verifier::external_body]
    pub(crate) fn new() -> (r: Fringe)
        ensures
            fringe_in(r) == Seq::<(OrderedCard, OrderedCards)>::empty(),
    {
        Fringe { list: SmallVec::new() }
    }

    /// `SmallVec::push`: `item` goes behind what is there.
    #[verifier::external_body]
    pub(crate) fn push(&mut self, item: (OrderedCard, OrderedCards))
        ensures
            fringe_in(*final(self)) == fringe_in(*old(self)).push(item),
    {
        self.list.push(item)
    }

    /// `SmallVec::as_slice`: the contents as a slice.
    #[verifier::external_body]
    pub(crate) fn as_slice(&self) -> (r: &[(OrderedCard, OrderedCards)])
        ensures
            r@ == fringe_in(*self),
    {
        self.list.as_slice()
    }
}

impl OrderedCards {
    /// What is in the list, in order.
    pub fn items(&self) -> (r: &[OrderedCard])
        ensures
            r@ == self@,
    {
        self.as_slice()
    }

    /// A list of `cards`, in order.
    pub fn from_cards(cards: &[OrderedCard]) -> (r: OrderedCards)
        ensures
            r@ == cards@,
    {
        let mut list = OrderedCards::new();
        for i in 0..cards.len()
            invariant
                list@ == cards@.take(i as int),
        {
            list.push(cards[i]);
            assert(list@ =~= cards@.take(i + 1));
        }
        assert(cards@.take(cards.len() as int) =~= cards@);
        list
    }
}

impl Clone for OrderedCards {
    fn clone(&self) -> (r: OrderedCards)
        ensures
            r@ == self@,
    {
        OrderedCards::from_cards(self.as_slice())
    }
}

impl Units {
    /// What the units stand for.
    pub open spec fn model(self) -> Seq<Unit> {
        self@.map_values(|u: TrickUnit| u@)
    }

    /// What is in the list, in order.
    pub fn items(&self) -> (r: &[TrickUnit])
        ensures
            r@ == self@,
    {
        self.as_slice()
    }

    /// A list of `units`, in order.
    pub fn from_units(units: &[TrickUnit]) -> (r: Units)
        ensures
            r.model() == units@.map_values(|u: TrickUnit| u@),
    {
        let ghost model = units@.map_values(|u: TrickUnit| u@);
        let mut list = Units::new();
        assert(list.model() =~= model.take(0));
        for i in 0..units.len()
            invariant
                model == units@.map_values(|u: TrickUnit| u@),
                list.model() == model.take(i as int),
        {
            let ghost so_far = list.model();
            let unit = units[i].clone();
            list.push(unit);
            assert(list.model() =~= so_far.push(unit@));
            assert(model.take(i + 1) =~= so_far.push(model[i as int]));
        }
        assert(model.take(units.len() as int) =~= model);
        list
    }
}

impl Clone for Units {
    fn clone(&self) -> (r: Units)
        ensures
            r.model() == self.model(),
    {
        Units::from_units(self.as_slice())
    }
}

impl Cards {
    /// What is in the list, in order.
    pub fn items(&self) -> (r: &[Card])
        ensures
            r@ == self@,
    {
        self.as_slice()
    }
}

impl Shapes {
    /// What is in the list, in order.
    pub fn items(&self) -> (r: &[UnitLike])
        ensures
            r@ == self@,
    {
        self.as_slice()
    }

    /// A list of `shapes`, in order.
    pub fn copy_of(shapes: &[UnitLike]) -> (r: Shapes)
        ensures
            r@ == shapes@,
    {
        let mut list = Shapes::new();
        for i in 0..shapes.len()
            invariant
                list@ == shapes@.take(i as int),
        {
            list.push(shapes[i]);
            assert(list@ =~= shapes@.take(i + 1));
        }
        assert(shapes@.take(shapes.len() as int) =~= shapes@);
        list
    }
}

impl ShapeLists {
    pub open spec fn model(self) -> Seq<Seq<UnitLike>> {
        self@.map_values(|s: Shapes| s@)
    }

    /// What is in the list, in order.
    pub fn items(&self) -> (r: &[Shapes])
        ensures
            r@ == self@,
    {
        self.as_slice()
    }
}

impl Plays {
    /// What the plays stand for.
    pub open spec fn model(self) -> Seq<Seq<Unit>> {
        self@.map_values(|units: Units| units.model())
    }

    /// What is in the list, in order.
    pub fn items(&self) -> (r: &[Units])
        ensures
            r@ == self@,
    {
        self.as_slice()
    }
}

impl Fringe {
    pub open spec fn model(self) -> Seq<(OrderedCard, Seq<OrderedCard>)> {
        self@.map_values(|v: (OrderedCard, OrderedCards)| (v.0, v.1@))
    }
}

impl Debug for OrderedCards {
    /// Writes the items as a list.
    fn fmt(&self, f: &mut Formatter<'_>) -> Result<(), Error> {
        self.show(f)
    }
}

impl Debug for Units {
    /// Writes the items as a list.
    fn fmt(&self, f: &mut Formatter<'_>) -> Result<(), Error> {
        self.show(f)
    }
}

impl Debug for Cards {
    /// Writes the items as a list.
    fn fmt(&self, f: &mut Formatter<'_>) -> Result<(), Error> {
        self.show(f)
    }
}

} // verus!

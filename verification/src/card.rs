//! The cards of the game: a closed set of identity tags.

use vstd::prelude::*;
use vstd::std_specs::convert::FromSpecImpl;

verus! {

/// The number of card kinds that can be held or played, `Card::NoCard` included.
/// It is the index of the sentinel `Card::CardMax`.
pub const CARD_KINDS: usize = 13;

/// A card, known by its kind alone.
///
/// `NoCard` is the placeholder a player picks to decline an extra pick, and
/// `CardMax` is the sentinel that every index outside the table maps to.
#[derive(Clone, Copy, Debug, PartialEq, Eq, Structural, Hash)]
pub enum Card {
    Pudding,
    Dumpling,
    Sashimi,
    Tempura,
    MakiRoll1,
    MakiRoll2,
    MakiRoll3,
    Chopsticks,
    SalmonNigiri,
    EggNigiri,
    SquidNigiri,
    Wasabi,
    NoCard,
    CardMax,
}

/// The card that stands at position `i` of the enumeration; the sentinel for
/// every position outside it.
pub open spec fn card_at(i: int) -> Card {
    if i == 0 {
        Card::Pudding
    } else if i == 1 {
        Card::Dumpling
    } else if i == 2 {
        Card::Sashimi
    } else if i == 3 {
        Card::Tempura
    } else if i == 4 {
        Card::MakiRoll1
    } else if i == 5 {
        Card::MakiRoll2
    } else if i == 6 {
        Card::MakiRoll3
    } else if i == 7 {
        Card::Chopsticks
    } else if i == 8 {
        Card::SalmonNigiri
    } else if i == 9 {
        Card::EggNigiri
    } else if i == 10 {
        Card::SquidNigiri
    } else if i == 11 {
        Card::Wasabi
    } else if i == 12 {
        Card::NoCard
    } else {
        Card::CardMax
    }
}

/// The position of a card in the enumeration.
pub open spec fn card_index(c: Card) -> int {
    match c {
        Card::Pudding => 0,
        Card::Dumpling => 1,
        Card::Sashimi => 2,
        Card::Tempura => 3,
        Card::MakiRoll1 => 4,
        Card::MakiRoll2 => 5,
        Card::MakiRoll3 => 6,
        Card::Chopsticks => 7,
        Card::SalmonNigiri => 8,
        Card::EggNigiri => 9,
        Card::SquidNigiri => 10,
        Card::Wasabi => 11,
        Card::NoCard => 12,
        Card::CardMax => 13,
    }
}

/// The printable name of a card.
pub open spec fn card_name(c: Card) -> Seq<char> {
    match c {
        Card::Pudding => "Pudding"@,
        Card::Dumpling => "Dumpling"@,
        Card::Sashimi => "Sashimi"@,
        Card::Tempura => "Tempura"@,
        Card::MakiRoll1 => "Maki Roll 1"@,
        Card::MakiRoll2 => "Maki Roll 2"@,
        Card::MakiRoll3 => "Maki Roll 3"@,
        Card::Chopsticks => "Chopsticks"@,
        Card::SalmonNigiri => "Salmon Nigri"@,
        Card::EggNigiri => "Egg Nigri"@,
        Card::SquidNigiri => "Squid Nigri"@,
        Card::Wasabi => "Wasabi"@,
        Card::NoCard => "None"@,
        Card::CardMax => "Warning"@,
    }
}

/// The path of the picture of a card; empty for the two cards that have none.
pub open spec fn sprite_path(c: Card) -> Seq<char> {
    match c {
        Card::Pudding => "res/images/Pudding_64x64x1.png"@,
        Card::Dumpling => "res/images/Dumpling_64x64x1.png"@,
        Card::Sashimi => "res/images/Sashimi_64x64x1.png"@,
        Card::Tempura => "res/images/Tempura_64x64x1.png"@,
        Card::MakiRoll1 => "res/images/Maki_64x64x1.png"@,
        Card::MakiRoll2 => "res/images/TwoMaki_64x64x1.png"@,
        Card::MakiRoll3 => "res/images/ThreeMaki_64x64x1.png"@,
        Card::Chopsticks => "res/images/Chopsticks_64x64x1.png"@,
        Card::SalmonNigiri => "res/images/SalmonNigiri_64x64x1.png"@,
        Card::EggNigiri => "res/images/EggNigiri_64x64x1.png"@,
        Card::SquidNigiri => "res/images/SquidNigiri_64x64x1.png"@,
        Card::Wasabi => "res/images/Wasabi_64x64x1.png"@,
        Card::NoCard => ""@,
        Card::CardMax => ""@,
    }
}

impl Card {
    /// The position of the card in the enumeration.
    pub fn index(self) -> (i: usize)
        ensures
            i == card_index(self),
            i <= CARD_KINDS,
    {
        match self {
            Card::Pudding => 0,
            Card::Dumpling => 1,
            Card::Sashimi => 2,
            Card::Tempura => 3,
            Card::MakiRoll1 => 4,
            Card::MakiRoll2 => 5,
            Card::MakiRoll3 => 6,
            Card::Chopsticks => 7,
            Card::SalmonNigiri => 8,
            Card::EggNigiri => 9,
            Card::SquidNigiri => 10,
            Card::Wasabi => 11,
            Card::NoCard => 12,
            Card::CardMax => 13,
        }
    }

    /// The printable name of the card.
    pub fn name(&self) -> (s: &'static str)
        ensures
            s@ == card_name(*self),
    {
        match *self {
            Card::Pudding => "Pudding",
            Card::Dumpling => "Dumpling",
            Card::Sashimi => "Sashimi",
            Card::Tempura => "Tempura",
            Card::MakiRoll1 => "Maki Roll 1",
            Card::MakiRoll2 => "Maki Roll 2",
            Card::MakiRoll3 => "Maki Roll 3",
            Card::Chopsticks => "Chopsticks",
            Card::SalmonNigiri => "Salmon Nigri",
            Card::EggNigiri => "Egg Nigri",
            Card::SquidNigiri => "Squid Nigri",
            Card::Wasabi => "Wasabi",
            Card::NoCard => "None",
            Card::CardMax => "Warning",
        }
    }

    /// Whether the card is one of the three nigiri.
    pub fn is_nigiri(&self) -> (b: bool)
        ensures
            b == is_nigiri(*self),
    {
        match *self {
            Card::SalmonNigiri => true,
            Card::EggNigiri => true,
            Card::SquidNigiri => true,
            _ => false,
        }
    }
}

/// The three cards that a wasabi can lift.
pub open spec fn is_nigiri(c: Card) -> bool {
    c == Card::SalmonNigiri || c == Card::EggNigiri || c == Card::SquidNigiri
}

impl From<usize> for Card {
    /// The card at position `item` of the enumeration, the sentinel for a
    /// position outside it.
    fn from(item: usize) -> (c: Card) {
        match item {
            0 => Card::Pudding,
            1 => Card::Dumpling,
            2 => Card::Sashimi,
            3 => Card::Tempura,
            4 => Card::MakiRoll1,
            5 => Card::MakiRoll2,
            6 => Card::MakiRoll3,
            7 => Card::Chopsticks,
            8 => Card::SalmonNigiri,
            9 => Card::EggNigiri,
            10 => Card::SquidNigiri,
            11 => Card::Wasabi,
            12 => Card::NoCard,
            _ => Card::CardMax,
        }
    }
}

impl FromSpecImpl<usize> for Card {
    open spec fn obeys_from_spec() -> bool {
        true
    }

    open spec fn from_spec(item: usize) -> Card {
        card_at(item as int)
    }
}

/// The path of the picture that shows a card.
pub fn get_sprite_filename(card: &Card) -> (path: &'static str)
    ensures
        path@ == sprite_path(*card),
{
    match card {
        Card::Pudding => "res/images/Pudding_64x64x1.png",
        Card::Dumpling => "res/images/Dumpling_64x64x1.png",
        Card::Sashimi => "res/images/Sashimi_64x64x1.png",
        Card::Tempura => "res/images/Tempura_64x64x1.png",
        Card::MakiRoll1 => "res/images/Maki_64x64x1.png",
        Card::MakiRoll2 => "res/images/TwoMaki_64x64x1.png",
        Card::MakiRoll3 => "res/images/ThreeMaki_64x64x1.png",
        Card::Chopsticks => "res/images/Chopsticks_64x64x1.png",
        Card::SalmonNigiri => "res/images/SalmonNigiri_64x64x1.png",
        Card::EggNigiri => "res/images/EggNigiri_64x64x1.png",
        Card::SquidNigiri => "res/images/SquidNigiri_64x64x1.png",
        Card::Wasabi => "res/images/Wasabi_64x64x1.png",
        _ => "",
    }
}

/// Turning a card into its position and back gives the card again, and every
/// position inside the enumeration comes back from its card.
pub proof fn lemma_card_index_round_trip(c: Card, i: int)
    ensures
        card_at(card_index(c)) == c,
        0 <= card_index(c) <= CARD_KINDS,
        0 <= i <= CARD_KINDS ==> card_index(card_at(i)) == i,
        !(0 <= i < CARD_KINDS) ==> card_at(i) == Card::CardMax,
{
}

} // verus!

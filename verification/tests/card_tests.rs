use sushi_go::card::{get_sprite_filename, Card, CARD_KINDS};

#[test]
fn card_from_index_follows_the_enumeration() {
    assert_eq!(Card::from(0), Card::Pudding);
    assert_eq!(Card::from(1), Card::Dumpling);
    assert_eq!(Card::from(2), Card::Sashimi);
    assert_eq!(Card::from(3), Card::Tempura);
    assert_eq!(Card::from(4), Card::MakiRoll1);
    assert_eq!(Card::from(5), Card::MakiRoll2);
    assert_eq!(Card::from(6), Card::MakiRoll3);
    assert_eq!(Card::from(7), Card::Chopsticks);
    assert_eq!(Card::from(8), Card::SalmonNigiri);
    assert_eq!(Card::from(9), Card::EggNigiri);
    assert_eq!(Card::from(10), Card::SquidNigiri);
    assert_eq!(Card::from(11), Card::Wasabi);
    assert_eq!(Card::from(12), Card::NoCard);
}

#[test]
fn card_from_index_out_of_range_is_the_sentinel() {
    assert_eq!(Card::from(13), Card::CardMax);
    assert_eq!(Card::from(14), Card::CardMax);
    assert_eq!(Card::from(usize::MAX), Card::CardMax);
}

#[test]
fn card_index_round_trips() {
    for i in 0..=CARD_KINDS {
        assert_eq!(Card::from(i).index(), i);
    }
    assert_eq!(Card::CardMax.index(), 13);
    assert_eq!(CARD_KINDS, 13);
}

#[test]
fn card_equality_is_by_kind() {
    assert_eq!(Card::Wasabi, Card::Wasabi);
    assert_ne!(Card::Wasabi, Card::Chopsticks);
    let copy = Card::Tempura;
    let other = copy;
    assert_eq!(copy, other);
}

#[test]
fn card_names() {
    assert_eq!(Card::Pudding.name(), "Pudding");
    assert_eq!(Card::MakiRoll1.name(), "Maki Roll 1");
    assert_eq!(Card::MakiRoll3.name(), "Maki Roll 3");
    assert_eq!(Card::SalmonNigiri.name(), "Salmon Nigri");
    assert_eq!(Card::EggNigiri.name(), "Egg Nigri");
    assert_eq!(Card::SquidNigiri.name(), "Squid Nigri");
    assert_eq!(Card::NoCard.name(), "None");
    assert_eq!(Card::CardMax.name(), "Warning");
}

#[test]
fn nigiri_are_three_kinds() {
    let nigiri: Vec<Card> = (0..=CARD_KINDS).map(Card::from).filter(|c| c.is_nigiri()).collect();
    assert_eq!(nigiri, vec![Card::SalmonNigiri, Card::EggNigiri, Card::SquidNigiri]);
}

#[test]
fn sprite_filename_of_each_kind() {
    assert_eq!(get_sprite_filename(&Card::Pudding), "res/images/Pudding_64x64x1.png");
    assert_eq!(get_sprite_filename(&Card::Dumpling), "res/images/Dumpling_64x64x1.png");
    assert_eq!(get_sprite_filename(&Card::Sashimi), "res/images/Sashimi_64x64x1.png");
    assert_eq!(get_sprite_filename(&Card::Tempura), "res/images/Tempura_64x64x1.png");
    assert_eq!(get_sprite_filename(&Card::MakiRoll1), "res/images/Maki_64x64x1.png");
    assert_eq!(get_sprite_filename(&Card::MakiRoll2), "res/images/TwoMaki_64x64x1.png");
    assert_eq!(get_sprite_filename(&Card::MakiRoll3), "res/images/ThreeMaki_64x64x1.png");
    assert_eq!(get_sprite_filename(&Card::Chopsticks), "res/images/Chopsticks_64x64x1.png");
    assert_eq!(get_sprite_filename(&Card::SalmonNigiri), "res/images/SalmonNigiri_64x64x1.png");
    assert_eq!(get_sprite_filename(&Card::EggNigiri), "res/images/EggNigiri_64x64x1.png");
    assert_eq!(get_sprite_filename(&Card::SquidNigiri), "res/images/SquidNigiri_64x64x1.png");
    assert_eq!(get_sprite_filename(&Card::Wasabi), "res/images/Wasabi_64x64x1.png");
    assert_eq!(get_sprite_filename(&Card::NoCard), "");
    assert_eq!(get_sprite_filename(&Card::CardMax), "");
}

use sushi_go::card::Card;
use sushi_go::pile::{copy_cards, count_cards, position_of};
use sushi_go::player::{new_player, Player};
use sushi_go::tally::SushiResult;

fn player_with_hand(id: usize, hand: &[Card]) -> Player {
    let mut player = new_player(id);
    for card in hand {
        player.add_card_to_hand(*card);
    }
    player
}

fn player_who_played(cards: &[Card]) -> Player {
    let mut player = player_with_hand(0, cards);
    for card in cards {
        assert!(player.choose_card(*card));
    }
    player
}

#[test]
fn new_player_holds_nothing() {
    let player = new_player(3);
    assert_eq!(player.get_id(), 3);
    assert_eq!(player.get_hand(), Vec::<Card>::new());
    assert_eq!(player.get_chosen_cards(), Vec::<Card>::new());
    assert_eq!(player.get_hand_size(), 0);
    assert_eq!(player.get_chosen_cards_size(), 0);
    assert_eq!(player.get_final_score(), 0);
    assert!(!player.has_chopsticks());
}

#[test]
fn add_card_to_hand_appends() {
    let player = player_with_hand(0, &[Card::Tempura, Card::Wasabi, Card::Tempura]);
    assert_eq!(player.get_hand(), vec![Card::Tempura, Card::Wasabi, Card::Tempura]);
    assert_eq!(player.get_hand_size(), 3);
    assert!(player.has_card_in_hand(Card::Wasabi));
    assert!(!player.has_card_in_hand(Card::Pudding));
}

#[test]
fn remove_card_from_hand_takes_the_first() {
    let mut player =
        player_with_hand(0, &[Card::Tempura, Card::Wasabi, Card::Tempura, Card::Pudding]);
    assert!(player.remove_card_from_hand(Card::Tempura));
    assert_eq!(player.get_hand(), vec![Card::Wasabi, Card::Tempura, Card::Pudding]);
    assert!(player.remove_card_from_hand(Card::Pudding));
    assert_eq!(player.get_hand(), vec![Card::Wasabi, Card::Tempura]);
}

#[test]
fn choose_card_moves_the_card_to_the_played_pile() {
    let mut player = player_with_hand(0, &[Card::Sashimi, Card::Dumpling, Card::Sashimi]);
    assert!(player.choose_card(Card::Dumpling));
    assert_eq!(player.get_hand(), vec![Card::Sashimi, Card::Sashimi]);
    assert_eq!(player.get_chosen_cards(), vec![Card::Dumpling]);
    assert!(player.choose_card(Card::Sashimi));
    assert_eq!(player.get_hand(), vec![Card::Sashimi]);
    assert_eq!(player.get_chosen_cards(), vec![Card::Dumpling, Card::Sashimi]);
    assert!(player.has_chosen_card(Card::Sashimi));
    assert!(!player.has_chosen_card(Card::Wasabi));
}

#[test]
fn choose_card_refuses_a_card_that_is_not_held() {
    let mut player = player_with_hand(0, &[Card::Sashimi]);
    assert!(!player.choose_card(Card::Wasabi));
    assert_eq!(player.get_hand(), vec![Card::Sashimi]);
    assert_eq!(player.get_chosen_cards(), Vec::<Card>::new());
}

#[test]
fn replace_hand_gives_another_hand() {
    let mut player = player_with_hand(0, &[Card::Sashimi]);
    player.replace_hand(vec![Card::Pudding, Card::Wasabi]);
    assert_eq!(player.get_hand(), vec![Card::Pudding, Card::Wasabi]);
}

#[test]
fn sanitize_cards_strips_every_placeholder() {
    let mut player = player_with_hand(
        0,
        &[Card::NoCard, Card::Sashimi, Card::NoCard, Card::Wasabi, Card::NoCard],
    );
    player.sanitize_cards();
    assert_eq!(player.get_hand(), vec![Card::Sashimi, Card::Wasabi]);
    player.sanitize_cards();
    assert_eq!(player.get_hand(), vec![Card::Sashimi, Card::Wasabi]);
}

#[test]
fn has_chopsticks_looks_before_the_last_card() {
    let mut player = player_with_hand(
        0,
        &[Card::Chopsticks, Card::Tempura, Card::Pudding, Card::Chopsticks],
    );
    // the empty pile holds none
    assert!(!player.has_chopsticks());
    assert!(player.choose_card(Card::Chopsticks));
    // the only chopsticks are the last card
    assert!(!player.has_chopsticks());
    player.sanitize_cards();
    assert!(!player.has_chopsticks());
    assert!(player.choose_card(Card::Tempura));
    assert!(player.has_chopsticks());
    assert!(player.choose_card(Card::Pudding));
    assert!(player.has_chopsticks());
    assert!(player.remove_chosen_card(Card::Chopsticks));
    assert!(!player.has_chopsticks());
    assert!(player.choose_card(Card::Chopsticks));
    assert!(!player.has_chopsticks());
}

#[test]
fn chopsticks_played_this_turn_are_not_fresh() {
    let mut player = player_with_hand(0, &[Card::Chopsticks, Card::Tempura, Card::Pudding]);
    assert!(player.choose_card(Card::Chopsticks));
    assert!(!player.remove_fresh_chopsticks());
    // the clean-up at the end of the turn makes them fresh
    player.sanitize_cards();
    assert!(player.remove_fresh_chopsticks());
    // and the same chopsticks are not offered twice in a turn
    assert!(!player.remove_fresh_chopsticks());
}

#[test]
fn chopsticks_fund_one_extra_pick_and_come_back() {
    let mut player = player_with_hand(0, &[Card::Chopsticks, Card::Tempura, Card::Pudding]);
    assert!(player.choose_card(Card::Chopsticks));
    player.sanitize_cards();
    // next turn: first pick
    assert!(player.choose_card(Card::Tempura));
    assert!(player.has_chopsticks());
    assert!(player.remove_fresh_chopsticks());
    assert!(!player.remove_fresh_chopsticks());
    let cards_before = player.get_hand_size() + player.get_chosen_cards_size();
    // extra pick: the chopsticks come back to the hand
    player.return_chopsticks();
    assert_eq!(player.get_hand(), vec![Card::Pudding, Card::Chopsticks]);
    assert_eq!(player.get_chosen_cards(), vec![Card::Tempura]);
    assert_eq!(player.get_hand_size() + player.get_chosen_cards_size(), cards_before);
    assert!(player.choose_card(Card::Pudding));
    assert_eq!(player.get_hand(), vec![Card::Chopsticks]);
    assert_eq!(player.get_chosen_cards(), vec![Card::Tempura, Card::Pudding]);
}

#[test]
fn return_chopsticks_takes_the_first_chopsticks_of_the_pile() {
    let mut player = player_with_hand(
        0,
        &[Card::Tempura, Card::Chopsticks, Card::Wasabi, Card::Chopsticks, Card::Pudding],
    );
    for card in [Card::Tempura, Card::Chopsticks, Card::Wasabi, Card::Chopsticks] {
        assert!(player.choose_card(card));
    }
    player.sanitize_cards();
    // no extra pick is offered, and still the chopsticks go back
    player.return_chopsticks();
    assert_eq!(player.get_hand(), vec![Card::Pudding, Card::Chopsticks]);
    assert_eq!(player.get_chosen_cards(), vec![Card::Tempura, Card::Wasabi, Card::Chopsticks]);
    player.return_chopsticks();
    assert_eq!(player.get_hand(), vec![Card::Pudding, Card::Chopsticks, Card::Chopsticks]);
    assert_eq!(player.get_chosen_cards(), vec![Card::Tempura, Card::Wasabi]);
    assert_eq!(player.get_hand_size() + player.get_chosen_cards_size(), 5);
}

#[test]
fn return_chopsticks_does_nothing_without_chopsticks_in_the_pile() {
    let mut player = player_with_hand(0, &[Card::Chopsticks, Card::Tempura]);
    assert!(player.choose_card(Card::Tempura));
    player.return_chopsticks();
    assert_eq!(player.get_hand(), vec![Card::Chopsticks]);
    assert_eq!(player.get_chosen_cards(), vec![Card::Tempura]);
}

#[test]
fn returned_chopsticks_are_the_spent_ones() {
    let mut player =
        player_with_hand(0, &[Card::Chopsticks, Card::Chopsticks, Card::Tempura, Card::Pudding]);
    assert!(player.choose_card(Card::Chopsticks));
    assert!(player.choose_card(Card::Chopsticks));
    player.sanitize_cards();
    // one of two fresh chopsticks is offered and comes back: the other is still fresh
    assert!(player.choose_card(Card::Tempura));
    assert!(player.remove_fresh_chopsticks());
    player.return_chopsticks();
    assert_eq!(player.get_chosen_cards(), vec![Card::Chopsticks, Card::Tempura]);
    assert!(player.remove_fresh_chopsticks());
    assert!(!player.remove_fresh_chopsticks());
}

#[test]
fn remove_chosen_card_takes_the_first() {
    let mut player = player_who_played(&[Card::Tempura, Card::Wasabi, Card::Tempura]);
    assert!(player.remove_chosen_card(Card::Tempura));
    assert_eq!(player.get_chosen_cards(), vec![Card::Wasabi, Card::Tempura]);
    assert!(!player.remove_chosen_card(Card::Pudding));
    assert_eq!(player.get_chosen_cards(), vec![Card::Wasabi, Card::Tempura]);
}

#[test]
fn clear_chosen_cards_empties_the_pile() {
    let mut player = player_who_played(&[Card::Tempura, Card::Chopsticks]);
    player.clear_chosen_cards();
    assert_eq!(player.get_chosen_cards_size(), 0);
    assert!(!player.has_chopsticks());
}

#[test]
fn card_is_at_position_reads_the_index() {
    let mut player = player_with_hand(0, &[Card::Chopsticks, Card::Wasabi, Card::Pudding]);
    assert!(player.choose_card(Card::Pudding));
    assert!(player.card_is_at_position_hand(0, &7));
    assert!(player.card_is_at_position_hand(1, &11));
    assert!(!player.card_is_at_position_hand(1, &7));
    assert!(!player.card_is_at_position_hand(2, &0));
    assert!(player.card_is_at_position_chosen_cards(0, &0));
    assert!(!player.card_is_at_position_chosen_cards(1, &0));
}

#[test]
fn final_score_is_kept() {
    let mut player = new_player(1);
    player.set_final_score(-4);
    assert_eq!(player.get_final_score(), -4);
    player.set_final_score(27);
    assert_eq!(player.get_final_score(), 27);
}

#[test]
fn tally_counts_each_kind() {
    let player = player_who_played(&[
        Card::Pudding,
        Card::Dumpling,
        Card::Dumpling,
        Card::Sashimi,
        Card::Tempura,
        Card::MakiRoll1,
        Card::MakiRoll2,
        Card::MakiRoll3,
        Card::Chopsticks,
        Card::SalmonNigiri,
        Card::EggNigiri,
        Card::SquidNigiri,
    ]);
    let tally = player.get_round_results();
    assert_eq!(
        tally,
        SushiResult {
            pudding_count: 1,
            dumpling_count: 2,
            sashimi_count: 1,
            tempura_count: 1,
            maki_roll_count: 6,
            salmon_nigri_count: 1,
            egg_nigri_count: 1,
            squid_nigri_count: 1,
            wasabi_salmon_nigri_count: 0,
            wasabi_egg_nigri_count: 0,
            wasabi_squid_nigri_count: 0,
        }
    );
    assert_eq!(tally.get_maki_roll_count(), 6);
}

#[test]
fn wasabi_lifts_only_the_next_nigiri() {
    let player = player_who_played(&[Card::Wasabi, Card::SquidNigiri, Card::SquidNigiri]);
    let tally = player.get_round_results();
    assert_eq!(tally.wasabi_squid_nigri_count, 1);
    assert_eq!(tally.squid_nigri_count, 1);
}

#[test]
fn wasabi_waits_for_a_nigiri_across_other_cards() {
    let player = player_who_played(&[
        Card::EggNigiri,
        Card::Wasabi,
        Card::Tempura,
        Card::Chopsticks,
        Card::SalmonNigiri,
        Card::EggNigiri,
    ]);
    let tally = player.get_round_results();
    assert_eq!(tally.egg_nigri_count, 2);
    assert_eq!(tally.wasabi_salmon_nigri_count, 1);
    assert_eq!(tally.salmon_nigri_count, 0);
    assert_eq!(tally.wasabi_egg_nigri_count, 0);
}

#[test]
fn two_wasabi_before_one_nigiri_lift_one() {
    let player =
        player_who_played(&[Card::Wasabi, Card::Wasabi, Card::EggNigiri, Card::EggNigiri]);
    let tally = player.get_round_results();
    assert_eq!(tally.wasabi_egg_nigri_count, 1);
    assert_eq!(tally.egg_nigri_count, 1);
}

#[test]
fn add_nigiri_uses_up_the_wasabi() {
    let mut tally = SushiResult::new();
    let mut has_wasabi = true;
    tally.add_nigiri(&Card::SalmonNigiri, &mut has_wasabi);
    assert!(!has_wasabi);
    assert_eq!(tally.wasabi_salmon_nigri_count, 1);
    assert_eq!(tally.salmon_nigri_count, 0);
    tally.add_nigiri(&Card::SalmonNigiri, &mut has_wasabi);
    assert!(!has_wasabi);
    assert_eq!(tally.wasabi_salmon_nigri_count, 1);
    assert_eq!(tally.salmon_nigri_count, 1);
    tally.add_nigiri(&Card::EggNigiri, &mut has_wasabi);
    tally.add_nigiri(&Card::SquidNigiri, &mut has_wasabi);
    assert_eq!(tally.egg_nigri_count, 1);
    assert_eq!(tally.squid_nigri_count, 1);
}

#[test]
fn add_nigiri_ignores_other_cards() {
    let mut tally = SushiResult::new();
    let mut has_wasabi = true;
    tally.add_nigiri(&Card::Tempura, &mut has_wasabi);
    assert_eq!(tally, SushiResult::new());
    assert!(!has_wasabi);
}

#[test]
fn add_round_result_records_one_tally_a_round() {
    let mut player = player_who_played(&[Card::Pudding, Card::Pudding, Card::MakiRoll3]);
    player.add_round_result();
    player.clear_chosen_cards();
    player.add_card_to_hand(Card::Tempura);
    assert!(player.choose_card(Card::Tempura));
    player.add_round_result();
    assert_eq!(player.get_round_result(0).pudding_count, 2);
    assert_eq!(player.get_round_result(0).maki_roll_count, 3);
    assert_eq!(player.get_round_result(0).tempura_count, 0);
    assert_eq!(player.get_round_result(1).pudding_count, 0);
    assert_eq!(player.get_round_result(1).tempura_count, 1);
}

#[test]
fn pile_helpers_find_and_count() {
    let pile = vec![Card::Tempura, Card::Wasabi, Card::Tempura];
    assert_eq!(position_of(&pile, Card::Tempura), 0);
    assert_eq!(position_of(&pile, Card::Wasabi), 1);
    assert_eq!(position_of(&pile, Card::Pudding), 3);
    assert_eq!(count_cards(&pile, Card::Tempura), 2);
    assert_eq!(count_cards(&pile, Card::Pudding), 0);
    assert_eq!(copy_cards(&pile), pile);
}

#[test]
fn tally_lifts_no_more_nigiri_than_wasabi_were_played() {
    let pile = [
        Card::SquidNigiri,
        Card::Wasabi,
        Card::Wasabi,
        Card::Tempura,
        Card::EggNigiri,
        Card::SalmonNigiri,
        Card::Wasabi,
        Card::Chopsticks,
        Card::SalmonNigiri,
        Card::Wasabi,
    ];
    let tally = player_who_played(&pile).get_round_results();
    let lifted = tally.wasabi_salmon_nigri_count
        + tally.wasabi_egg_nigri_count
        + tally.wasabi_squid_nigri_count;
    assert_eq!(lifted, 2);
    assert!(lifted <= 4);
    assert_eq!(tally.squid_nigri_count + tally.wasabi_squid_nigri_count, 1);
    assert_eq!(tally.egg_nigri_count + tally.wasabi_egg_nigri_count, 1);
    assert_eq!(tally.salmon_nigri_count + tally.wasabi_salmon_nigri_count, 2);
    assert_eq!(tally.wasabi_egg_nigri_count, 1);
    assert_eq!(tally.wasabi_salmon_nigri_count, 1);
    assert_eq!(tally.salmon_nigri_count, 1);
}

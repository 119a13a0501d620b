use sushi_go::card::Card;
use sushi_go::game::{
    check_round_ended, deal_cards, return_chopsticks, sanitize_hands, setup_deck, setup_players,
    swap_hands, StepResult, SushiGoGame, DECK_SIZE, MAX_HAND_SIZE, MAX_PLAYERS, NUMBER_OF_ROUNDS,
};
use sushi_go::pile::count_cards;
use sushi_go::player::new_player;
use sushi_go::runner::do_random_turn;
use sushi_go::score::calc_scores_for_round;

fn new_game(players: usize) -> SushiGoGame {
    let mut game = SushiGoGame::new(players);
    game.setup();
    game
}

fn all_cards_of(game: &SushiGoGame) -> Vec<Card> {
    let mut cards = Vec::new();
    for seat in 0..game.get_num_players() {
        cards.extend(game.get_player_hand(seat));
        cards.extend(game.get_player_chosen(seat));
    }
    cards
}

fn first_real_card(game: &SushiGoGame) -> Card {
    *game.get_current_player_hand().iter().find(|card| **card != Card::NoCard).unwrap()
}

/// Plays the first card of every hand until `turns` turns are over.
fn play_turns(game: &mut SushiGoGame, turns: usize) {
    for _ in 0..turns {
        let card = first_real_card(game);
        let mut result = game.step(card);
        while result.is_chopsticks_available() {
            result = game.step(Card::NoCard);
        }
    }
}

/// A game in which the first player holds chopsticks and another card that
/// is no chopsticks.
fn game_with_chopsticks_in_first_hand() -> SushiGoGame {
    loop {
        let game = new_game(4);
        let hand = game.get_player_hand(0);
        if count_cards(&hand, Card::Chopsticks) == 1 {
            return game;
        }
    }
}

#[test]
fn step_result_tests_and_messages() {
    assert!(StepResult::GameOver.is_game_over());
    assert!(!StepResult::RoundOver.is_game_over());
    assert!(StepResult::ChopsticksAvailable.is_chopsticks_available());
    assert!(!StepResult::Success.is_chopsticks_available());
    assert!(StepResult::RoundOver.is_round_over());
    assert!(!StepResult::NoResult.is_round_over());
    assert_eq!(StepResult::Success.message(), "Success!");
    assert_eq!(StepResult::Error.message(), "Error!");
    assert_eq!(StepResult::GameOver.message(), "Game has been completed!");
    assert_eq!(StepResult::NoResult.message(), "Error! No Result!");
    assert_eq!(StepResult::ChopsticksAvailable.message(), "Chopsticks are available to use!");
    assert_eq!(StepResult::RoundOver.message(), "Round has been completed!");
}

#[test]
fn deck_has_the_cards_of_the_box() {
    let deck = setup_deck();
    assert_eq!(deck.len(), DECK_SIZE);
    assert_eq!(deck.len(), 114);
    assert_eq!(count_cards(&deck, Card::Pudding), 10);
    assert_eq!(count_cards(&deck, Card::Dumpling), 14);
    assert_eq!(count_cards(&deck, Card::Sashimi), 14);
    assert_eq!(count_cards(&deck, Card::Tempura), 14);
    assert_eq!(count_cards(&deck, Card::MakiRoll1), 6);
    assert_eq!(count_cards(&deck, Card::MakiRoll2), 12);
    assert_eq!(count_cards(&deck, Card::MakiRoll3), 8);
    assert_eq!(count_cards(&deck, Card::Chopsticks), 10);
    assert_eq!(count_cards(&deck, Card::SalmonNigiri), 10);
    assert_eq!(count_cards(&deck, Card::EggNigiri), 5);
    assert_eq!(count_cards(&deck, Card::SquidNigiri), 5);
    assert_eq!(count_cards(&deck, Card::Wasabi), 6);
    assert_eq!(count_cards(&deck, Card::NoCard), 0);
    assert_eq!(count_cards(&deck, Card::CardMax), 0);
    assert_eq!(deck[0], Card::Pudding);
    assert_eq!(deck[10], Card::Dumpling);
    assert_eq!(deck[24], Card::Tempura);
    assert_eq!(deck[38], Card::Sashimi);
    assert_eq!(deck[113], Card::Wasabi);
}

#[test]
fn deck_deals_every_round_to_the_most_players() {
    assert!(DECK_SIZE >= MAX_PLAYERS * MAX_HAND_SIZE * NUMBER_OF_ROUNDS as usize);
    assert!(DECK_SIZE < (MAX_PLAYERS + 1) * MAX_HAND_SIZE * NUMBER_OF_ROUNDS as usize);
}

#[test]
fn setup_players_sit_in_order() {
    let players = setup_players(3);
    assert_eq!(players.len(), 3);
    for (seat, player) in players.iter().enumerate() {
        assert_eq!(player.get_id(), seat);
        assert_eq!(player.get_hand_size(), 0);
    }
    assert!(setup_players(0).is_empty());
}

#[test]
fn deal_cards_draws_hands_from_the_end_of_the_deck() {
    let mut deck: Vec<Card> = (0..20).map(|i| Card::from(i % 12)).collect();
    let whole = deck.clone();
    let mut players = setup_players(2);
    deal_cards(&mut players, &mut deck);
    assert_eq!(deck, whole[..4].to_vec());
    let first: Vec<Card> = (0..8).map(|k| whole[19 - k]).collect();
    let second: Vec<Card> = (0..8).map(|k| whole[11 - k]).collect();
    assert_eq!(players[0].get_hand(), first);
    assert_eq!(players[1].get_hand(), second);
}

#[test]
fn deal_cards_adds_to_the_cards_held() {
    let mut deck = setup_deck();
    let mut players = vec![new_player(0)];
    players[0].add_card_to_hand(Card::Wasabi);
    deal_cards(&mut players, &mut deck);
    assert_eq!(players[0].get_hand_size(), 9);
    assert_eq!(players[0].get_hand()[0], Card::Wasabi);
    assert_eq!(deck.len(), 106);
}

#[test]
fn deal_cards_to_nobody_leaves_the_deck() {
    let mut deck = setup_deck();
    let mut players = setup_players(0);
    deal_cards(&mut players, &mut deck);
    assert_eq!(deck, setup_deck());
}

#[test]
fn swap_hands_passes_each_hand_to_the_next_seat() {
    let mut players = setup_players(3);
    players[0].replace_hand(vec![Card::Pudding]);
    players[1].replace_hand(vec![Card::Wasabi, Card::Tempura]);
    players[2].replace_hand(vec![]);
    swap_hands(&mut players);
    assert_eq!(players[0].get_hand(), Vec::<Card>::new());
    assert_eq!(players[1].get_hand(), vec![Card::Pudding]);
    assert_eq!(players[2].get_hand(), vec![Card::Wasabi, Card::Tempura]);
    swap_hands(&mut players);
    swap_hands(&mut players);
    assert_eq!(players[0].get_hand(), vec![Card::Pudding]);
    assert_eq!(players[1].get_hand(), vec![Card::Wasabi, Card::Tempura]);
    assert_eq!(players[2].get_hand(), Vec::<Card>::new());
}

#[test]
fn swap_hands_of_one_player_changes_nothing() {
    let mut players = setup_players(1);
    players[0].replace_hand(vec![Card::Pudding, Card::Wasabi]);
    swap_hands(&mut players);
    assert_eq!(players[0].get_hand(), vec![Card::Pudding, Card::Wasabi]);
}

#[test]
fn sanitize_hands_cleans_every_player() {
    let mut players = setup_players(2);
    players[0].replace_hand(vec![Card::NoCard, Card::Pudding]);
    players[1].replace_hand(vec![Card::Wasabi, Card::NoCard, Card::NoCard]);
    sanitize_hands(&mut players);
    assert_eq!(players[0].get_hand(), vec![Card::Pudding]);
    assert_eq!(players[1].get_hand(), vec![Card::Wasabi]);
}

#[test]
fn check_round_ended_when_no_hand_holds_a_card() {
    let mut players = setup_players(3);
    assert!(check_round_ended(&players));
    players[2].add_card_to_hand(Card::Pudding);
    assert!(!check_round_ended(&players));
    assert!(check_round_ended(&setup_players(0)));
}

#[test]
fn return_chopsticks_takes_them_back_to_the_hand() {
    let mut player = new_player(0);
    for card in [Card::Tempura, Card::Chopsticks, Card::Wasabi, Card::Chopsticks] {
        player.add_card_to_hand(card);
    }
    for card in [Card::Tempura, Card::Chopsticks, Card::Chopsticks] {
        assert!(player.choose_card(card));
    }
    return_chopsticks(&mut player);
    assert_eq!(player.get_hand(), vec![Card::Wasabi, Card::Chopsticks]);
    assert_eq!(player.get_chosen_cards(), vec![Card::Tempura, Card::Chopsticks]);
}

#[test]
fn new_game_is_empty_until_set_up() {
    let game = SushiGoGame::new(4);
    assert_eq!(game.get_num_players(), 0);
    assert_eq!(game.get_current_player_id(), 0);
    assert_eq!(game.get_current_round(), 0);
    assert_eq!(game.get_winner(), 0);
    assert!(!game.is_over());
}

#[test]
fn setup_deals_a_hand_to_each_player() {
    for players in 1..=MAX_PLAYERS {
        let game = new_game(players);
        assert_eq!(game.get_num_players(), players);
        assert_eq!(game.get_current_player_id(), 0);
        assert_eq!(game.get_current_round(), 0);
        assert!(!game.is_over());
        for seat in 0..players {
            assert_eq!(game.get_player_hand(seat).len(), MAX_HAND_SIZE);
            assert!(game.get_player_chosen(seat).is_empty());
            assert_eq!(game.get_players()[seat].get_id(), seat);
        }
        assert_eq!(game.get_current_player().get_id(), 0);
        assert_eq!(game.get_current_player_hand(), game.get_player_hand(0));
    }
}

#[test]
fn setup_shuffles_the_deck() {
    // dealt from the deck as it comes out of the box, the first hand would be
    // six wasabi and two squid nigiri
    let unshuffled: Vec<Card> = {
        let deck = setup_deck();
        (0..8).map(|k| deck[113 - k]).collect()
    };
    let mut shuffled_hands = 0;
    for _ in 0..20 {
        let game = new_game(4);
        if game.get_player_hand(0) != unshuffled {
            shuffled_hands += 1;
        }
        let hands = all_cards_of(&game);
        assert_eq!(hands.len(), 32);
        assert_eq!(count_cards(&hands, Card::NoCard), 0);
        assert!(count_cards(&hands, Card::Wasabi) <= 6);
        assert!(count_cards(&hands, Card::EggNigiri) <= 5);
        assert!(count_cards(&hands, Card::Pudding) <= 10);
    }
    assert!(shuffled_hands >= 19);
}

#[test]
fn setup_twice_starts_afresh() {
    let mut game = new_game(3);
    play_turns(&mut game, 5);
    game.setup();
    assert_eq!(game.get_num_players(), 3);
    assert_eq!(game.get_current_player_id(), 0);
    assert_eq!(all_cards_of(&game).len(), 3 * MAX_HAND_SIZE);
}

#[test]
fn step_moves_the_card_and_passes_the_turn() {
    let mut game = new_game(4);
    let hand = game.get_player_hand(0);
    let card = hand[3];
    assert!(game.can_play(card));
    let result = game.step(card);
    assert!(matches!(result, StepResult::Success));
    assert_eq!(game.get_current_player_id(), 1);
    assert_eq!(game.get_player_chosen(0), vec![card]);
    let mut left = hand.clone();
    let at = left.iter().position(|held| *held == card).unwrap();
    left.remove(at);
    assert_eq!(game.get_player_hand(0), left);
}

#[test]
fn can_play_only_cards_of_the_hand() {
    let game = new_game(2);
    let hand = game.get_current_player_hand();
    for index in 0..=13 {
        let card = Card::from(index);
        assert_eq!(game.can_play(card), hand.contains(&card));
    }
    assert!(!game.can_play(Card::NoCard));
}

#[test]
fn hands_go_round_after_the_last_player() {
    let mut game = new_game(4);
    for _ in 0..3 {
        game.step(first_real_card(&game));
    }
    let card = first_real_card(&game);
    let mut hands: Vec<Vec<Card>> = (0..4).map(|seat| game.get_player_hand(seat)).collect();
    hands[3].remove(0);
    let result = game.step(card);
    assert!(matches!(result, StepResult::Success));
    assert_eq!(game.get_current_player_id(), 0);
    // every player holds the hand of the seat before, the first that of the last
    for seat in 0..4 {
        assert_eq!(game.get_player_hand(seat), hands[(seat + 3) % 4]);
        assert_eq!(game.get_player_hand(seat).len(), MAX_HAND_SIZE - 1);
        assert_eq!(game.get_player_chosen(seat).len(), 1);
    }
}

#[test]
fn chopsticks_grant_an_extra_pick() {
    let mut game = game_with_chopsticks_in_first_hand();
    assert!(matches!(game.step(Card::Chopsticks), StepResult::Success));
    // the chopsticks cannot pay in the turn they were played in
    assert_eq!(game.get_current_player_id(), 1);
    play_turns(&mut game, 3);
    assert_eq!(game.get_current_player_id(), 0);
    assert_eq!(game.get_player_chosen(0), vec![Card::Chopsticks]);

    let first = first_real_card(&game);
    let result = game.step(first);
    assert!(result.is_chopsticks_available());
    assert_eq!(game.get_current_player_id(), 0);
    let hand = game.get_player_hand(0);
    assert_eq!(hand.len(), MAX_HAND_SIZE - 2 + 1);
    assert_eq!(*hand.last().unwrap(), Card::NoCard);
    assert!(game.can_play(Card::NoCard));

    let total = all_cards_of(&game).len() - 1;
    let second = first_real_card(&game);
    let result = game.step(second);
    assert!(matches!(result, StepResult::Success));
    assert_eq!(game.get_current_player_id(), 1);
    // the chopsticks went back to the hand for the second card
    let hand = game.get_player_hand(0);
    assert_eq!(hand.len(), MAX_HAND_SIZE - 2);
    assert!(!hand.contains(&Card::NoCard));
    assert_eq!(*hand.last().unwrap(), Card::Chopsticks);
    let chosen = game.get_player_chosen(0);
    assert_eq!(chosen.len(), 2);
    if first != Card::Chopsticks {
        assert_eq!(chosen, vec![first, second]);
    }
    assert_eq!(all_cards_of(&game).len(), total);
}

#[test]
fn extra_pick_can_be_declined() {
    let mut game = game_with_chopsticks_in_first_hand();
    game.step(Card::Chopsticks);
    play_turns(&mut game, 3);
    let first = first_real_card(&game);
    assert!(game.step(first).is_chopsticks_available());
    let result = game.step(Card::NoCard);
    assert!(matches!(result, StepResult::NoResult));
    assert_eq!(game.get_current_player_id(), 1);
    let hand = game.get_player_hand(0);
    assert_eq!(hand.len(), MAX_HAND_SIZE - 2);
    assert!(!hand.contains(&Card::NoCard));
    assert_eq!(game.get_player_chosen(0), vec![Card::Chopsticks, first]);
}

#[test]
fn round_ends_when_the_hands_are_empty() {
    let mut game = new_game(2);
    play_turns(&mut game, 2 * MAX_HAND_SIZE - 1);
    assert_eq!(game.get_current_round(), 0);
    let mut result = game.step(first_real_card(&game));
    while result.is_chopsticks_available() {
        result = game.step(Card::NoCard);
    }
    assert!(result.is_round_over());
    assert_eq!(game.get_current_round(), 1);
    assert_eq!(game.get_current_player_id(), 0);
    for seat in 0..2 {
        assert_eq!(game.get_player_hand(seat).len(), MAX_HAND_SIZE);
        assert!(game.get_player_chosen(seat).is_empty());
    }
    let scores = game.prev_round_scores();
    assert_eq!(scores, calc_scores_for_round(game.get_players(), 0));
}

#[test]
fn game_ends_after_the_last_round() {
    for players in 1..=MAX_PLAYERS {
        let mut game = new_game(players);
        let mut rounds_over = 0;
        let mut steps = 0;
        loop {
            let result = game.step(first_real_card(&game));
            steps += 1;
            if result.is_round_over() {
                rounds_over += 1;
            }
            if result.is_game_over() {
                break;
            }
            assert!(!game.is_over());
        }
        assert!(game.is_over());
        assert_eq!(rounds_over, NUMBER_OF_ROUNDS as usize - 1);
        assert_eq!(game.get_current_round(), NUMBER_OF_ROUNDS);
        assert!(steps >= players * MAX_HAND_SIZE * NUMBER_OF_ROUNDS as usize);
        assert!(steps <= 1311);
        for seat in 0..players {
            assert!(game.get_player_hand(seat).is_empty());
            assert!(game.get_player_chosen(seat).is_empty());
        }
    }
}

#[test]
fn final_scores_add_the_rounds_and_the_puddings() {
    let mut game = new_game(4);
    while !game.is_over() {
        game.step(first_real_card(&game));
    }
    let players = game.get_players();
    let puddings = sushi_go::pudding::calc_pudding_scores_for_game(players, NUMBER_OF_ROUNDS);
    let mut expected = vec![0; 4];
    for round in 0..NUMBER_OF_ROUNDS {
        for (seat, score) in calc_scores_for_round(players, round).iter().enumerate() {
            expected[seat] += score;
        }
    }
    for seat in 0..4 {
        expected[seat] += puddings[seat];
    }
    assert_eq!(game.final_scores(), expected);
    let best = *expected.iter().max().unwrap();
    assert_eq!(game.get_winning_score(), best);
    assert_eq!(expected[game.get_winner()], best);
    assert!(best >= 0);
}

#[test]
fn random_game_always_ends_with_one_winner() {
    for _ in 0..200 {
        let mut game = new_game(4);
        let mut deals = 1;
        let mut steps = 0;
        loop {
            let action = do_random_turn(&game);
            assert!(game.can_play(action));
            let result = game.step(action);
            steps += 1;
            assert!(steps <= 1311);
            if result.is_round_over() {
                deals += 1;
            }
            if result.is_game_over() {
                break;
            }
        }
        assert_eq!(deals, NUMBER_OF_ROUNDS as usize);
        assert!(game.is_over());
        assert!(game.get_winner() < 4);
        assert!(game.get_winning_score() >= 0);
        let scores = game.final_scores();
        assert_eq!(game.get_winning_score(), *scores.iter().max().unwrap());
    }
}

#[test]
fn ties_for_the_win_are_drawn_by_lot() {
    // a game of one player has one winner; among several, every winner has
    // the best score, and over many games more than one seat wins
    let mut seats_that_won = [false; 4];
    for _ in 0..300 {
        let mut game = new_game(4);
        while !game.is_over() {
            let action = do_random_turn(&game);
            game.step(action);
        }
        seats_that_won[game.get_winner()] = true;
    }
    assert!(seats_that_won.iter().filter(|won| **won).count() >= 2);
}

#[test]
fn random_turn_never_takes_the_last_slot() {
    let game = loop {
        let game = new_game(4);
        let hand = game.get_player_hand(0);
        if !hand[..7].contains(&hand[7]) && hand[0] != hand[1] {
            break game;
        }
    };
    let hand = game.get_player_hand(0);
    let mut drawn = Vec::new();
    for _ in 0..500 {
        let card = do_random_turn(&game);
        assert!(hand[..7].contains(&card));
        assert_ne!(card, hand[7]);
        if !drawn.contains(&card) {
            drawn.push(card);
        }
    }
    // seven slots, of which at least two kinds differ in all but a few deals
    let kinds = {
        let mut kinds: Vec<Card> = Vec::new();
        for card in &hand[..7] {
            if !kinds.contains(card) {
                kinds.push(*card);
            }
        }
        kinds.len()
    };
    assert_eq!(drawn.len(), kinds);
}

#[test]
fn random_turn_with_one_card_takes_it() {
    let mut game = new_game(1);
    play_turns(&mut game, MAX_HAND_SIZE - 1);
    let hand = game.get_current_player_hand();
    assert_eq!(hand.len(), 1);
    for _ in 0..20 {
        assert_eq!(do_random_turn(&game), hand[0]);
    }
}

#[test]
fn tied_players_both_get_to_win() {
    let mut wins_in_ties = [0usize; 2];
    let mut games = 0;
    while (wins_in_ties[0] < 3 || wins_in_ties[1] < 3) && games < 20000 {
        games += 1;
        let mut game = new_game(2);
        while !game.is_over() {
            let action = do_random_turn(&game);
            game.step(action);
        }
        let scores = game.final_scores();
        assert_eq!(scores[game.get_winner()], *scores.iter().max().unwrap());
        if scores[0] == scores[1] {
            wins_in_ties[game.get_winner()] += 1;
        }
    }
    // neither seat is favoured when the scores are level
    assert!(wins_in_ties[0] >= 3 && wins_in_ties[1] >= 3);
}

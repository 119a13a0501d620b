use sushi_go::card::Card;
use sushi_go::competition::{first_round_players, games_in_round, NUMBER_OF_ROUNDS};
use sushi_go::game::{SushiGoGame, MAX_HAND_SIZE};
use sushi_go::human::{card_for_slot, visible_cards};
use sushi_go::model_b;
use sushi_go::model_c;
use sushi_go::neural_network::NeuralNetworkProperties;
use sushi_go::runner::NeuralNetworkGamePlayerType::{Human, NeuralNetwork, Random};
use sushi_go::runner::{
    collect_winners, collect_winning_scores, count_wins, create_games, offspring, do_random_turn, seat_plan,
    NeuralNetworkGame, NeuralNetworkGamePlayer, NeuralNetworkGamePlayerType, NUMBER_OF_PLAYERS,
};

fn agents(count: usize, player_type: NeuralNetworkGamePlayerType) -> Vec<NeuralNetworkGamePlayer<usize>> {
    (0..count).map(|id| NeuralNetworkGamePlayer::new(player_type, id)).collect()
}

fn match_of(types: &[NeuralNetworkGamePlayerType]) -> NeuralNetworkGame<usize> {
    let mut game = SushiGoGame::new(types.len());
    game.setup();
    let players =
        types.iter().enumerate().map(|(id, t)| NeuralNetworkGamePlayer::new(*t, id)).collect();
    NeuralNetworkGame::new(game, players)
}

#[test]
fn player_types_tell_themselves_apart() {
    assert!(NeuralNetworkGamePlayerType::Random.is_random());
    assert!(!NeuralNetworkGamePlayerType::Human.is_random());
    assert!(!NeuralNetworkGamePlayerType::NeuralNetwork.is_random());
    assert!(NeuralNetworkGamePlayerType::Human.is_human());
    assert!(!NeuralNetworkGamePlayerType::Random.is_human());
    assert!(!NeuralNetworkGamePlayerType::NeuralNetwork.is_human());
}

#[test]
fn agent_clone_keeps_type_and_policy() {
    let agent = NeuralNetworkGamePlayer::new(NeuralNetworkGamePlayerType::Human, vec![1, 2, 3]);
    let copy = agent.clone();
    assert!(copy.player_type.is_human());
    assert_eq!(copy.nn, vec![1, 2, 3]);
}

#[test]
fn seat_plan_puts_humans_first_and_networks_last() {
    assert_eq!(seat_plan(0, 0), vec![NeuralNetwork; 4]);
    assert_eq!(seat_plan(1, 0), vec![Random, NeuralNetwork, NeuralNetwork, NeuralNetwork]);
    assert_eq!(seat_plan(1, 2), vec![Human, Human, Random, NeuralNetwork]);
    assert_eq!(seat_plan(0, 4), vec![Human; 4]);
    assert_eq!(seat_plan(4, 0), vec![Random; 4]);
    assert_eq!(seat_plan(3, 1), vec![Human, Random, Random, Random]);
}

#[test]
fn has_human_looks_at_every_seat() {
    assert!(!match_of(&[Random, NeuralNetwork, Random, Random]).has_human());
    assert!(match_of(&[Random, NeuralNetwork, Random, Human]).has_human());
    assert!(match_of(&[Human, NeuralNetwork, Random, Random]).has_human());
}

#[test]
fn create_games_seats_every_agent_once() {
    let mut pool = agents(11, NeuralNetworkGamePlayerType::Random);
    let mut games: Vec<NeuralNetworkGame<usize>> = Vec::new();
    create_games(&mut games, 2, &mut pool);
    assert_eq!(games.len(), 2);
    // the pool is served from its end, the last agent first
    let left: Vec<usize> = pool.iter().map(|agent| agent.nn).collect();
    assert_eq!(left, vec![0, 1, 2]);
    let first: Vec<usize> = (0..4).map(|seat| games[0].get_player(seat).nn).collect();
    let second: Vec<usize> = (0..4).map(|seat| games[1].get_player(seat).nn).collect();
    assert_eq!(first, vec![10, 9, 8, 7]);
    assert_eq!(second, vec![6, 5, 4, 3]);
    for game in &games {
        assert_eq!(game.get_game().get_num_players(), NUMBER_OF_PLAYERS);
        assert!(!game.get_game().is_over());
        for seat in 0..NUMBER_OF_PLAYERS {
            assert_eq!(game.get_game().get_player_hand(seat).len(), MAX_HAND_SIZE);
        }
    }
}

#[test]
fn create_games_adds_to_the_games_there_are() {
    let mut pool = agents(8, NeuralNetworkGamePlayerType::Random);
    let mut games: Vec<NeuralNetworkGame<usize>> = Vec::new();
    create_games(&mut games, 1, &mut pool);
    create_games(&mut games, 0, &mut pool);
    create_games(&mut games, 1, &mut pool);
    assert_eq!(games.len(), 2);
    assert!(pool.is_empty());
    assert_eq!(games[0].get_player(0).nn, 7);
    assert_eq!(games[1].get_player(3).nn, 0);
}

#[test]
fn random_match_is_played_to_its_end() {
    let mut pool = agents(40, NeuralNetworkGamePlayerType::Random);
    let mut games: Vec<NeuralNetworkGame<usize>> = Vec::new();
    create_games(&mut games, 10, &mut pool);
    for game in games.iter_mut() {
        assert!(game.play_random_turns());
        assert!(game.get_game().is_over());
        assert!(game.get_winning_id() < NUMBER_OF_PLAYERS);
        assert!(game.get_game().get_winning_score() >= 0);
    }
    let winners = collect_winners(&games);
    let scores = collect_winning_scores(&games);
    assert_eq!(winners.len(), 10);
    assert_eq!(scores.len(), 10);
    for (index, game) in games.iter().enumerate() {
        assert_eq!(winners[index].nn, game.get_player(game.get_winning_id()).nn);
        assert_eq!(winners[index].nn, game.get_winning_nn().nn);
        assert_eq!(scores[index], game.get_game().get_winning_score());
        assert_eq!(scores[index], *game.get_game().final_scores().iter().max().unwrap());
    }
    // every winner sat in one match only
    let mut ids: Vec<usize> = winners.iter().map(|agent| agent.nn).collect();
    ids.sort();
    ids.dedup();
    assert_eq!(ids.len(), 10);
}

#[test]
fn random_turns_stop_for_another_agent() {
    let mut game = match_of(&[Random, Random, NeuralNetwork, Random]);
    assert!(!game.play_random_turns());
    assert_eq!(game.get_game().get_current_player_id(), 2);
    assert_eq!(game.get_game().get_player_chosen(0).len(), 1);
    assert_eq!(game.get_game().get_player_chosen(1).len(), 1);
    assert_eq!(game.get_game().get_player_chosen(2).len(), 0);
    // nothing moves while the match waits for the agent
    assert!(!game.play_random_turns());
    assert_eq!(game.get_game().get_current_player_id(), 2);
    let card = game.get_game().get_current_player_hand()[0];
    game.play_card(card);
    assert!(!game.play_random_turns());
    assert_eq!(game.get_game().get_current_player_id(), 2);
    assert_eq!(game.get_game().get_player_chosen(3).len(), 1);
    assert_eq!(game.get_game().get_player_chosen(0).len(), 2);
}

#[test]
fn match_with_a_scripted_agent_ends() {
    let mut game = match_of(&[NeuralNetwork, Random]);
    let mut steps = 0;
    while !game.play_random_turns() {
        let hand = game.get_game().get_current_player_hand();
        let card = card_for_slot(&hand, 100);
        assert_eq!(card, hand[0]);
        game.play_card(card);
        steps += 1;
        assert!(steps <= 1311);
    }
    assert!(game.get_game().is_over());
    assert!(game.get_winning_id() < 2);
}

#[test]
fn bracket_has_four_times_the_matches_in_every_round_before() {
    assert_eq!(games_in_round(0), 1);
    assert_eq!(games_in_round(1), 4);
    assert_eq!(games_in_round(2), 16);
    assert_eq!(games_in_round(3), 64);
    assert_eq!(games_in_round(15), 1_073_741_824);
}

#[test]
fn bracket_winners_fill_the_next_round() {
    for rounds_to_go in 0..15 {
        let winners = games_in_round(rounds_to_go + 1);
        assert_eq!(winners, games_in_round(rounds_to_go) * NUMBER_OF_PLAYERS);
    }
    assert_eq!(NUMBER_OF_ROUNDS, 2);
    assert_eq!(first_round_players(), 16);
    // sixteen agents, four matches, four winners, one match, one champion
    let mut pool = first_round_players();
    for round in (0..NUMBER_OF_ROUNDS).rev() {
        assert_eq!(pool, games_in_round(round) * NUMBER_OF_PLAYERS);
        pool = games_in_round(round);
    }
    assert_eq!(pool, 1);
}

#[test]
fn small_model_sees_the_kinds_in_the_hand() {
    let mut game = SushiGoGame::new(4);
    game.setup();
    let input = model_c::get_nn_input(&game);
    let hand = game.get_current_player_hand();
    assert_eq!(input.len(), 13);
    for (index, seen) in input.iter().enumerate() {
        assert_eq!(*seen, hand.contains(&Card::from(index)));
    }
    assert!(!input[12]);
    assert!(input.iter().any(|seen| *seen));
}

#[test]
fn small_model_node_count() {
    assert_eq!(
        model_c::get_node_count(),
        NeuralNetworkProperties {
            input_node_count: 13,
            hidden_node_count: 20,
            output_node_count: 13
        }
    );
}

#[test]
fn wide_model_sees_the_card_at_every_place() {
    let mut game = SushiGoGame::new(2);
    game.setup();
    let first = game.get_current_player_hand()[0];
    game.step(first);
    let second = game.get_current_player_hand()[2];
    game.step(second);
    // the hands went round: the first player holds seven cards and has played one
    let hand = game.get_current_player_hand();
    let chosen = game.get_player_chosen(0);
    assert_eq!(hand.len(), 7);
    assert_eq!(chosen, vec![first]);
    let input = model_b::get_nn_input(&game);
    assert_eq!(input.len(), 208);
    for place in 0..8 {
        for index in 0..13 {
            let in_hand = place < hand.len() && hand[place].index() == index;
            let in_chosen = place < chosen.len() && chosen[place].index() == index;
            assert_eq!(input[place * 13 + index], in_hand);
            assert_eq!(input[104 + place * 13 + index], in_chosen);
        }
    }
    assert_eq!(input.iter().filter(|seen| **seen).count(), 8);
}

#[test]
fn wide_model_node_count() {
    let count = model_b::get_node_count();
    assert_eq!(count.input_size, 208);
    assert_eq!(count.hidden_layer_size, 136);
    assert_eq!(count.output_layer_size, 13);
}

#[test]
fn card_for_slot_falls_back_to_the_first_card() {
    let hand = vec![Card::Tempura, Card::Wasabi, Card::Pudding];
    assert_eq!(card_for_slot(&hand, 0), Card::Tempura);
    assert_eq!(card_for_slot(&hand, 2), Card::Pudding);
    assert_eq!(card_for_slot(&hand, 3), Card::Tempura);
    assert_eq!(card_for_slot(&hand, usize::MAX), Card::Tempura);
}

#[test]
fn visible_cards_are_as_many_as_the_player_has_played() {
    let mut game = SushiGoGame::new(3);
    game.setup();
    let first = game.get_current_player_hand()[0];
    game.step(first);
    let second = game.get_current_player_hand()[0];
    game.step(second);
    // the third player has played nothing yet and is shown nothing
    assert_eq!(game.get_current_player_id(), 2);
    assert_eq!(visible_cards(&game, 0), Vec::<Card>::new());
    assert_eq!(visible_cards(&game, 2), Vec::<Card>::new());
    let third = game.get_current_player_hand()[0];
    game.step(third);
    // back at the first player, who has played one card, as all have
    assert_eq!(game.get_current_player_id(), 0);
    assert_eq!(visible_cards(&game, 0), vec![first]);
    assert_eq!(visible_cards(&game, 1), vec![second]);
    assert_eq!(visible_cards(&game, 2), vec![third]);
    let fourth = game.get_current_player_hand()[0];
    let result = game.step(fourth);
    if !result.is_chopsticks_available() {
        // the second player is shown one card of the two that the first has played
        assert_eq!(game.get_current_player_id(), 1);
        assert_eq!(visible_cards(&game, 0), vec![first]);
        assert_eq!(visible_cards(&game, 1), vec![second]);
    }
}

#[test]
fn random_turn_of_a_match_is_a_card_of_the_hand() {
    let game = match_of(&[NeuralNetworkGamePlayerType::Random; 4]);
    let hand = game.get_game().get_current_player_hand();
    for _ in 0..50 {
        assert!(hand.contains(&do_random_turn(game.get_game())));
    }
}

#[test]
fn count_wins_adds_a_win_for_the_seat_of_every_winner() {
    let mut pool = agents(24, Random);
    let mut games: Vec<NeuralNetworkGame<usize>> = Vec::new();
    create_games(&mut games, 6, &mut pool);
    for game in games.iter_mut() {
        assert!(game.play_random_turns());
    }
    let mut win_counter = vec![5, 0, 0, 1];
    count_wins(&games, &mut win_counter);
    let mut expected = vec![5, 0, 0, 1];
    for game in &games {
        expected[game.get_winning_id()] += 1;
    }
    assert_eq!(win_counter, expected);
    assert_eq!(win_counter.iter().sum::<usize>(), 6 + 6);
    count_wins(&Vec::<NeuralNetworkGame<usize>>::new(), &mut win_counter);
    assert_eq!(win_counter, expected);
}

#[test]
fn offspring_are_copies_for_every_seat_of_every_match() {
    let parent = NeuralNetworkGamePlayer::new(NeuralNetwork, vec![4u8, 2]);
    let children = offspring(&parent, 3);
    assert_eq!(children.len(), 3 * NUMBER_OF_PLAYERS);
    for child in &children {
        assert_eq!(child.nn, vec![4u8, 2]);
        assert!(!child.player_type.is_random());
        assert!(!child.player_type.is_human());
    }
    assert!(offspring(&parent, 0).is_empty());
}

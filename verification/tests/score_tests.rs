use sushi_go::card::Card;
use sushi_go::player::{new_player, Player};
use sushi_go::pudding::{calc_pudding_counts_for_game, calc_pudding_scores_for_game, sort_by_count};
use sushi_go::score::{
    add_maki_roll_score, add_score, calc_scores_for_round, find_most_maki_rolls, score_dishes,
};
use sushi_go::tally::SushiResult;

fn rounds_played(id: usize, rounds: &[&[Card]]) -> Player {
    let mut player = new_player(id);
    for round in rounds {
        for card in round.iter() {
            player.add_card_to_hand(*card);
            assert!(player.choose_card(*card));
        }
        player.add_round_result();
        player.clear_chosen_cards();
    }
    player
}

fn table(piles: &[&[Card]]) -> Vec<Player> {
    piles.iter().enumerate().map(|(id, pile)| rounds_played(id, &[*pile])).collect()
}

fn with_puddings(counts: &[usize]) -> Vec<Player> {
    counts
        .iter()
        .enumerate()
        .map(|(id, count)| rounds_played(id, &[&vec![Card::Pudding; *count]]))
        .collect()
}

fn with_rolls(rolls: &[i16]) -> Vec<SushiResult> {
    rolls
        .iter()
        .map(|count| {
            let mut tally = SushiResult::new();
            tally.maki_roll_count = *count;
            tally
        })
        .collect()
}

fn maki_scores(rolls: &[i16]) -> Vec<i32> {
    let tallies = with_rolls(rolls);
    let borrowed: Vec<&SushiResult> = tallies.iter().collect();
    let mut scores = vec![0; rolls.len()];
    add_maki_roll_score(&mut scores, &borrowed);
    scores
}

fn dishes(cards: &[Card]) -> i32 {
    let player = rounds_played(0, &[cards]);
    score_dishes(player.get_round_result(0))
}

#[test]
fn add_score_adds_to_one_player() {
    let mut scores = vec![1, 2, 3];
    add_score(1, 5, &mut scores);
    assert_eq!(scores, vec![1, 7, 3]);
    add_score(2, -4, &mut scores);
    assert_eq!(scores, vec![1, 7, -1]);
}

#[test]
fn maki_two_players_tied_at_the_top_get_three_each() {
    assert_eq!(maki_scores(&[3, 3, 1, 0]), vec![3, 3, 0, 0]);
}

#[test]
fn maki_three_players_tied_at_the_top_get_two_each() {
    assert_eq!(maki_scores(&[2, 2, 2, 1]), vec![2, 2, 2, 0]);
}

#[test]
fn maki_four_players_tied_lose_the_remainder() {
    assert_eq!(maki_scores(&[4, 4, 4, 4]), vec![1, 1, 1, 1]);
    assert_eq!(maki_scores(&[0, 0, 0, 0]), vec![1, 1, 1, 1]);
}

#[test]
fn maki_second_place_when_one_player_leads() {
    assert_eq!(maki_scores(&[5, 3, 1, 0]), vec![6, 3, 0, 0]);
    assert_eq!(maki_scores(&[1, 3, 5, 4]), vec![0, 0, 6, 3]);
}

#[test]
fn maki_second_place_is_split_too() {
    assert_eq!(maki_scores(&[5, 3, 3, 1]), vec![6, 1, 1, 0]);
    assert_eq!(maki_scores(&[5, 0, 0, 0]), vec![6, 1, 1, 1]);
    assert_eq!(maki_scores(&[2, 6, 2, 2, 2]), vec![0, 6, 0, 0, 0]);
}

#[test]
fn maki_one_player_alone() {
    assert_eq!(maki_scores(&[2]), vec![6]);
    assert_eq!(maki_scores(&[]), Vec::<i32>::new());
}

#[test]
fn maki_score_is_added_to_what_is_there() {
    let tallies = with_rolls(&[1, 2]);
    let borrowed: Vec<&SushiResult> = tallies.iter().collect();
    let mut scores = vec![10, 20, 30];
    add_maki_roll_score(&mut scores, &borrowed);
    assert_eq!(scores, vec![13, 26, 30]);
}

#[test]
fn find_most_maki_rolls_lists_both_ranks() {
    let tallies = with_rolls(&[2, 7, 4, 7, 4, 1]);
    let borrowed: Vec<&SushiResult> = tallies.iter().collect();
    let mut most = vec![9];
    let mut second = Vec::new();
    find_most_maki_rolls(&borrowed, &mut most, &mut second);
    assert_eq!(most, vec![9, 1, 3]);
    assert_eq!(second, vec![2, 4]);
}

#[test]
fn find_most_maki_rolls_without_a_second_rank() {
    let tallies = with_rolls(&[3, 3]);
    let borrowed: Vec<&SushiResult> = tallies.iter().collect();
    let mut most = Vec::new();
    let mut second = Vec::new();
    find_most_maki_rolls(&borrowed, &mut most, &mut second);
    assert_eq!(most, vec![0, 1]);
    assert_eq!(second, Vec::<u8>::new());
}

#[test]
fn tempura_scores_by_the_remainder_of_a_pair() {
    assert_eq!(dishes(&[]), 0);
    assert_eq!(dishes(&[Card::Tempura]), 5);
    assert_eq!(dishes(&[Card::Tempura, Card::Tempura]), 0);
    assert_eq!(dishes(&[Card::Tempura, Card::Tempura, Card::Tempura]), 5);
}

#[test]
fn sashimi_scores_by_the_remainder_of_a_trio() {
    assert_eq!(dishes(&[Card::Sashimi]), 10);
    assert_eq!(dishes(&[Card::Sashimi, Card::Sashimi]), 20);
    assert_eq!(dishes(&[Card::Sashimi, Card::Sashimi, Card::Sashimi]), 0);
    assert_eq!(dishes(&[Card::Sashimi, Card::Sashimi, Card::Sashimi, Card::Sashimi]), 10);
}

#[test]
fn dumplings_score_by_tier_up_to_the_fourth() {
    assert_eq!(dishes(&vec![Card::Dumpling; 1]), 1);
    assert_eq!(dishes(&vec![Card::Dumpling; 2]), 3);
    assert_eq!(dishes(&vec![Card::Dumpling; 3]), 6);
    assert_eq!(dishes(&vec![Card::Dumpling; 4]), 10);
    assert_eq!(dishes(&vec![Card::Dumpling; 5]), 10);
    assert_eq!(dishes(&vec![Card::Dumpling; 8]), 10);
}

#[test]
fn nigiri_score_by_kind() {
    assert_eq!(dishes(&[Card::SalmonNigiri]), 2);
    assert_eq!(dishes(&[Card::EggNigiri]), 1);
    assert_eq!(dishes(&[Card::SquidNigiri]), 3);
    assert_eq!(dishes(&[Card::SalmonNigiri, Card::EggNigiri, Card::SquidNigiri]), 6);
}

#[test]
fn nigiri_on_wasabi_score_more() {
    assert_eq!(dishes(&[Card::Wasabi, Card::SalmonNigiri]), 9);
    assert_eq!(dishes(&[Card::Wasabi, Card::EggNigiri]), 3);
    assert_eq!(dishes(&[Card::Wasabi, Card::SquidNigiri]), 6);
    assert_eq!(dishes(&[Card::Wasabi]), 0);
}

#[test]
fn second_nigiri_after_one_wasabi_scores_at_the_base_rate() {
    assert_eq!(dishes(&[Card::Wasabi, Card::SquidNigiri, Card::SquidNigiri]), 6 + 3);
    assert_eq!(dishes(&[Card::Wasabi, Card::SalmonNigiri, Card::EggNigiri]), 9 + 1);
    assert_eq!(dishes(&[Card::SalmonNigiri, Card::Wasabi, Card::EggNigiri]), 2 + 3);
}

#[test]
fn puddings_chopsticks_and_maki_are_no_dishes() {
    assert_eq!(dishes(&[Card::Pudding, Card::Chopsticks, Card::MakiRoll3]), 0);
}

#[test]
fn round_score_adds_maki_and_dishes() {
    let players = table(&[
        &[Card::MakiRoll3, Card::Tempura, Card::Wasabi, Card::SalmonNigiri],
        &[Card::MakiRoll2, Card::Dumpling, Card::Dumpling, Card::Sashimi],
        &[Card::MakiRoll2, Card::Pudding, Card::SquidNigiri, Card::EggNigiri],
        &[Card::Chopsticks, Card::Tempura, Card::Tempura, Card::Sashimi],
    ]);
    // maki 6 / 1 / 1 / 0; dishes 5 + 9 / 3 + 10 / 3 + 1 / 0 + 10
    assert_eq!(calc_scores_for_round(&players, 0), vec![20, 14, 5, 10]);
}

#[test]
fn round_score_reads_the_round_asked_for() {
    let players = vec![
        rounds_played(0, &[&[Card::Tempura], &[Card::MakiRoll1, Card::Sashimi]]),
        rounds_played(1, &[&[Card::MakiRoll1], &[Card::Dumpling]]),
    ];
    assert_eq!(calc_scores_for_round(&players, 0), vec![3 + 5, 6]);
    assert_eq!(calc_scores_for_round(&players, 1), vec![6 + 10, 3 + 1]);
}

#[test]
fn pudding_all_equal_scores_nothing() {
    assert_eq!(calc_pudding_scores_for_game(&with_puddings(&[2, 2, 2, 2]), 1), vec![0, 0, 0, 0]);
    assert_eq!(calc_pudding_scores_for_game(&with_puddings(&[0, 0, 0]), 1), vec![0, 0, 0]);
    assert_eq!(calc_pudding_scores_for_game(&with_puddings(&[5]), 1), vec![0]);
}

#[test]
fn pudding_most_and_fewest() {
    assert_eq!(calc_pudding_scores_for_game(&with_puddings(&[3, 1, 2, 0]), 1), vec![6, 0, 0, -6]);
    assert_eq!(calc_pudding_scores_for_game(&with_puddings(&[0, 4]), 1), vec![-6, 6]);
}

#[test]
fn pudding_ties_split_the_points() {
    assert_eq!(calc_pudding_scores_for_game(&with_puddings(&[3, 1, 2, 1]), 1), vec![6, -3, 0, -3]);
    assert_eq!(calc_pudding_scores_for_game(&with_puddings(&[1, 0, 0, 0]), 1), vec![6, -2, -2, -2]);
    assert_eq!(calc_pudding_scores_for_game(&with_puddings(&[2, 2, 0, 1]), 1), vec![3, 3, -6, 0]);
}

#[test]
fn pudding_split_drops_the_remainder_towards_nothing() {
    assert_eq!(
        calc_pudding_scores_for_game(&with_puddings(&[2, 0, 0, 0, 0]), 1),
        vec![6, -1, -1, -1, -1]
    );
    assert_eq!(
        calc_pudding_scores_for_game(&with_puddings(&[0, 1, 1, 1, 1]), 1),
        vec![-6, 1, 1, 1, 1]
    );
}

#[test]
fn pudding_counts_add_up_over_the_rounds() {
    let players = vec![
        rounds_played(0, &[&[Card::Pudding, Card::Pudding], &[], &[Card::Tempura]]),
        rounds_played(1, &[&[Card::Pudding], &[Card::Pudding], &[Card::Pudding]]),
        rounds_played(2, &[&[], &[Card::Pudding], &[]]),
    ];
    assert_eq!(calc_pudding_counts_for_game(&players, 3), vec![(2, 1), (0, 2), (1, 3)]);
    assert_eq!(calc_pudding_scores_for_game(&players, 3), vec![0, 6, -6]);
    // over the first round alone the first player leads
    assert_eq!(calc_pudding_counts_for_game(&players, 1), vec![(2, 0), (1, 1), (0, 2)]);
    assert_eq!(calc_pudding_scores_for_game(&players, 1), vec![6, 0, -6]);
    // over no round at all everybody has none
    assert_eq!(calc_pudding_scores_for_game(&players, 0), vec![0, 0, 0]);
}

#[test]
fn pudding_counts_keep_the_order_of_the_table_among_equals() {
    let players = with_puddings(&[3, 1, 2, 1]);
    assert_eq!(calc_pudding_counts_for_game(&players, 1), vec![(1, 1), (3, 1), (2, 2), (0, 3)]);
}

#[test]
fn sort_by_count_is_stable() {
    let mut pairs = vec![(7, 2), (1, 0), (5, 2), (3, -1), (9, 0)];
    sort_by_count(&mut pairs);
    assert_eq!(pairs, vec![(3, -1), (1, 0), (9, 0), (7, 2), (5, 2)]);
    let mut sorted = vec![(0, 1), (1, 1), (2, 3)];
    sort_by_count(&mut sorted);
    assert_eq!(sorted, vec![(0, 1), (1, 1), (2, 3)]);
    let mut empty: Vec<(usize, i16)> = Vec::new();
    sort_by_count(&mut empty);
    assert!(empty.is_empty());
}

#[test]
fn pudding_tie_scores_nothing_whatever_the_identities() {
    let players = vec![
        rounds_played(7, &[&[Card::Pudding], &[Card::Pudding, Card::Tempura]]),
        rounds_played(7, &[&[Card::Pudding, Card::Pudding], &[]]),
        rounds_played(100, &[&[], &[Card::Pudding, Card::Pudding]]),
    ];
    assert_eq!(calc_pudding_scores_for_game(&players, 2), vec![0, 0, 0]);
}

#[test]
fn maki_prizes_add_at_most_nine_points() {
    for rolls in [
        vec![5, 3, 1, 0],
        vec![5, 3, 3, 1],
        vec![5, 0, 0, 0],
        vec![2, 2, 2, 1],
        vec![4, 4, 4, 4],
        vec![0, 0, 0, 0],
        vec![7],
        vec![1, 2, 3, 4, 5, 6, 7, 8],
        vec![3, 3, 3, 3, 3, 3, 3, 1],
    ] {
        let scores = maki_scores(&rolls);
        assert!(scores.iter().all(|points| *points >= 0));
        assert!(scores.iter().sum::<i32>() <= 9);
    }
    assert_eq!(maki_scores(&[5, 3, 1, 0]).iter().sum::<i32>(), 9);
}

//! A seat at the table: the hand held, the cards played this round, and the
//! tallies of the rounds that are over.

use vstd::prelude::*;
use crate::card::{card_index, Card};
use crate::pile::{
    copy_cards, count_cards, lemma_count_push, lemma_remove_first, position_of, remove_first,
    without,
};
use crate::tally::{
    count_of, lemma_counts_bounded, lemma_tally_records, lemma_wasabi_lifts_at_most_one, records,
    tally_of, wasabi_open, SushiResult, MAX_TALLIED_CARDS,
};

verus! {

/// One player of a game.
///
/// Chopsticks in the played pile are either fresh, and can pay for an extra
/// pick, or spent for this turn: played during the turn, or already offered
/// for an extra pick. The player counts the spent ones; cleaning up after the
/// turn makes all of them fresh again.
pub struct Player {
    id: usize,
    hand: Vec<Card>,
    chosen_cards: Vec<Card>,
    spent_chopsticks: usize,
    round_results: Vec<SushiResult>,
    final_score: i32,
}

/// What a player is, as plain values.
pub struct PlayerView {
    pub id: usize,
    pub hand: Seq<Card>,
    pub chosen: Seq<Card>,
    pub spent: nat,
    pub rounds: Seq<SushiResult>,
    pub final_score: i32,
}

impl PlayerView {
    /// The chopsticks in the played pile that can still pay for an extra
    /// pick this turn.
    pub open spec fn fresh_chopsticks(self) -> int {
        count_of(self.chosen, Card::Chopsticks) - self.spent
    }

    /// No more chopsticks are spent than were played, and no tally holds a
    /// negative count.
    pub open spec fn wf(self) -> bool {
        &&& self.spent <= count_of(self.chosen, Card::Chopsticks)
        &&& forall|r: int| 0 <= r < self.rounds.len() ==> (#[trigger] self.rounds[r]).wf()
    }

    /// The cards with the player: in hand and played.
    pub open spec fn cards_held(self) -> nat {
        self.hand.len() + self.chosen.len()
    }
}

impl View for Player {
    type V = PlayerView;

    closed spec fn view(&self) -> PlayerView {
        PlayerView {
            id: self.id,
            hand: self.hand@,
            chosen: self.chosen_cards@,
            spent: self.spent_chopsticks as nat,
            rounds: self.round_results@,
            final_score: self.final_score,
        }
    }
}

/// The players of a table, each as plain values.
pub open spec fn views(players: Seq<Player>) -> Seq<PlayerView> {
    Seq::new(players.len(), |i: int| players[i]@)
}

/// A player with the given identity, no card and no tally.
pub fn new_player(id: usize) -> (player: Player)
    ensures
        player@ == (PlayerView {
            id,
            hand: Seq::empty(),
            chosen: Seq::empty(),
            spent: 0,
            rounds: Seq::empty(),
            final_score: 0,
        }),
        player@.wf(),
{
    Player {
        id,
        hand: Vec::new(),
        chosen_cards: Vec::new(),
        spent_chopsticks: 0,
        round_results: Vec::new(),
        final_score: 0,
    }
}

impl Player {
    /// Puts a card at the end of the hand.
    pub fn add_card_to_hand(&mut self, new_card: Card)
        ensures
            final(self)@ == (PlayerView { hand: old(self)@.hand.push(new_card), ..old(self)@ }),
    {
        self.hand.push(new_card);
    }

    /// Takes the first such card out of the hand. The hand must hold one.
    pub fn remove_card_from_hand(&mut self, card_to_remove: Card) -> (found: bool)
        requires
            old(self)@.hand.contains(card_to_remove),
        ensures
            found,
            final(self)@ == (PlayerView {
                hand: remove_first(old(self)@.hand, card_to_remove),
                ..old(self)@
            }),
    {
        let at = position_of(&self.hand, card_to_remove);
        self.hand.remove(at);
        true
    }

    /// Whether the hand holds such a card.
    pub fn has_card_in_hand(&self, card: Card) -> (found: bool)
        ensures
            found == self@.hand.contains(card),
    {
        position_of(&self.hand, card) < self.hand.len()
    }

    /// Whether the played pile holds such a card.
    pub fn has_chosen_card(&self, card: Card) -> (found: bool)
        ensures
            found == self@.chosen.contains(card),
    {
        position_of(&self.chosen_cards, card) < self.chosen_cards.len()
    }

    /// Plays a card: moves the first such card of the hand to the end of the
    /// played pile. Chopsticks played are spent for this turn. Nothing
    /// changes, and the answer is no, where the hand holds no such card.
    pub fn choose_card(&mut self, card: Card) -> (accepted: bool)
        requires
            old(self)@.wf(),
        ensures
            accepted == old(self)@.hand.contains(card),
            accepted ==> final(self)@ == (PlayerView {
                hand: remove_first(old(self)@.hand, card),
                chosen: old(self)@.chosen.push(card),
                spent: if card == Card::Chopsticks {
                    old(self)@.spent + 1
                } else {
                    old(self)@.spent
                },
                ..old(self)@
            }),
            !accepted ==> final(self)@ == old(self)@,
            final(self)@.wf(),
    {
        if !self.has_card_in_hand(card) {
            return false;
        }
        self.remove_card_from_hand(card);
        self.chosen_cards.push(card);
        proof {
            lemma_count_push(old(self)@.chosen, card, Card::Chopsticks);
            lemma_counts_bounded(old(self)@.chosen, Card::Chopsticks);
            assert(self.chosen_cards.len() == old(self)@.chosen.len() + 1);
        }
        if card == Card::Chopsticks {
            self.spent_chopsticks = self.spent_chopsticks + 1;
        }
        true
    }

    /// A copy of the hand.
    pub fn get_hand(&self) -> (hand: Vec<Card>)
        ensures
            hand@ == self@.hand,
    {
        copy_cards(&self.hand)
    }

    /// The number of cards in hand.
    pub fn get_hand_size(&self) -> (size: usize)
        ensures
            size == self@.hand.len(),
    {
        self.hand.len()
    }

    /// Gives the player another hand in place of the one held.
    pub fn replace_hand(&mut self, replacement: Vec<Card>)
        ensures
            final(self)@ == (PlayerView { hand: replacement@, ..old(self)@ }),
    {
        self.hand = replacement;
    }

    /// Makes the player ready for the next turn: the placeholders leave the
    /// hand, and all chopsticks in the played pile are fresh again.
    pub fn sanitize_cards(&mut self)
        ensures
            final(self)@ == (PlayerView {
                hand: without(old(self)@.hand, Card::NoCard),
                spent: 0,
                ..old(self)@
            }),
    {
        let mut kept: Vec<Card> = Vec::new();
        let mut i: usize = 0;
        while i < self.hand.len()
            invariant
                i <= self.hand@.len(),
                kept@ == without(self.hand@.take(i as int), Card::NoCard),
            decreases self.hand@.len() - i,
        {
            proof {
                assert(self.hand@.take(i + 1).drop_last() == self.hand@.take(i as int));
            }
            if self.hand[i] != Card::NoCard {
                kept.push(self.hand[i]);
            }
            i = i + 1;
        }
        proof {
            assert(self.hand@.take(i as int) == self.hand@);
        }
        self.hand = kept;
        self.spent_chopsticks = 0;
    }

    /// Whether the played pile holds chopsticks that were not played last:
    /// chopsticks lie in the pile before its last card. The last card is the
    /// one just played, which cannot pay for an extra pick.
    pub fn has_chopsticks(&self) -> (available: bool)
        ensures
            available <==> exists|i: int|
                0 <= i < self@.chosen.len() - 1 && #[trigger] self@.chosen[i] == Card::Chopsticks,
    {
        if self.chosen_cards.len() == 0 {
            return false;
        }
        let mut i: usize = 0;
        while i < self.chosen_cards.len() - 1
            invariant
                self.chosen_cards@.len() > 0,
                i <= self.chosen_cards@.len() - 1,
                forall|j: int| 0 <= j < i ==> #[trigger] self.chosen_cards@[j] != Card::Chopsticks,
            decreases self.chosen_cards@.len() - i,
        {
            if self.chosen_cards[i] == Card::Chopsticks {
                return true;
            }
            i = i + 1;
        }
        false
    }

    /// Offers fresh chopsticks for an extra pick: where the played pile holds
    /// more chopsticks than are spent, one more of them is spent and the
    /// answer is yes.
    pub fn remove_fresh_chopsticks(&mut self) -> (offered: bool)
        ensures
            offered == (old(self)@.fresh_chopsticks() > 0),
            offered ==> final(self)@ == (PlayerView {
                spent: old(self)@.spent + 1,
                ..old(self)@
            }),
            !offered ==> final(self)@ == old(self)@,
            old(self)@.wf() ==> final(self)@.wf(),
    {
        if count_cards(&self.chosen_cards, Card::Chopsticks) > self.spent_chopsticks {
            self.spent_chopsticks = self.spent_chopsticks + 1;
            true
        } else {
            false
        }
    }

    /// Takes chopsticks back: where the played pile holds chopsticks, the
    /// first of them leave the pile and go to the end of the hand, and one
    /// spent less is counted, if any were. Nothing changes where the pile
    /// holds none. The number of cards with the player stays.
    pub fn return_chopsticks(&mut self)
        ensures
            old(self)@.chosen.contains(Card::Chopsticks) ==> final(self)@ == (PlayerView {
                hand: old(self)@.hand.push(Card::Chopsticks),
                chosen: remove_first(old(self)@.chosen, Card::Chopsticks),
                spent: if old(self)@.spent > 0 {
                    (old(self)@.spent - 1) as nat
                } else {
                    old(self)@.spent
                },
                ..old(self)@
            }),
            !old(self)@.chosen.contains(Card::Chopsticks) ==> final(self)@ == old(self)@,
            final(self)@.cards_held() == old(self)@.cards_held(),
            old(self)@.wf() ==> final(self)@.wf(),
    {
        proof {
            if self@.chosen.contains(Card::Chopsticks) {
                lemma_remove_first(self@.chosen, Card::Chopsticks, Card::Chopsticks);
            }
        }
        if self.remove_chosen_card(Card::Chopsticks) {
            self.add_card_to_hand(Card::Chopsticks);
        }
    }

    /// Whether the card at that position of the hand has that index in the
    /// enumeration; no, where the hand is shorter.
    pub fn card_is_at_position_hand(&self, position: usize, in_card: &usize) -> (found: bool)
        ensures
            found == (position < self@.hand.len() && card_index(self@.hand[position as int])
                == *in_card),
    {
        if position < self.hand.len() {
            return self.hand[position].index() == *in_card;
        }
        false
    }

    /// Whether the card at that position of the played pile has that index
    /// in the enumeration; no, where the pile is shorter.
    pub fn card_is_at_position_chosen_cards(&self, position: usize, in_card: &usize) -> (found:
        bool)
        ensures
            found == (position < self@.chosen.len() && card_index(self@.chosen[position as int])
                == *in_card),
    {
        if position < self.chosen_cards.len() {
            return self.chosen_cards[position].index() == *in_card;
        }
        false
    }

    /// A copy of the played pile.
    pub fn get_chosen_cards(&self) -> (chosen: Vec<Card>)
        ensures
            chosen@ == self@.chosen,
    {
        copy_cards(&self.chosen_cards)
    }

    /// The number of cards in the played pile.
    pub fn get_chosen_cards_size(&self) -> (size: usize)
        ensures
            size == self@.chosen.len(),
    {
        self.chosen_cards.len()
    }

    /// Empties the played pile.
    pub fn clear_chosen_cards(&mut self)
        ensures
            final(self)@ == (PlayerView { chosen: Seq::empty(), spent: 0, ..old(self)@ }),
            old(self)@.wf() ==> final(self)@.wf(),
    {
        self.chosen_cards.clear();
        self.spent_chopsticks = 0;
    }

    /// Takes the first such card out of the played pile and says whether
    /// there was one. Where chopsticks leave the pile while some are spent,
    /// one spent less is counted.
    pub fn remove_chosen_card(&mut self, card_to_remove: Card) -> (found: bool)
        ensures
            found == old(self)@.chosen.contains(card_to_remove),
            final(self)@ == (PlayerView {
                chosen: remove_first(old(self)@.chosen, card_to_remove),
                spent: if found && card_to_remove == Card::Chopsticks && old(self)@.spent > 0 {
                    (old(self)@.spent - 1) as nat
                } else {
                    old(self)@.spent
                },
                ..old(self)@
            }),
            old(self)@.wf() ==> final(self)@.wf(),
    {
        let at = position_of(&self.chosen_cards, card_to_remove);
        if at < self.chosen_cards.len() {
            proof {
                lemma_remove_first(self@.chosen, card_to_remove, Card::Chopsticks);
            }
            if card_to_remove == Card::Chopsticks && self.spent_chopsticks > 0 {
                self.spent_chopsticks = self.spent_chopsticks - 1;
            }
            self.chosen_cards.remove(at);
            return true;
        }
        false
    }

    /// The identity of the player.
    pub fn get_id(&self) -> (id: usize)
        ensures
            id == self@.id,
    {
        self.id
    }

    /// Closes a round for the player: the tally of the played pile is put
    /// behind the tallies of the earlier rounds.
    pub fn add_round_result(&mut self)
        requires
            old(self)@.chosen.len() <= MAX_TALLIED_CARDS,
        ensures
            final(self)@ == (PlayerView {
                rounds: old(self)@.rounds.push(tally_of(old(self)@.chosen)),
                ..old(self)@
            }),
            old(self)@.wf() ==> final(self)@.wf(),
    {
        let result = self.get_round_results();
        self.round_results.push(result);
    }

    /// The tally of the played pile, taken in one pass. A wasabi lifts the
    /// next nigiri played after it, and no other.
    pub fn get_round_results(&self) -> (result: SushiResult)
        requires
            self@.chosen.len() <= MAX_TALLIED_CARDS,
        ensures
            result == tally_of(self@.chosen),
            records(result, self@.chosen),
            result.wf(),
            result.wasabi_salmon_nigri_count + result.wasabi_egg_nigri_count
                + result.wasabi_squid_nigri_count <= count_of(self@.chosen, Card::Wasabi),
            result.salmon_nigri_count + result.wasabi_salmon_nigri_count == count_of(
                self@.chosen,
                Card::SalmonNigiri,
            ),
            result.egg_nigri_count + result.wasabi_egg_nigri_count == count_of(
                self@.chosen,
                Card::EggNigiri,
            ),
            result.squid_nigri_count + result.wasabi_squid_nigri_count == count_of(
                self@.chosen,
                Card::SquidNigiri,
            ),
    {
        let mut round_results = SushiResult::new();
        let mut has_wasabi = false;
        let mut i: usize = 0;
        while i < self.chosen_cards.len()
            invariant
                i <= self.chosen_cards@.len(),
                self.chosen_cards@.len() <= MAX_TALLIED_CARDS,
                records(round_results, self.chosen_cards@.take(i as int)),
                has_wasabi == wasabi_open(self.chosen_cards@.take(i as int)),
            decreases self.chosen_cards@.len() - i,
        {
            let ghost before = self.chosen_cards@.take(i as int);
            let ghost after = self.chosen_cards@.take(i + 1);
            proof {
                assert(after.drop_last() == before);
                assert(after.last() == self.chosen_cards@[i as int]);
                lemma_counts_bounded(after, Card::Pudding);
                lemma_counts_bounded(after, Card::Dumpling);
                lemma_counts_bounded(after, Card::Sashimi);
                lemma_counts_bounded(after, Card::Tempura);
                lemma_counts_bounded(after, Card::SalmonNigiri);
                lemma_counts_bounded(after, Card::EggNigiri);
                lemma_counts_bounded(after, Card::SquidNigiri);
            }
            let x = self.chosen_cards[i];
            match x {
                Card::Pudding => {
                    round_results.pudding_count = round_results.pudding_count + 1;
                },
                Card::Dumpling => {
                    round_results.dumpling_count = round_results.dumpling_count + 1;
                },
                Card::Sashimi => {
                    round_results.sashimi_count = round_results.sashimi_count + 1;
                },
                Card::Tempura => {
                    round_results.tempura_count = round_results.tempura_count + 1;
                },
                Card::MakiRoll1 => {
                    round_results.maki_roll_count = round_results.maki_roll_count + 1;
                },
                Card::MakiRoll2 => {
                    round_results.maki_roll_count = round_results.maki_roll_count + 2;
                },
                Card::MakiRoll3 => {
                    round_results.maki_roll_count = round_results.maki_roll_count + 3;
                },
                Card::Chopsticks => {},
                Card::SalmonNigiri => {
                    round_results.add_nigiri(&x, &mut has_wasabi);
                },
                Card::EggNigiri => {
                    round_results.add_nigiri(&x, &mut has_wasabi);
                },
                Card::SquidNigiri => {
                    round_results.add_nigiri(&x, &mut has_wasabi);
                },
                Card::Wasabi => {
                    has_wasabi = true;
                },
                Card::CardMax => {},
                Card::NoCard => {},
            }
            i = i + 1;
        }
        proof {
            assert(self.chosen_cards@.take(i as int) == self.chosen_cards@);
            lemma_tally_records(self@.chosen);
            lemma_wasabi_lifts_at_most_one(self@.chosen);
            lemma_counts_bounded(self@.chosen, Card::SalmonNigiri);
            lemma_counts_bounded(self@.chosen, Card::EggNigiri);
            lemma_counts_bounded(self@.chosen, Card::SquidNigiri);
        }
        round_results
    }

    /// The tally of a round that is over.
    pub fn get_round_result(&self, index: usize) -> (result: &SushiResult)
        requires
            index < self@.rounds.len(),
        ensures
            *result == self@.rounds[index as int],
    {
        &self.round_results[index]
    }

    /// Records the score the player ends the game with.
    pub fn set_final_score(&mut self, new_final_score: i32)
        ensures
            final(self)@ == (PlayerView { final_score: new_final_score, ..old(self)@ }),
    {
        self.final_score = new_final_score;
    }

    /// The score the player ended the game with; zero until it is recorded.
    pub fn get_final_score(&self) -> (score: i32)
        ensures
            score == self@.final_score,
    {
        self.final_score
    }
}

} // verus!

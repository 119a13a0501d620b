//! What a pile of played cards counts for: the tally that the scoring reads.

use vstd::prelude::*;
use crate::card::{is_nigiri, Card};

verus! {

/// The longest pile of played cards whose tally fits the counters: a maki
/// roll card adds up to three to one of them.
pub const MAX_TALLIED_CARDS: usize = 10922;

/// The counts of one player's played cards at the end of a round. The three
/// maki roll cards are added up by their rolls, and each nigiri is counted
/// either plain or under a wasabi.
#[derive(Clone, Copy, Debug, PartialEq, Eq, Structural)]
pub struct SushiResult {
    pub pudding_count: i16,
    pub dumpling_count: i16,
    pub sashimi_count: i16,
    pub tempura_count: i16,
    pub maki_roll_count: i16,
    pub salmon_nigri_count: i16,
    pub egg_nigri_count: i16,
    pub squid_nigri_count: i16,
    pub wasabi_salmon_nigri_count: i16,
    pub wasabi_egg_nigri_count: i16,
    pub wasabi_squid_nigri_count: i16,
}

/// How often `kind` occurs in `cards`.
pub open spec fn count_of(cards: Seq<Card>, kind: Card) -> nat
    decreases cards.len(),
{
    if cards.len() == 0 {
        0
    } else {
        count_of(cards.drop_last(), kind) + if cards.last() == kind {
            1nat
        } else {
            0nat
        }
    }
}

/// Whether a wasabi lies open at the end of `cards`: one was played and no
/// nigiri has followed it yet. A nigiri uses up the open wasabi, whatever
/// other cards lie between the two.
pub open spec fn wasabi_open(cards: Seq<Card>) -> bool
    decreases cards.len(),
{
    if cards.len() == 0 {
        false
    } else if cards.last() == Card::Wasabi {
        true
    } else if is_nigiri(cards.last()) {
        false
    } else {
        wasabi_open(cards.drop_last())
    }
}

/// How many cards of the nigiri `kind` in `cards` were played onto an open
/// wasabi.
pub open spec fn dipped_count(cards: Seq<Card>, kind: Card) -> nat
    decreases cards.len(),
{
    if cards.len() == 0 {
        0
    } else {
        dipped_count(cards.drop_last(), kind) + if cards.last() == kind && wasabi_open(
            cards.drop_last(),
        ) {
            1nat
        } else {
            0nat
        }
    }
}

/// How many cards of the nigiri `kind` in `cards` were played with no wasabi
/// open.
pub open spec fn plain_count(cards: Seq<Card>, kind: Card) -> nat
    decreases cards.len(),
{
    if cards.len() == 0 {
        0
    } else {
        plain_count(cards.drop_last(), kind) + if cards.last() == kind && !wasabi_open(
            cards.drop_last(),
        ) {
            1nat
        } else {
            0nat
        }
    }
}

/// The rolls on the maki cards of `cards`.
pub open spec fn maki_rolls(cards: Seq<Card>) -> nat {
    count_of(cards, Card::MakiRoll1) + 2 * count_of(cards, Card::MakiRoll2) + 3 * count_of(
        cards,
        Card::MakiRoll3,
    )
}

/// Whether `result` is the tally of the pile `cards`.
pub open spec fn records(result: SushiResult, cards: Seq<Card>) -> bool {
    &&& result.pudding_count == count_of(cards, Card::Pudding)
    &&& result.dumpling_count == count_of(cards, Card::Dumpling)
    &&& result.sashimi_count == count_of(cards, Card::Sashimi)
    &&& result.tempura_count == count_of(cards, Card::Tempura)
    &&& result.maki_roll_count == maki_rolls(cards)
    &&& result.salmon_nigri_count == plain_count(cards, Card::SalmonNigiri)
    &&& result.egg_nigri_count == plain_count(cards, Card::EggNigiri)
    &&& result.squid_nigri_count == plain_count(cards, Card::SquidNigiri)
    &&& result.wasabi_salmon_nigri_count == dipped_count(cards, Card::SalmonNigiri)
    &&& result.wasabi_egg_nigri_count == dipped_count(cards, Card::EggNigiri)
    &&& result.wasabi_squid_nigri_count == dipped_count(cards, Card::SquidNigiri)
}

/// The tally of the pile `cards`, for a pile of at most
/// `MAX_TALLIED_CARDS` cards.
pub open spec fn tally_of(cards: Seq<Card>) -> SushiResult {
    SushiResult {
        pudding_count: count_of(cards, Card::Pudding) as i16,
        dumpling_count: count_of(cards, Card::Dumpling) as i16,
        sashimi_count: count_of(cards, Card::Sashimi) as i16,
        tempura_count: count_of(cards, Card::Tempura) as i16,
        maki_roll_count: maki_rolls(cards) as i16,
        salmon_nigri_count: plain_count(cards, Card::SalmonNigiri) as i16,
        egg_nigri_count: plain_count(cards, Card::EggNigiri) as i16,
        squid_nigri_count: plain_count(cards, Card::SquidNigiri) as i16,
        wasabi_salmon_nigri_count: dipped_count(cards, Card::SalmonNigiri) as i16,
        wasabi_egg_nigri_count: dipped_count(cards, Card::EggNigiri) as i16,
        wasabi_squid_nigri_count: dipped_count(cards, Card::SquidNigiri) as i16,
    }
}

impl SushiResult {
    /// No counter is negative.
    pub open spec fn wf(self) -> bool {
        &&& self.pudding_count >= 0
        &&& self.dumpling_count >= 0
        &&& self.sashimi_count >= 0
        &&& self.tempura_count >= 0
        &&& self.maki_roll_count >= 0
        &&& self.salmon_nigri_count >= 0
        &&& self.egg_nigri_count >= 0
        &&& self.squid_nigri_count >= 0
        &&& self.wasabi_salmon_nigri_count >= 0
        &&& self.wasabi_egg_nigri_count >= 0
        &&& self.wasabi_squid_nigri_count >= 0
    }

    /// The tally of an empty pile.
    pub fn new() -> (result: SushiResult)
        ensures
            result == tally_of(Seq::<Card>::empty()),
            records(result, Seq::<Card>::empty()),
    {
        SushiResult {
            pudding_count: 0,
            dumpling_count: 0,
            sashimi_count: 0,
            tempura_count: 0,
            maki_roll_count: 0,
            salmon_nigri_count: 0,
            egg_nigri_count: 0,
            squid_nigri_count: 0,
            wasabi_salmon_nigri_count: 0,
            wasabi_egg_nigri_count: 0,
            wasabi_squid_nigri_count: 0,
        }
    }

    /// The rolls on the player's maki cards.
    pub fn get_maki_roll_count(&self) -> (count: i16)
        ensures
            count == self.maki_roll_count,
    {
        self.maki_roll_count
    }

    /// Counts one nigiri: under the wasabi if one lies open, which is then
    /// used up, and plain if none does. A card that is no nigiri is not
    /// counted, but uses up an open wasabi all the same.
    pub fn add_nigiri(&mut self, nigiri: &Card, has_wasabi: &mut bool)
        requires
            *old(has_wasabi) && *nigiri == Card::SalmonNigiri ==> old(
                self,
            ).wasabi_salmon_nigri_count < i16::MAX,
            *old(has_wasabi) && *nigiri == Card::EggNigiri ==> old(self).wasabi_egg_nigri_count
                < i16::MAX,
            *old(has_wasabi) && *nigiri == Card::SquidNigiri ==> old(
                self,
            ).wasabi_squid_nigri_count < i16::MAX,
            !*old(has_wasabi) && *nigiri == Card::SalmonNigiri ==> old(self).salmon_nigri_count
                < i16::MAX,
            !*old(has_wasabi) && *nigiri == Card::EggNigiri ==> old(self).egg_nigri_count
                < i16::MAX,
            !*old(has_wasabi) && *nigiri == Card::SquidNigiri ==> old(self).squid_nigri_count
                < i16::MAX,
        ensures
            *final(has_wasabi) == false,
            *final(self) == nigiri_added(*old(self), *nigiri, *old(has_wasabi)),
    {
        if *has_wasabi {
            match nigiri {
                Card::SalmonNigiri => {
                    self.wasabi_salmon_nigri_count = self.wasabi_salmon_nigri_count + 1;
                },
                Card::EggNigiri => {
                    self.wasabi_egg_nigri_count = self.wasabi_egg_nigri_count + 1;
                },
                Card::SquidNigiri => {
                    self.wasabi_squid_nigri_count = self.wasabi_squid_nigri_count + 1;
                },
                _ => {},
            }
            *has_wasabi = false;
        } else {
            match nigiri {
                Card::SalmonNigiri => {
                    self.salmon_nigri_count = self.salmon_nigri_count + 1;
                },
                Card::EggNigiri => {
                    self.egg_nigri_count = self.egg_nigri_count + 1;
                },
                Card::SquidNigiri => {
                    self.squid_nigri_count = self.squid_nigri_count + 1;
                },
                _ => {},
            }
        }
    }
}

/// The tally `before` with one more nigiri counted, under the wasabi or
/// plain. A card that is no nigiri leaves it as it was.
pub open spec fn nigiri_added(before: SushiResult, nigiri: Card, has_wasabi: bool) -> SushiResult {
    if has_wasabi {
        match nigiri {
            Card::SalmonNigiri => SushiResult {
                wasabi_salmon_nigri_count: (before.wasabi_salmon_nigri_count + 1) as i16,
                ..before
            },
            Card::EggNigiri => SushiResult {
                wasabi_egg_nigri_count: (before.wasabi_egg_nigri_count + 1) as i16,
                ..before
            },
            Card::SquidNigiri => SushiResult {
                wasabi_squid_nigri_count: (before.wasabi_squid_nigri_count + 1) as i16,
                ..before
            },
            _ => before,
        }
    } else {
        match nigiri {
            Card::SalmonNigiri => SushiResult {
                salmon_nigri_count: (before.salmon_nigri_count + 1) as i16,
                ..before
            },
            Card::EggNigiri => SushiResult {
                egg_nigri_count: (before.egg_nigri_count + 1) as i16,
                ..before
            },
            Card::SquidNigiri => SushiResult {
                squid_nigri_count: (before.squid_nigri_count + 1) as i16,
                ..before
            },
            _ => before,
        }
    }
}

/// How many nigiri of all three kinds in `cards` were played onto an open
/// wasabi.
pub open spec fn dipped_total(cards: Seq<Card>) -> nat {
    dipped_count(cards, Card::SalmonNigiri) + dipped_count(cards, Card::EggNigiri) + dipped_count(
        cards,
        Card::SquidNigiri,
    )
}

/// No count exceeds the length of the pile, and the rolls are at most three
/// to a card.
pub proof fn lemma_counts_bounded(cards: Seq<Card>, kind: Card)
    ensures
        count_of(cards, kind) <= cards.len(),
        plain_count(cards, kind) + dipped_count(cards, kind) <= cards.len(),
        is_nigiri(kind) ==> plain_count(cards, kind) + dipped_count(cards, kind) == count_of(
            cards,
            kind,
        ),
        maki_rolls(cards) <= 3 * cards.len(),
    decreases cards.len(),
{
    if cards.len() > 0 {
        lemma_counts_bounded(cards.drop_last(), kind);
        lemma_maki_rolls_bounded(cards);
    }
}

proof fn lemma_maki_rolls_bounded(cards: Seq<Card>)
    ensures
        maki_rolls(cards) <= 3 * cards.len(),
    decreases cards.len(),
{
    if cards.len() > 0 {
        lemma_maki_rolls_bounded(cards.drop_last());
    }
}

/// A pile that fits the counters has a tally that records it, with no counter
/// negative.
pub proof fn lemma_tally_records(cards: Seq<Card>)
    requires
        cards.len() <= MAX_TALLIED_CARDS,
    ensures
        records(tally_of(cards), cards),
        tally_of(cards).wf(),
        forall|r: SushiResult| records(r, cards) ==> r == tally_of(cards),
{
    lemma_counts_bounded(cards, Card::Pudding);
    lemma_counts_bounded(cards, Card::Dumpling);
    lemma_counts_bounded(cards, Card::Sashimi);
    lemma_counts_bounded(cards, Card::Tempura);
    lemma_counts_bounded(cards, Card::SalmonNigiri);
    lemma_counts_bounded(cards, Card::EggNigiri);
    lemma_counts_bounded(cards, Card::SquidNigiri);
}

/// A wasabi lifts at most one nigiri: the nigiri counted under a wasabi,
/// together with the wasabi that may still lie open, are never more than the
/// wasabi cards played.
pub proof fn lemma_wasabi_lifts_at_most_one(cards: Seq<Card>)
    ensures
        dipped_total(cards) + (if wasabi_open(cards) {
            1nat
        } else {
            0nat
        }) <= count_of(cards, Card::Wasabi),
    decreases cards.len(),
{
    if cards.len() > 0 {
        lemma_wasabi_lifts_at_most_one(cards.drop_last());
    }
}

/// Whether the wasabi at position `w` of `cards` still lies open at the end
/// of `cards`: no nigiri was played after it.
pub open spec fn open_since(cards: Seq<Card>, w: int) -> bool {
    &&& 0 <= w < cards.len()
    &&& cards[w] == Card::Wasabi
    &&& forall|j: int| w < j < cards.len() ==> !is_nigiri(#[trigger] cards[j])
}

/// A wasabi lies open exactly where a wasabi was played and no nigiri since.
/// So the nigiri at a position is counted under a wasabi only if a wasabi
/// lies before it with no other nigiri between the two: `dipped_count` counts
/// the nigiri at position `i` exactly when `wasabi_open(cards.take(i))`.
pub proof fn lemma_wasabi_open_means(cards: Seq<Card>)
    ensures
        wasabi_open(cards) <==> exists|w: int| #[trigger] open_since(cards, w),
    decreases cards.len(),
{
    if cards.len() > 0 {
        let init = cards.drop_last();
        let last = cards.len() - 1;
        lemma_wasabi_open_means(init);
        if cards.last() == Card::Wasabi {
            assert(open_since(cards, last));
        } else if is_nigiri(cards.last()) {
            assert forall|w: int| !#[trigger] open_since(cards, w) by {
                if 0 <= w < cards.len() && cards[w] == Card::Wasabi {
                    assert(is_nigiri(cards[last]));
                }
            }
        } else {
            if wasabi_open(init) {
                let w = choose|w: int| #[trigger] open_since(init, w);
                assert forall|j: int| w < j < cards.len() implies !is_nigiri(
                    #[trigger] cards[j],
                ) by {
                    if j < last {
                        assert(init[j] == cards[j]);
                    }
                }
                assert(cards[w] == init[w]);
                assert(open_since(cards, w));
            }
            if exists|w: int| #[trigger] open_since(cards, w) {
                let w = choose|w: int| #[trigger] open_since(cards, w);
                assert(w < last);
                assert forall|j: int| w < j < init.len() implies !is_nigiri(
                    #[trigger] init[j],
                ) by {
                    assert(init[j] == cards[j]);
                }
                assert(init[w] == cards[w]);
                assert(open_since(init, w));
            }
        }
    }
}

/// Of two nigiri played right after one wasabi, the first is counted under
/// the wasabi and the second plain, whatever was played before.
pub proof fn lemma_second_nigiri_is_plain(cards: Seq<Card>, first: Card, second: Card)
    requires
        is_nigiri(first),
        is_nigiri(second),
    ensures
        ({
            let pile = cards.push(Card::Wasabi).push(first).push(second);
            &&& dipped_total(pile) == dipped_total(cards) + 1
            &&& dipped_count(pile, first) == dipped_count(cards, first) + 1
            &&& plain_count(pile, second) == plain_count(cards, second) + 1
            &&& !wasabi_open(pile)
        }),
{
    let a = cards.push(Card::Wasabi);
    let b = a.push(first);
    let c = b.push(second);
    assert(a.drop_last() == cards);
    assert(b.drop_last() == a);
    assert(c.drop_last() == b);
    assert(wasabi_open(a));
    assert(!wasabi_open(b));
    assert forall|kind: Card| is_nigiri(kind) implies #[trigger] dipped_count(c, kind)
        == dipped_count(cards, kind) + if kind == first {
        1nat
    } else {
        0nat
    } by {
        assert(dipped_count(a, kind) == dipped_count(cards, kind));
        assert(dipped_count(b, kind) == dipped_count(a, kind) + if kind == first {
            1nat
        } else {
            0nat
        });
        assert(dipped_count(c, kind) == dipped_count(b, kind));
    }
    assert(is_nigiri(Card::SalmonNigiri) && is_nigiri(Card::EggNigiri) && is_nigiri(
        Card::SquidNigiri,
    ));
    assert(plain_count(a, second) == plain_count(cards, second));
    assert(plain_count(b, second) == plain_count(a, second));
    assert(plain_count(c, second) == plain_count(b, second) + 1);
}

} // verus!

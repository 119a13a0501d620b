//! Ordered piles of cards: finding, removing and counting.

use vstd::prelude::*;
use crate::card::Card;
use crate::tally::count_of;

verus! {

/// The position of the first `kind` in `cards`, or the length of `cards`
/// where there is none.
pub open spec fn first_index(cards: Seq<Card>, kind: Card) -> int
    decreases cards.len(),
{
    if cards.len() == 0 {
        0
    } else if cards[0] == kind {
        0
    } else {
        1 + first_index(cards.skip(1), kind)
    }
}

/// `cards` without its first `kind`; `cards` itself where there is none.
pub open spec fn remove_first(cards: Seq<Card>, kind: Card) -> Seq<Card> {
    if cards.contains(kind) {
        cards.remove(first_index(cards, kind))
    } else {
        cards
    }
}

/// `cards` without any `kind`, the others in their order.
pub open spec fn without(cards: Seq<Card>, kind: Card) -> Seq<Card>
    decreases cards.len(),
{
    if cards.len() == 0 {
        cards
    } else if cards.last() == kind {
        without(cards.drop_last(), kind)
    } else {
        without(cards.drop_last(), kind).push(cards.last())
    }
}

/// `first_index` is where the first `kind` lies.
pub proof fn lemma_first_index(cards: Seq<Card>, kind: Card)
    ensures
        0 <= first_index(cards, kind) <= cards.len(),
        first_index(cards, kind) < cards.len() <==> cards.contains(kind),
        first_index(cards, kind) < cards.len() ==> cards[first_index(cards, kind)] == kind,
        forall|j: int| 0 <= j < first_index(cards, kind) ==> cards[j] != kind,
    decreases cards.len(),
{
    if cards.len() == 0 {
    } else if cards[0] == kind {
    } else {
        let rest = cards.skip(1);
        lemma_first_index(rest, kind);
        let f = first_index(rest, kind);
        if f < rest.len() {
            assert(cards[f + 1] == rest[f]);
        }
        if cards.contains(kind) {
            let i = choose|i: int| 0 <= i < cards.len() && cards[i] == kind;
            assert(rest[i - 1] == kind);
        }
        assert forall|j: int| 0 <= j < 1 + f implies cards[j] != kind by {
            if j > 0 {
                assert(rest[j - 1] == cards[j]);
            }
        }
    }
}

/// A position that holds `kind` with no `kind` before it is the first index.
pub proof fn lemma_first_index_is(cards: Seq<Card>, kind: Card, i: int)
    requires
        0 <= i < cards.len(),
        cards[i] == kind,
        forall|j: int| 0 <= j < i ==> cards[j] != kind,
    ensures
        first_index(cards, kind) == i,
        cards.contains(kind),
        remove_first(cards, kind) == cards.remove(i),
{
    lemma_first_index(cards, kind);
}

/// Counting after a card is put on top of the pile.
pub proof fn lemma_count_push(cards: Seq<Card>, card: Card, kind: Card)
    ensures
        count_of(cards.push(card), kind) == count_of(cards, kind) + if card == kind {
            1nat
        } else {
            0nat
        },
{
    assert(cards.push(card).drop_last() == cards);
}

/// Counting after the card at position `i` is taken out of the pile.
pub proof fn lemma_count_remove(cards: Seq<Card>, i: int, kind: Card)
    requires
        0 <= i < cards.len(),
    ensures
        count_of(cards.remove(i), kind) + (if cards[i] == kind {
            1nat
        } else {
            0nat
        }) == count_of(cards, kind),
    decreases cards.len(),
{
    if i == cards.len() - 1 {
        assert(cards.remove(i) == cards.drop_last());
    } else {
        lemma_count_remove(cards.drop_last(), i, kind);
        assert(cards.remove(i).drop_last() == cards.drop_last().remove(i));
        assert(cards.remove(i).last() == cards.last());
    }
}

/// A pile holds a kind exactly when it counts at least one of it.
pub proof fn lemma_count_contains(cards: Seq<Card>, kind: Card)
    ensures
        cards.contains(kind) <==> count_of(cards, kind) > 0,
    decreases cards.len(),
{
    if cards.len() > 0 {
        lemma_count_contains(cards.drop_last(), kind);
        if cards.contains(kind) && cards.last() != kind {
            let i = choose|i: int| 0 <= i < cards.len() && cards[i] == kind;
            assert(cards.drop_last()[i] == kind);
        }
        if cards.drop_last().contains(kind) {
            let i = choose|i: int| 0 <= i < cards.drop_last().len() && cards.drop_last()[i] == kind;
            assert(cards[i] == kind);
        }
    }
}

/// Taking the first `kind` out of a pile that holds one makes the pile one
/// card shorter, takes one from the count of `kind` and leaves the other
/// counts.
pub proof fn lemma_remove_first(cards: Seq<Card>, kind: Card, other: Card)
    requires
        cards.contains(kind),
    ensures
        remove_first(cards, kind).len() == cards.len() - 1,
        count_of(remove_first(cards, kind), other) + (if other == kind {
            1nat
        } else {
            0nat
        }) == count_of(cards, other),
{
    lemma_first_index(cards, kind);
    lemma_count_remove(cards, first_index(cards, kind), other);
}

/// A pile that counts fewer of a kind than it holds cards holds a card of
/// another kind.
pub proof fn lemma_holds_another(cards: Seq<Card>, kind: Card)
    requires
        count_of(cards, kind) < cards.len(),
    ensures
        exists|i: int| 0 <= i < cards.len() && cards[i] != kind,
    decreases cards.len(),
{
    if cards.last() == kind {
        lemma_holds_another(cards.drop_last(), kind);
        let i = choose|i: int| 0 <= i < cards.drop_last().len() && cards.drop_last()[i] != kind;
        assert(cards[i] != kind);
    } else {
        assert(cards[cards.len() - 1] != kind);
    }
}

/// What `without` leaves: no card of the kind, every other count as it was,
/// and the pile itself where it held none.
pub proof fn lemma_without(cards: Seq<Card>, kind: Card, other: Card)
    ensures
        !without(cards, kind).contains(kind),
        count_of(without(cards, kind), kind) == 0,
        other != kind ==> count_of(without(cards, kind), other) == count_of(cards, other),
        without(cards, kind).len() + count_of(cards, kind) == cards.len(),
        !cards.contains(kind) ==> without(cards, kind) == cards,
    decreases cards.len(),
{
    if cards.len() > 0 {
        let init = cards.drop_last();
        lemma_without(init, kind, other);
        let w = without(init, kind);
        if cards.last() != kind {
            lemma_count_push(w, cards.last(), kind);
            lemma_count_push(w, cards.last(), other);
            if !cards.contains(kind) {
                if init.contains(kind) {
                    let i = choose|i: int| 0 <= i < init.len() && init[i] == kind;
                    assert(cards[i] == kind);
                }
                assert(init.push(cards.last()) == cards);
            }
        } else {
            assert(cards[cards.len() - 1] == kind);
        }
        lemma_count_contains(without(cards, kind), kind);
    }
}

/// The position of the first `kind` in `cards`, or the length of `cards`
/// where there is none.
pub fn position_of(cards: &Vec<Card>, kind: Card) -> (at: usize)
    ensures
        at == first_index(cards@, kind),
        at <= cards@.len(),
        at < cards@.len() <==> cards@.contains(kind),
{
    proof {
        lemma_first_index(cards@, kind);
    }
    let mut i: usize = 0;
    while i < cards.len()
        invariant
            i <= cards@.len(),
            forall|j: int| 0 <= j < i ==> cards@[j] != kind,
        decreases cards@.len() - i,
    {
        if cards[i] == kind {
            proof {
                lemma_first_index_is(cards@, kind, i as int);
            }
            return i;
        }
        i = i + 1;
    }
    i
}

/// How often `kind` occurs in `cards`.
pub fn count_cards(cards: &Vec<Card>, kind: Card) -> (count: usize)
    ensures
        count == count_of(cards@, kind),
        count <= cards@.len(),
{
    let mut count: usize = 0;
    let mut i: usize = 0;
    while i < cards.len()
        invariant
            i <= cards@.len(),
            count == count_of(cards@.take(i as int), kind),
            count <= i,
        decreases cards@.len() - i,
    {
        proof {
            assert(cards@.take(i + 1).drop_last() == cards@.take(i as int));
        }
        if cards[i] == kind {
            count = count + 1;
        }
        i = i + 1;
    }
    proof {
        assert(cards@.take(i as int) == cards@);
    }
    count
}

/// A copy of the pile.
pub fn copy_cards(cards: &Vec<Card>) -> (copy: Vec<Card>)
    ensures
        copy@ == cards@,
{
    let mut copy: Vec<Card> = Vec::new();
    let mut i: usize = 0;
    while i < cards.len()
        invariant
            i <= cards@.len(),
            copy@ == cards@.take(i as int),
        decreases cards@.len() - i,
    {
        copy.push(cards[i]);
        proof {
            assert(cards@.take(i + 1) == cards@.take(i as int).push(cards@[i as int]));
        }
        i = i + 1;
    }
    proof {
        assert(cards@.take(i as int) == cards@);
    }
    copy
}

} // verus!

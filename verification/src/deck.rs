//! Deck lists (slug and count) that a client brings along when it subscribes.

use vstd::prelude::*;

verus! {

/// A deck list: slug and count per line.
#[derive(Debug, Clone, PartialEq, Eq)]
pub struct DeckList {
    /// Display name (optional).
    pub name: Option<String>,
    /// Card lines.
    pub cards: Vec<DeckEntry>,
}

/// One line of a deck list.
#[derive(Debug, Clone, PartialEq, Eq)]
pub struct DeckEntry {
    pub slug: String,
    pub count: u8,
}

/// Sum of the counts of `cards`.
pub open spec fn counts_sum(cards: Seq<DeckEntry>) -> nat
    decreases cards.len(),
{
    if cards.len() == 0 {
        0
    } else {
        counts_sum(cards.drop_last()) + cards.last().count as nat
    }
}

impl DeckList {
    /// Total number of cards declared.
    pub fn total(&self) -> (r: usize)
        requires
            counts_sum(self.cards@) <= usize::MAX,
        ensures
            r == counts_sum(self.cards@),
    {
        let mut sum: usize = 0;
        let mut i: usize = 0;
        while i < self.cards.len()
            invariant
                i <= self.cards@.len(),
                sum == counts_sum(self.cards@.take(i as int)),
                counts_sum(self.cards@) <= usize::MAX,
            decreases self.cards.len() - i,
        {
            proof {
                assert(self.cards@.take(i + 1).drop_last() =~= self.cards@.take(i as int));
                lemma_counts_sum_prefix_le(self.cards@, i + 1);
            }
            sum = sum + self.cards[i].count as usize;
            i = i + 1;
        }
        proof {
            assert(self.cards@.take(i as int) =~= self.cards@);
        }
        sum
    }
}

/// A prefix never sums to more than the whole.
pub proof fn lemma_counts_sum_prefix_le(cards: Seq<DeckEntry>, k: int)
    requires
        0 <= k <= cards.len(),
    ensures
        counts_sum(cards.take(k)) <= counts_sum(cards),
    decreases cards.len() - k,
{
    if k < cards.len() {
        lemma_counts_sum_prefix_le(cards, k + 1);
        assert(cards.take(k + 1).drop_last() =~= cards.take(k));
    } else {
        assert(cards.take(k) =~= cards);
    }
}

} // verus!

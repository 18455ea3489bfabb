//! Entropy as a value: the words that the caller gathered, handed out once
//! each and in order.

use vstd::prelude::*;

verus! {

/// A supply of random words. The library draws from it and never fills it:
/// where the words come from is the caller's affair.
pub struct EntropyPool {
    words: Vec<u64>,
    next: usize,
}

impl View for EntropyPool {
    type V = Seq<u64>;

    /// The words not yet drawn, next first.
    closed spec fn view(&self) -> Seq<u64> {
        if self.next <= self.words@.len() {
            self.words@.skip(self.next as int)
        } else {
            Seq::empty()
        }
    }
}

impl EntropyPool {
    /// A pool that hands out `words` from the first to the last.
    pub fn new(words: Vec<u64>) -> (pool: EntropyPool)
        ensures
            pool@ == words@,
    {
        let pool = EntropyPool { words, next: 0 };
        assert(pool@ =~= words@);
        pool
    }

    /// How many words are left.
    pub fn available(&self) -> (n: usize)
        ensures
            n == self@.len(),
    {
        if self.next <= self.words.len() {
            self.words.len() - self.next
        } else {
            0
        }
    }

    /// Takes the next word, or `None` from an empty pool.
    pub fn draw(&mut self) -> (word: Option<u64>)
        ensures
            match word {
                Some(w) => old(self)@.len() > 0 && w == old(self)@[0] && final(self)@ == old(
                    self,
                )@.skip(1),
                None => old(self)@.len() == 0 && final(self)@ == old(self)@,
            },
    {
        if self.next < self.words.len() {
            let w = self.words[self.next];
            self.next = self.next + 1;
            assert(self@ =~= old(self)@.skip(1));
            Some(w)
        } else {
            None
        }
    }
}

} // verus!

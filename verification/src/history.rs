//! The hashes of the positions on the current game path, for repetition detection.
use vstd::prelude::*;
use crate::chess::Chess;

verus! {

#[derive(Clone, Debug, PartialEq, Eq)]
pub struct History {
    positions: Vec<u64>,
}

/// How often `h` occurs in `s`.
pub open spec fn occurrences(s: Seq<u64>, h: u64) -> nat
    decreases s.len(),
{
    if s.len() == 0 {
        0
    } else {
        occurrences(s.drop_last(), h) + if s.last() == h { 1nat } else { 0nat }
    }
}

/// The last `n` entries of `s` (all of `s` when it is shorter).
pub open spec fn last_n(s: Seq<u64>, n: nat) -> Seq<u64> {
    if n >= s.len() {
        s
    } else {
        s.subrange(s.len() - n, s.len() as int)
    }
}

impl View for History {
    type V = Seq<u64>;

    closed spec fn view(&self) -> Seq<u64> {
        self.positions@
    }
}

impl History {
    pub fn new() -> (r: Self)
        ensures
            r@ == Seq::<u64>::empty(),
    {
        Self { positions: Vec::new() }
    }

    pub fn push(&mut self, hash: u64)
        ensures
            final(self)@ == old(self)@.push(hash),
    {
        self.positions.push(hash);
    }

    /// Removes the latest hash, if there is one.
    pub fn pop(&mut self)
        ensures
            old(self)@.len() > 0 ==> final(self)@ == old(self)@.drop_last(),
            old(self)@.len() == 0 ==> final(self)@ == old(self)@,
    {
        self.positions.pop();
    }

    /// Removes and returns the latest hash.
    pub fn pop_last(&mut self) -> (r: Option<u64>)
        ensures
            old(self)@.len() > 0 ==> final(self)@ == old(self)@.drop_last() && r == Some(old(self)@.last()),
            old(self)@.len() == 0 ==> final(self)@ == old(self)@ && r is None,
    {
        self.positions.pop()
    }

    pub fn len(&self) -> (r: usize)
        ensures
            r == self@.len(),
    {
        self.positions.len()
    }

    /// A copy with the same hashes.
    pub fn copy(&self) -> (r: History)
        ensures
            r@ == self@,
    {
        let v = self.positions.clone();
        assert(v@ =~= self.positions@);
        History { positions: v }
    }

    /// The board's hash occurs at least twice among the last `halfmove_clock` entries
    /// (the positions since the last capture or pawn move).
    pub fn is_repetition(&self, board: &Chess) -> (r: bool)
        ensures
            r == (occurrences(last_n(self@, board.halfmove_clock as nat), board.hash) >= 2),
    {
        let n = self.positions.len();
        let take = if board.halfmove_clock < n {
            board.halfmove_clock
        } else {
            n
        };
        let ghost s = last_n(self@, board.halfmove_clock as nat);
        assert(s =~= self.positions@.subrange(n - take, n as int));
        let mut count: usize = 0;
        let mut i: usize = n;
        while i > n - take
            invariant
                n == self.positions@.len(),
                take <= n,
                n - take <= i <= n,
                s == self.positions@.subrange(n - take, n as int),
                count + occurrences(self.positions@.subrange(n - take, i as int), board.hash)
                    == occurrences(s, board.hash),
                count <= n - i,
            decreases i,
        {
            let ghost pre = self.positions@.subrange(n - take, i as int);
            assert(pre.drop_last() =~= self.positions@.subrange(n - take, i - 1));
            if self.positions[i - 1] == board.hash {
                count = count + 1;
            }
            i = i - 1;
        }
        assert(self.positions@.subrange(n - take, i as int) =~= Seq::<u64>::empty());
        count >= 2
    }
}

} // verus!

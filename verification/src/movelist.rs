//! A growing list of moves, with an ordering by keys.
use vstd::prelude::*;
use vstd::seq_lib::to_multiset_update;
use crate::apply_undo_move::Move;

verus! {

pub struct MoveList {
    moves: Vec<Move>,
}

impl View for MoveList {
    type V = Seq<Move>;

    closed spec fn view(&self) -> Seq<Move> {
        self.moves@
    }
}

/// Each move with its key.
pub open spec fn paired(moves: Seq<Move>, keys: Seq<i32>) -> Seq<(Move, i32)> {
    Seq::new(moves.len(), |i: int| (moves[i], keys[i]))
}

/// Keys in non-increasing order.
pub open spec fn descending(keys: Seq<i32>) -> bool {
    forall|a: int, b: int| 0 <= a < b < keys.len() ==> keys[a] >= keys[b]
}

/// `x` placed into `s` after its last entry, passing backwards over the entries whose key is
/// below that of `x`: the step of an insertion sort, highest key first.
pub open spec fn insert_desc(s: Seq<(Move, i32)>, x: (Move, i32)) -> Seq<(Move, i32)>
    decreases s.len(),
{
    if s.len() == 0 || s.last().1 >= x.1 {
        s.push(x)
    } else {
        insert_desc(s.drop_last(), x).push(s.last())
    }
}

/// The stable sort of `s` by key, highest first: entries with equal keys keep their order.
pub open spec fn stable_sort_desc(s: Seq<(Move, i32)>) -> Seq<(Move, i32)>
    decreases s.len(),
{
    if s.len() == 0 {
        s
    } else {
        insert_desc(stable_sort_desc(s.drop_last()), s.last())
    }
}

proof fn lemma_swap_multiset(s: Seq<(Move, i32)>, i: int, j: int)
    requires
        0 <= i < s.len(),
        0 <= j < s.len(),
    ensures
        s.update(i, s[j]).update(j, s[i]).to_multiset() == s.to_multiset(),
{
    broadcast use vstd::multiset::group_multiset_axioms;
    if i != j {
        let t = s.update(i, s[j]);
        to_multiset_update(s, i, s[j]);
        to_multiset_update(t, j, s[i]);
        vstd::seq_lib::to_multiset_contains(s, s[i]);
        assert(s.contains(s[i]));
        assert(t[j] == s[j]);
        let m = s.to_multiset();
        assert(m.count(s[i]) > 0);
        assert(m.insert(s[j]).remove(s[i]).insert(s[i]).remove(s[j]) =~= m);
    } else {
        assert(s.update(i, s[j]).update(j, s[i]) =~= s);
    }
}

impl MoveList {
    pub fn new() -> (r: Self)
        ensures
            r@ == Seq::<Move>::empty(),
    {
        MoveList { moves: Vec::new() }
    }

    pub fn clear(&mut self)
        ensures
            final(self)@ == Seq::<Move>::empty(),
    {
        self.moves.clear();
    }

    pub fn push(&mut self, m: Move)
        ensures
            final(self)@ == old(self)@.push(m),
    {
        self.moves.push(m);
    }

    pub fn len(&self) -> (r: usize)
        ensures
            r == self@.len(),
    {
        self.moves.len()
    }

    pub fn is_empty(&self) -> (r: bool)
        ensures
            r == (self@.len() == 0),
    {
        self.moves.len() == 0
    }

    pub fn as_slice(&self) -> (r: &[Move])
        ensures
            r@ == self@,
    {
        self.moves.as_slice()
    }

    pub fn get(&self, index: usize) -> (r: &Move)
        requires
            index < self@.len(),
        ensures
            *r == self@[index as int],
    {
        &self.moves[index]
    }

    /// Exchanges the moves at `i` and `j`.
    pub fn swap(&mut self, i: usize, j: usize)
        requires
            i < old(self)@.len(),
            j < old(self)@.len(),
        ensures
            final(self)@ == old(self)@.update(i as int, old(self)@[j as int]).update(j as int, old(self)@[i as int]),
    {
        let a = self.moves[i];
        let b = self.moves[j];
        self.moves.set(i, b);
        self.moves.set(j, a);
    }

    /// Keeps the first `new_len` moves.
    pub fn truncate(&mut self, new_len: usize)
        requires
            new_len <= old(self)@.len(),
        ensures
            final(self)@ == old(self)@.subrange(0, new_len as int),
    {
        self.moves.truncate(new_len);
    }

    /// The moves, as a vector.
    pub fn into_vec(self) -> (r: Vec<Move>)
        ensures
            r@ == self@,
    {
        self.moves
    }

    /// Orders the moves by their keys, highest first; `keys[i]` is the key of the move at `i`
    /// and moves with it.
    pub fn sort_by(&mut self, keys: &mut Vec<i32>)
        requires
            old(keys)@.len() == old(self)@.len(),
        ensures
            final(keys)@.len() == final(self)@.len(),
            paired(final(self)@, final(keys)@).to_multiset() == paired(old(self)@, old(keys)@).to_multiset(),
            descending(final(keys)@),
            paired(final(self)@, final(keys)@) == stable_sort_desc(paired(old(self)@, old(keys)@)),
    {
        let n = self.moves.len();
        let ghost start = paired(self@, keys@);
        if n == 0 {
            proof {
                assert(start =~= Seq::<(Move, i32)>::empty());
            }
            return;
        }
        proof {
            assert(start.subrange(0, 1).drop_last() =~= start.subrange(0, 0));
            assert(stable_sort_desc(start.subrange(0, 0)) =~= Seq::<(Move, i32)>::empty());
            assert(paired(self@, keys@).subrange(0, 1) =~= stable_sort_desc(start.subrange(0, 1)));
        }
        let mut i: usize = 1;
        while i < n
            invariant
                n == self.moves@.len(),
                keys@.len() == n,
                start.len() == n,
                paired(self@, keys@).to_multiset() == start.to_multiset(),
                n > 0 ==> 1 <= i <= n,
                forall|a: int, b: int| 0 <= a < b < i ==> keys@[a] >= keys@[b],
                paired(self@, keys@).subrange(0, i as int) == stable_sort_desc(start.subrange(0, i as int)),
                paired(self@, keys@).subrange(i as int, n as int) == start.subrange(i as int, n as int),
            decreases n - i,
        {
            let ghost sorted = paired(self@, keys@).subrange(0, i as int);
            let ghost x = start[i as int];
            proof {
                assert(paired(self@, keys@)[i as int] == paired(self@, keys@).subrange(i as int, n as int)[0]);
                assert(paired(self@, keys@)[i as int] == x);
            }
            proof {
                assert(sorted.subrange(0, i as int) =~= sorted);
                assert(insert_desc(sorted, x) + sorted.subrange(i as int, i as int) =~= insert_desc(sorted, x));
                assert(paired(self@, keys@).subrange(i + 1, n as int) =~= start.subrange(i + 1, n as int)) by {
                    assert forall|k: int| 0 <= k < n - i - 1 implies #[trigger] paired(self@, keys@).subrange(i + 1, n as int)[k]
                        == start.subrange(i + 1, n as int)[k] by {
                        assert(paired(self@, keys@).subrange(i as int, n as int)[k + 1] == start.subrange(
                            i as int,
                            n as int,
                        )[k + 1]);
                    }
                }
                assert forall|k: int| 0 <= k < i implies #[trigger] paired(self@, keys@)[k] == sorted[k] by {
                    assert(sorted[k] == paired(self@, keys@).subrange(0, i as int)[k]);
                }
            }
            let mut j: usize = i;
            while j > 0 && keys[j - 1] < keys[j]
                invariant
                    n == self.moves@.len(),
                    keys@.len() == n,
                    start.len() == n,
                    paired(self@, keys@).to_multiset() == start.to_multiset(),
                    1 <= i < n,
                    j <= i,
                    sorted.len() == i,
                    forall|a: int, b: int| 0 <= a < b < j ==> keys@[a] >= keys@[b],
                    forall|a: int, b: int| j < a < b <= i ==> keys@[a] >= keys@[b],
                    forall|a: int, b: int| 0 <= a < j && j < b <= i ==> keys@[a] >= keys@[b],
                    forall|b: int| j < b <= i ==> keys@[j as int] > keys@[b],
                    paired(self@, keys@).len() == n,
                    forall|k: int| 0 <= k < j ==> #[trigger] paired(self@, keys@)[k] == sorted[k],
                    paired(self@, keys@)[j as int] == x,
                    forall|k: int| j < k <= i ==> #[trigger] paired(self@, keys@)[k] == sorted[k - 1],
                    insert_desc(sorted, x) == insert_desc(sorted.subrange(0, j as int), x) + sorted.subrange(
                        j as int,
                        i as int,
                    ),
                    paired(self@, keys@).subrange(i + 1, n as int) == start.subrange(i + 1, n as int),
                decreases j,
            {
                let ghost before = paired(self@, keys@);
                let ka = keys[j - 1];
                let kb = keys[j];
                keys.set(j - 1, kb);
                keys.set(j, ka);
                self.swap(j - 1, j);
                proof {
                    lemma_swap_multiset(before, j - 1, j as int);
                    assert(paired(self@, keys@) =~= before.update(j - 1, before[j as int]).update(
                        j as int,
                        before[j - 1],
                    ));
                    let pre = sorted.subrange(0, j as int);
                    assert(before[j - 1] == sorted[j - 1]);
                    assert(pre.last() == sorted[j - 1]);
                    assert(pre.drop_last() =~= sorted.subrange(0, j - 1));
                    assert(insert_desc(pre, x) == insert_desc(sorted.subrange(0, j - 1), x).push(sorted[j - 1]));
                    assert(insert_desc(pre, x) + sorted.subrange(j as int, i as int) =~= insert_desc(
                        sorted.subrange(0, j - 1),
                        x,
                    ) + sorted.subrange(j - 1, i as int));
                    assert(paired(self@, keys@).subrange(i + 1, n as int) =~= before.subrange(i + 1, n as int));
                }
                j = j - 1;
            }
            proof {
                let p = paired(self@, keys@);
                let pre = sorted.subrange(0, j as int);
                if j > 0 {
                    assert(pre.last() == sorted[j - 1]);
                    assert(p[j - 1] == sorted[j - 1]);
                }
                assert(insert_desc(pre, x) == pre.push(x));
                assert(p.subrange(0, i + 1) =~= pre.push(x) + sorted.subrange(j as int, i as int)) by {
                    assert forall|k: int| 0 <= k < i + 1 implies p.subrange(0, i + 1)[k] == (pre.push(x)
                        + sorted.subrange(j as int, i as int))[k] by {
                        if k < j {
                            assert(p[k] == sorted[k]);
                        } else if k > j {
                            assert(p[k] == sorted[k - 1]);
                        }
                    }
                }
                assert(start.subrange(0, i + 1).drop_last() =~= start.subrange(0, i as int));
                assert(start.subrange(0, i + 1).last() == x);
                assert(stable_sort_desc(start.subrange(0, i + 1)) == insert_desc(sorted, x));
                assert(p.subrange(0, i + 1) =~= insert_desc(sorted, x));
                assert(p.subrange(i + 1, n as int) =~= start.subrange(i + 1, n as int));
            }
            i = i + 1;
        }
        proof {
            assert(paired(self@, keys@).subrange(0, n as int) =~= paired(self@, keys@));
            assert(start.subrange(0, n as int) =~= start);
        }
    }
}

} // verus!

verus! {

/// Sorting moves together with keys that a function gives them keeps each move's key, the moves
/// themselves, and their being free of duplicates.
pub proof fn lemma_sorted_keys(
    old_m: Seq<Move>,
    old_k: Seq<i32>,
    new_m: Seq<Move>,
    new_k: Seq<i32>,
    key: spec_fn(Move) -> i32,
)
    requires
        old_m.len() == old_k.len(),
        new_m.len() == new_k.len(),
        paired(new_m, new_k).to_multiset() == paired(old_m, old_k).to_multiset(),
        forall|i: int| 0 <= i < old_m.len() ==> old_k[i] == key(#[trigger] old_m[i]),
    ensures
        new_m.len() == old_m.len(),
        forall|i: int| 0 <= i < new_m.len() ==> new_k[i] == key(#[trigger] new_m[i]),
        forall|m: Move| #[trigger] new_m.contains(m) <==> old_m.contains(m),
        old_m.no_duplicates() ==> new_m.no_duplicates(),
{
    broadcast use vstd::multiset::group_multiset_axioms;
    let po = paired(old_m, old_k);
    let pn = paired(new_m, new_k);
    vstd::seq_lib::to_multiset_len(po);
    vstd::seq_lib::to_multiset_len(pn);
    assert forall|i: int| 0 <= i < new_m.len() implies new_k[i] == key(#[trigger] new_m[i]) by {
        vstd::seq_lib::to_multiset_contains(pn, pn[i]);
        assert(pn.contains(pn[i]));
        vstd::seq_lib::to_multiset_contains(po, pn[i]);
        let j = choose|j: int| 0 <= j < po.len() && po[j] == pn[i];
        assert(old_k[j] == key(old_m[j]));
    }
    assert forall|m: Move| #[trigger] new_m.contains(m) <==> old_m.contains(m) by {
        if new_m.contains(m) {
            let i = choose|i: int| 0 <= i < new_m.len() && new_m[i] == m;
            vstd::seq_lib::to_multiset_contains(pn, pn[i]);
            assert(pn.contains(pn[i]));
            vstd::seq_lib::to_multiset_contains(po, pn[i]);
            let j = choose|j: int| 0 <= j < po.len() && po[j] == pn[i];
            assert(old_m[j] == m);
        }
        if old_m.contains(m) {
            let j = choose|j: int| 0 <= j < old_m.len() && old_m[j] == m;
            vstd::seq_lib::to_multiset_contains(po, po[j]);
            assert(po.contains(po[j]));
            vstd::seq_lib::to_multiset_contains(pn, po[j]);
            let i = choose|i: int| 0 <= i < pn.len() && pn[i] == po[j];
            assert(new_m[i] == m);
        }
    }
    if old_m.no_duplicates() {
        assert(po.no_duplicates()) by {
            assert forall|a: int, b: int| 0 <= a < po.len() && 0 <= b < po.len() && a != b implies po[a] != po[b] by {
                assert(old_m[a] != old_m[b]);
            }
        }
        po.lemma_multiset_has_no_duplicates();
        pn.lemma_multiset_has_no_duplicates_conv();
        assert forall|a: int, b: int| 0 <= a < new_m.len() && 0 <= b < new_m.len() && a != b implies new_m[a] != new_m[b] by {
            if new_m[a] == new_m[b] {
                assert(new_k[a] == key(new_m[a]));
                assert(new_k[b] == key(new_m[b]));
                assert(pn[a] == pn[b]);
            }
        }
    }
}

} // verus!

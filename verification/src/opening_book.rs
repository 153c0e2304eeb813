//! An opening book: for positions reached by known opening lines, the moves played there and
//! how often.
use vstd::prelude::*;
use vstd::string::StringSliceAdditionalSpecFns;
use crate::apply_undo_move::{Move, apply_ok, position_after};
use crate::castling_rights::CastlingRights;
use crate::chess::{Chess, Position};
use crate::color::Color;
use crate::fen::start_square;
use crate::uci::{uci_readable, uci_move, uci_to_move, square_of};
use crate::zobrist_hash::{squares_key, castling_key, en_passant_key, en_passant_index};

verus! {

/// A book move and its weight (how many lines play it, ten for each, capped at 255).
#[derive(Clone, Copy, Debug, PartialEq, Eq, Structural)]
pub struct BookMove {
    pub mov: Move,
    pub weight: u8,
}

/// Book entries: a position hash and the moves played from it, sorted by hash.
pub struct OpeningBook {
    pub entries: Vec<(u64, Vec<BookMove>)>,
}

impl View for OpeningBook {
    type V = Seq<(u64, Seq<BookMove>)>;

    open spec fn view(&self) -> Seq<(u64, Seq<BookMove>)> {
        self.entries@.map_values(|e: (u64, Vec<BookMove>)| (e.0, e.1@))
    }
}

/// Hashes strictly ascending.
pub open spec fn sorted_keys(e: Seq<(u64, Seq<BookMove>)>) -> bool {
    forall|i: int, j: int| 0 <= i < j < e.len() ==> e[i].0 < e[j].0
}

/// The moves the book holds for hash `h` (none when it has no entry for it).
pub open spec fn moves_of(e: Seq<(u64, Seq<BookMove>)>, h: u64) -> Seq<BookMove> {
    if exists|i: int| 0 <= i < e.len() && e[i].0 == h {
        e[choose|i: int| 0 <= i < e.len() && e[i].0 == h].1
    } else {
        Seq::empty()
    }
}

/// The moves recorded for hash `h`, in the order they were recorded.
pub open spec fn moves_with(raw: Seq<(u64, BookMove)>, h: u64) -> Seq<BookMove>
    decreases raw.len(),
{
    if raw.len() == 0 {
        Seq::empty()
    } else {
        let rest = moves_with(raw.drop_last(), h);
        if raw.last().0 == h {
            rest.push(raw.last().1)
        } else {
            rest
        }
    }
}

/// Index of the first book move playing `mv`, or -1.
pub open spec fn find_move(ms: Seq<BookMove>, mv: Move) -> int {
    if exists|i: int| 0 <= i < ms.len() && ms[i].mov == mv {
        choose|i: int| 0 <= i < ms.len() && ms[i].mov == mv && forall|j: int| 0 <= j < i ==> ms[j].mov != mv
    } else {
        -1
    }
}

/// `a + b`, capped at 255.
pub open spec fn capped(a: u8, b: u8) -> u8 {
    if a + b > 255 { 255u8 } else { (a + b) as u8 }
}

/// Adds a recorded move: its weight goes to the book move playing the same move, or it is
/// appended.
pub open spec fn merge_one(ms: Seq<BookMove>, bm: BookMove) -> Seq<BookMove> {
    let k = find_move(ms, bm.mov);
    if k >= 0 {
        ms.update(k, BookMove { mov: ms[k].mov, weight: capped(ms[k].weight, bm.weight) })
    } else {
        ms.push(bm)
    }
}

/// The book moves that a list of recorded moves makes.
pub open spec fn merged(s: Seq<BookMove>) -> Seq<BookMove>
    decreases s.len(),
{
    if s.len() == 0 {
        Seq::empty()
    } else {
        merge_one(merged(s.drop_last()), s.last())
    }
}

/// A book built from the recorded moves `raw`: sorted by hash, no empty entry, and for every
/// hash the moves recorded for it, merged.
pub open spec fn book_of(e: Seq<(u64, Seq<BookMove>)>, raw: Seq<(u64, BookMove)>) -> bool {
    &&& sorted_keys(e)
    &&& forall|i: int| 0 <= i < e.len() ==> #[trigger] e[i].1.len() > 0
    &&& forall|h: u64| #[trigger] moves_of(e, h) == merged(moves_with(raw, h))
}

/// The position `Chess::new` sets up.
pub open spec fn start_position() -> Position {
    let s = Seq::new(64, |i: int| start_square(i));
    Position {
        squares: s,
        active_color: Color::White,
        castling_rights: CastlingRights::ALL,
        en_passent: 0,
        halfmove_clock: 0,
        fullmove_number: 1,
        hash: squares_key(s, 64) ^ castling_key(CastlingRights::ALL as int) ^ en_passant_key(
            en_passant_index(0),
        ) ^ 0u64,
        path: Seq::empty(),
    }
}

/// The moves recorded while a line is played from `p`: each move with the hash of the position
/// it is played from and weight ten. The line stops at a text that names no playable move.
pub open spec fn replay_line(p: Position, line: Seq<Seq<u8>>) -> Seq<(u64, BookMove)>
    decreases line.len(),
{
    if line.len() == 0 || !uci_readable(line[0]) {
        Seq::empty()
    } else {
        match uci_move(line[0], p) {
            None => Seq::empty(),
            Some(m) => if apply_ok(p, m) {
                seq![(p.hash, BookMove { mov: m, weight: 10 })] + replay_line(
                    position_after(p, m),
                    line.drop_first(),
                )
            } else {
                Seq::empty()
            },
        }
    }
}

/// The moves recorded while every line is played from the start position, line after line.
pub open spec fn replay_all(lines: Seq<Seq<Seq<u8>>>) -> Seq<(u64, BookMove)>
    decreases lines.len(),
{
    if lines.len() == 0 {
        Seq::empty()
    } else {
        replay_all(lines.drop_last()) + replay_line(start_position(), lines.last())
    }
}

/// The bytes of each text of each line.
pub open spec fn lines_bytes(lines: Seq<Vec<&str>>) -> Seq<Seq<Seq<u8>>> {
    lines.map_values(|l: Vec<&str>| l@.map_values(|s: &str| s.spec_bytes()))
}

/// Sum of the weights.
pub open spec fn weight_sum(ms: Seq<BookMove>) -> int
    decreases ms.len(),
{
    if ms.len() == 0 {
        0
    } else {
        ms[0].weight + weight_sum(ms.drop_first())
    }
}

/// The move a draw `choice` below the total weight picks: the first whose running weight
/// passes it.
pub open spec fn pick(ms: Seq<BookMove>, choice: int) -> Option<Move>
    decreases ms.len(),
{
    if ms.len() == 0 {
        None
    } else if choice < ms[0].weight {
        Some(ms[0].mov)
    } else {
        pick(ms.drop_first(), choice - ms[0].weight)
    }
}

} // verus!

verus! {

/// `rand::random_range(0..total)`: a number drawn uniformly below `total`. The function panics
/// on an empty range, which `requires` leaves out; which number comes back is left open.
#[verifier::external_body]
fn random_below(total: u32) -> (r: u32)
    requires
        total > 0,
    ensures
        r < total,
{
    rand::random_range(0..total)
}

/// In a book sorted by hash, the entry of a hash holds its moves.
pub proof fn lemma_moves_of_at(e: Seq<(u64, Seq<BookMove>)>, i: int)
    requires
        sorted_keys(e),
        0 <= i < e.len(),
    ensures
        moves_of(e, e[i].0) == e[i].1,
{
    let h = e[i].0;
    assert(exists|k: int| 0 <= k < e.len() && e[k].0 == h);
    let c = choose|k: int| 0 <= k < e.len() && e[k].0 == h;
    if c < i {
        assert(e[c].0 < e[i].0);
    } else if c > i {
        assert(e[i].0 < e[c].0);
    }
}

/// Without its first entry, a sorted book holds nothing for that entry's hash and the same as
/// before for every other hash.
proof fn lemma_moves_of_rest(e: Seq<(u64, Seq<BookMove>)>, h: u64)
    requires
        sorted_keys(e),
        e.len() > 0,
    ensures
        moves_of(e.drop_first(), h) == if h == e[0].0 { Seq::<BookMove>::empty() } else { moves_of(e, h) },
{
    let r = e.drop_first();
    assert(sorted_keys(r)) by {
        assert forall|i: int, j: int| 0 <= i < j < r.len() implies r[i].0 < r[j].0 by {
            assert(r[i] == e[i + 1] && r[j] == e[j + 1]);
        }
    }
    if exists|k: int| 0 <= k < r.len() && r[k].0 == h {
        let k = choose|k: int| 0 <= k < r.len() && r[k].0 == h;
        assert(r[k] == e[k + 1]);
        assert(e[0].0 < e[k + 1].0);
        lemma_moves_of_at(r, k);
        lemma_moves_of_at(e, k + 1);
    } else if h != e[0].0 {
        if exists|k: int| 0 <= k < e.len() && e[k].0 == h {
            let k = choose|k: int| 0 <= k < e.len() && e[k].0 == h;
            assert(k > 0);
            assert(r[k - 1] == e[k]);
        }
    }
}

/// Two sorted books without empty entries that hold the same moves for every hash are the same
/// book.
proof fn lemma_same_books(e1: Seq<(u64, Seq<BookMove>)>, e2: Seq<(u64, Seq<BookMove>)>)
    requires
        sorted_keys(e1),
        sorted_keys(e2),
        forall|i: int| 0 <= i < e1.len() ==> #[trigger] e1[i].1.len() > 0,
        forall|i: int| 0 <= i < e2.len() ==> #[trigger] e2[i].1.len() > 0,
        forall|h: u64| #[trigger] moves_of(e1, h) == moves_of(e2, h),
    ensures
        e1 == e2,
    decreases e1.len() + e2.len(),
{
    if e1.len() == 0 || e2.len() == 0 {
        if e1.len() > 0 {
            lemma_moves_of_at(e1, 0);
            assert(moves_of(e2, e1[0].0).len() == 0);
        } else if e2.len() > 0 {
            lemma_moves_of_at(e2, 0);
            assert(moves_of(e1, e2[0].0).len() == 0);
        }
        assert(e1 =~= e2);
    } else {
        let a = e1[0].0;
        let b = e2[0].0;
        lemma_moves_of_at(e1, 0);
        lemma_moves_of_at(e2, 0);
        assert(moves_of(e2, a) == e1[0].1);
        assert(e1[0].1.len() > 0);
        assert(e2[0].1.len() > 0);
        assert(exists|k: int| 0 <= k < e2.len() && e2[k].0 == a);
        let k2 = choose|k: int| 0 <= k < e2.len() && e2[k].0 == a;
        if k2 > 0 {
            assert(e2[0].0 < e2[k2].0);
        }
        assert(moves_of(e1, b) == e2[0].1);
        assert(exists|k: int| 0 <= k < e1.len() && e1[k].0 == b);
        let k1 = choose|k: int| 0 <= k < e1.len() && e1[k].0 == b;
        if k1 > 0 {
            assert(e1[0].0 < e1[k1].0);
        }
        assert(a == b);
        assert(e1[0] == e2[0]);
        let r1 = e1.drop_first();
        let r2 = e2.drop_first();
        assert forall|h: u64| #[trigger] moves_of(r1, h) == moves_of(r2, h) by {
            lemma_moves_of_rest(e1, h);
            lemma_moves_of_rest(e2, h);
        }
        assert(sorted_keys(r1)) by {
            assert forall|i: int, j: int| 0 <= i < j < r1.len() implies r1[i].0 < r1[j].0 by {
                assert(r1[i] == e1[i + 1] && r1[j] == e1[j + 1]);
            }
        }
        assert(sorted_keys(r2)) by {
            assert forall|i: int, j: int| 0 <= i < j < r2.len() implies r2[i].0 < r2[j].0 by {
                assert(r2[i] == e2[i + 1] && r2[j] == e2[j + 1]);
            }
        }
        assert forall|i: int| 0 <= i < r1.len() implies #[trigger] r1[i].1.len() > 0 by {
            assert(r1[i] == e1[i + 1]);
        }
        assert forall|i: int| 0 <= i < r2.len() implies #[trigger] r2[i].1.len() > 0 by {
            assert(r2[i] == e2[i + 1]);
        }
        lemma_same_books(r1, r2);
        assert(e1 =~= seq![e1[0]] + r1);
        assert(e2 =~= seq![e2[0]] + r2);
    }
}

/// The book that a list of recorded moves makes is one book: building it twice, in whatever
/// way, gives the same entries.
pub proof fn lemma_book_of_unique(
    e1: Seq<(u64, Seq<BookMove>)>,
    e2: Seq<(u64, Seq<BookMove>)>,
    raw: Seq<(u64, BookMove)>,
)
    requires
        book_of(e1, raw),
        book_of(e2, raw),
    ensures
        e1 == e2,
{
    lemma_same_books(e1, e2);
}

/// Merging never empties the book moves.
pub proof fn lemma_merge_one_len(ms: Seq<BookMove>, bm: BookMove)
    ensures
        merge_one(ms, bm).len() >= 1,
        merge_one(ms, bm).len() >= ms.len(),
{
    if exists|i: int| 0 <= i < ms.len() && ms[i].mov == bm.mov {
        let k = choose|i: int|
            0 <= i < ms.len() && ms[i].mov == bm.mov && forall|j: int| 0 <= j < i ==> ms[j].mov != bm.mov;
        let w = choose|i: int| 0 <= i < ms.len() && ms[i].mov == bm.mov;
        assert(exists|i: int|
            0 <= i < ms.len() && ms[i].mov == bm.mov && forall|j: int| 0 <= j < i ==> ms[j].mov != bm.mov)
            by {
            lemma_first_match(ms, bm.mov, w);
        }
        assert(find_move(ms, bm.mov) == k);
    }
}

/// Some match comes first.
proof fn lemma_first_match(ms: Seq<BookMove>, mv: Move, w: int)
    requires
        0 <= w < ms.len(),
        ms[w].mov == mv,
    ensures
        exists|i: int| 0 <= i < ms.len() && ms[i].mov == mv && forall|j: int| 0 <= j < i ==> ms[j].mov != mv,
    decreases w,
{
    if exists|j: int| 0 <= j < w && ms[j].mov == mv {
        let j = choose|j: int| 0 <= j < w && ms[j].mov == mv;
        lemma_first_match(ms, mv, j);
    } else {
        assert(forall|j: int| 0 <= j < w ==> ms[j].mov != mv);
    }
}

/// Recording one more move changes only the moves of its hash.
pub proof fn lemma_moves_with_push(raw: Seq<(u64, BookMove)>, x: (u64, BookMove), h: u64)
    ensures
        moves_with(raw.push(x), h) == if x.0 == h {
            moves_with(raw, h).push(x.1)
        } else {
            moves_with(raw, h)
        },
{
    assert(raw.push(x).drop_last() =~= raw);
}

/// Merging one more recorded move.
pub proof fn lemma_merged_push(s: Seq<BookMove>, x: BookMove)
    ensures
        merged(s.push(x)) == merge_one(merged(s), x),
{
    assert(s.push(x).drop_last() =~= s);
}

/// A draw below the total weight picks a move of the list.
pub proof fn lemma_pick_some(ms: Seq<BookMove>, c: int)
    requires
        0 <= c < weight_sum(ms),
    ensures
        pick(ms, c) is Some,
        exists|i: int| 0 <= i < ms.len() && pick(ms, c) == Some(#[trigger] ms[i].mov),
    decreases ms.len(),
{
    if c < ms[0].weight {
        assert(pick(ms, c) == Some(ms[0].mov));
    } else {
        lemma_pick_some(ms.drop_first(), c - ms[0].weight);
        let i = choose|i: int|
            0 <= i < ms.drop_first().len() && pick(ms.drop_first(), c - ms[0].weight) == Some(
                #[trigger] ms.drop_first()[i].mov,
            );
        assert(pick(ms, c) == Some(ms[i + 1].mov));
    }
}

/// What a draw from the book moves `ms` gives: nothing when they weigh nothing, else the move
/// a number below their total weight (capped at `u32::MAX`) picks.
pub open spec fn drawn_from(ms: Seq<BookMove>, r: Option<Move>) -> bool {
    &&& weight_sum(ms) == 0 ==> r is None
    &&& weight_sum(ms) > 0 ==> exists|c: int|
        0 <= c < weight_sum(ms) && c < u32::MAX && r == #[trigger] pick(ms, c)
}

/// Whether `s` can be read as a UCI move (its first four bytes name two squares), so that
/// `uci_to_move` accepts it.
pub fn is_uci_readable(s: &str) -> (r: bool)
    ensures
        r == uci_readable(s.spec_bytes()),
{
    let b = s.as_bytes();
    if b.len() < 4 {
        return true;
    }
    b[0] >= 97 && b[1] >= 49 && ((b[1] - 49) as usize) * 8 + ((b[0] - 97) as usize) < 64 && b[2]
        >= 97 && b[3] >= 49 && ((b[3] - 49) as usize) * 8 + ((b[2] - 97) as usize) < 64
}

/// Adds a recorded move to the book moves: its weight goes to the book move playing the same
/// move (capped at 255), or it is appended.
fn merge_into(ms: &mut Vec<BookMove>, bm: BookMove)
    ensures
        final(ms)@ == merge_one(old(ms)@, bm),
{
    let mut i: usize = 0;
    while i < ms.len() && ms[i].mov != bm.mov
        invariant
            i <= ms@.len(),
            ms@ == old(ms)@,
            forall|j: int| 0 <= j < i ==> ms@[j].mov != bm.mov,
        decreases ms@.len() - i,
    {
        i = i + 1;
    }
    if i < ms.len() {
        let found = ms[i];
        proof {
            let c = choose|k: int|
                0 <= k < ms@.len() && ms@[k].mov == bm.mov && forall|j: int|
                    0 <= j < k ==> ms@[j].mov != bm.mov;
            assert(exists|k: int| 0 <= k < ms@.len() && ms@[k].mov == bm.mov);
            if c < i {
                assert(ms@[c].mov != bm.mov);
            } else if c > i {
                assert(ms@[i as int].mov != bm.mov);
            }
            assert(find_move(old(ms)@, bm.mov) == i);
        }
        ms.set(i, BookMove { mov: found.mov, weight: found.weight.saturating_add(bm.weight) });
    } else {
        ms.push(bm);
    }
}

impl OpeningBook {
    /// Sorted by hash, with no empty entry.
    pub open spec fn wf(&self) -> bool {
        &&& sorted_keys(self@)
        &&& forall|i: int| 0 <= i < self@.len() ==> #[trigger] self@[i].1.len() > 0
    }

    /// Records move `bm` played from the position with hash `h`.
    fn record(&mut self, h: u64, bm: BookMove)
        requires
            old(self).wf(),
        ensures
            final(self).wf(),
            forall|g: u64| #[trigger] moves_of(final(self)@, g) == if g == h {
                merge_one(moves_of(old(self)@, h), bm)
            } else {
                moves_of(old(self)@, g)
            },
    {
        let ghost e = self@;
        let mut pos: usize = 0;
        while pos < self.entries.len() && self.entries[pos].0 < h
            invariant
                self@ == e,
                pos <= e.len(),
                forall|i: int| 0 <= i < pos ==> e[i].0 < h,
            decreases e.len() - pos,
        {
            pos = pos + 1;
        }
        if pos < self.entries.len() && self.entries[pos].0 == h {
            let entry = self.entries.remove(pos);
            let mut ms = entry.1;
            merge_into(&mut ms, bm);
            self.entries.insert(pos, (h, ms));
            let ghost e2 = e.update(pos as int, (h, merge_one(e[pos as int].1, bm)));
            assert(self@ =~= e2);
            proof {
                lemma_merge_one_len(e[pos as int].1, bm);
                assert(e2[pos as int].1.len() > 0);
                assert forall|g: u64| #[trigger] moves_of(e2, g) == if g == h {
                    merge_one(moves_of(e, h), bm)
                } else {
                    moves_of(e, g)
                } by {
                    lemma_moves_of_at(e, pos as int);
                    lemma_moves_of_at(e2, pos as int);
                    if g != h {
                        if exists|i: int| 0 <= i < e.len() && e[i].0 == g {
                            let i = choose|i: int| 0 <= i < e.len() && e[i].0 == g;
                            lemma_moves_of_at(e, i);
                            lemma_moves_of_at(e2, i);
                        } else {
                            assert(!exists|i: int| 0 <= i < e2.len() && e2[i].0 == g);
                        }
                    }
                }
            }
        } else {
            let mut ms: Vec<BookMove> = Vec::new();
            ms.push(bm);
            self.entries.insert(pos, (h, ms));
            let ghost e2 = e.insert(pos as int, (h, seq![bm]));
            assert(self@ =~= e2);
            proof {
                assert forall|i: int| 0 <= i < e.len() implies e[i].0 != h by {
                    if i >= pos {
                        assert(e[pos as int].0 <= e[i].0);
                    }
                }
                assert(moves_of(e, h) =~= Seq::<BookMove>::empty());
                assert(merge_one(Seq::<BookMove>::empty(), bm) =~= seq![bm]);
                assert forall|i: int, j: int| 0 <= i < j < e2.len() implies e2[i].0 < e2[j].0 by {
                    if j > pos && i < pos {
                        assert(e2[j].0 == e[j - 1].0);
                    }
                    if i == pos as int && j > pos {
                        assert(e[pos as int].0 <= e[j - 1].0);
                    }
                }
                assert forall|g: u64| #[trigger] moves_of(e2, g) == if g == h {
                    merge_one(moves_of(e, h), bm)
                } else {
                    moves_of(e, g)
                } by {
                    lemma_moves_of_at(e2, pos as int);
                    if g != h {
                        if exists|i: int| 0 <= i < e.len() && e[i].0 == g {
                            let i = choose|i: int| 0 <= i < e.len() && e[i].0 == g;
                            lemma_moves_of_at(e, i);
                            if i < pos {
                                lemma_moves_of_at(e2, i);
                            } else {
                                lemma_moves_of_at(e2, i + 1);
                            }
                        } else {
                            assert forall|i: int| 0 <= i < e2.len() implies e2[i].0 != g by {
                                if i > pos {
                                    assert(e2[i] == e[i - 1]);
                                }
                            }
                        }
                    }
                }
            }
        }
    }
}

} // verus!

verus! {

impl OpeningBook {
    /// The book moves for `hash`, found by binary search: a found entry is one with that hash,
    /// and in a book sorted by hash nothing is found only when no entry has it.
    pub fn lookup(&self, hash: u64) -> (r: Option<&[BookMove]>)
        ensures
            r is Some ==> exists|i: int|
                0 <= i < self@.len() && self@[i].0 == hash && r->0@ == #[trigger] self@[i].1,
            sorted_keys(self@) ==> (r is Some <==> exists|i: int|
                0 <= i < self@.len() && #[trigger] self@[i].0 == hash),
            sorted_keys(self@) && r is Some ==> r->0@ == moves_of(self@, hash),
    {
        let ghost e = self@;
        let mut lo: usize = 0;
        let mut hi: usize = self.entries.len();
        while lo < hi
            invariant
                self@ == e,
                lo <= hi <= e.len(),
                sorted_keys(e) ==> forall|i: int| 0 <= i < lo ==> e[i].0 < hash,
                sorted_keys(e) ==> forall|i: int| hi <= i < e.len() ==> e[i].0 > hash,
            decreases hi - lo,
        {
            let mid = lo + (hi - lo) / 2;
            let key = self.entries[mid].0;
            assert(e[mid as int] == (key, self.entries@[mid as int].1@));
            if key < hash {
                lo = mid + 1;
            } else if key > hash {
                hi = mid;
            } else {
                proof {
                    if sorted_keys(e) {
                        lemma_moves_of_at(e, mid as int);
                    }
                }
                let found = self.entries[mid].1.as_slice();
                assert(found@ == self@[mid as int].1);
                return Some(found);
            }
        }
        None
    }

    /// The book that playing every line from the start position makes (a line stops at a text
    /// that names no playable move).
    pub fn build_from(lines: &Vec<Vec<&str>>) -> (book: OpeningBook)
        ensures
            book.wf(),
            book_of(book@, replay_all(lines_bytes(lines@))),
    {
        let ghost all = lines_bytes(lines@);
        let mut book = OpeningBook { entries: Vec::new() };
        let ghost mut raw: Seq<(u64, BookMove)> = Seq::empty();
        let mut k: usize = 0;
        proof {
            assert(all.subrange(0, 0) =~= Seq::<Seq<Seq<u8>>>::empty());
            assert forall|g: u64| #[trigger] moves_of(book@, g) == merged(moves_with(raw, g)) by {
                assert(moves_of(book@, g) =~= Seq::<BookMove>::empty());
            }
        }
        while k < lines.len()
            invariant
                all == lines_bytes(lines@),
                k <= lines@.len(),
                book.wf(),
                raw == replay_all(all.subrange(0, k as int)),
                forall|g: u64| #[trigger] moves_of(book@, g) == merged(moves_with(raw, g)),
            decreases lines@.len() - k,
        {
            let line = &lines[k];
            let n = line.len();
            let ghost lk = all[k as int];
            let ghost before = raw;
            let ghost mut acc: Seq<(u64, BookMove)> = Seq::empty();
            let mut board = Chess::new();
            proof {
                assert(board@.squares =~= start_position().squares);
                assert(board@ == start_position());
                assert(lk.subrange(0, n as int) =~= lk);
            }
            let mut j: usize = 0;
            while j < n
                invariant
                    all == lines_bytes(lines@),
                    k < lines@.len(),
                    line == lines@[k as int],
                    n == line@.len(),
                    lk == all[k as int],
                    lk.len() == n,
                    forall|i: int| 0 <= i < n ==> lk[i] == (#[trigger] line@[i]).spec_bytes(),
                    j <= n,
                    board.wf(),
                    book.wf(),
                    raw == before + acc,
                    acc + replay_line(board@, lk.subrange(j as int, n as int)) == replay_line(
                        start_position(),
                        lk,
                    ),
                    forall|g: u64| #[trigger] moves_of(book@, g) == merged(moves_with(raw, g)),
                decreases n - j,
            {
                let s: &str = line[j];
                let ghost rest = lk.subrange(j as int, n as int);
                proof {
                    assert(rest[0] == s.spec_bytes());
                    assert(rest.drop_first() =~= lk.subrange(j + 1, n as int));
                }
                let mut stop = true;
                if is_uci_readable(s) {
                    match uci_to_move(s, &board) {
                        None => {},
                        Some(m) => {
                            if board.is_playable(&m) {
                                stop = false;
                                let bm = BookMove { mov: m, weight: 10 };
                                let h = board.hash;
                                let ghost old_book = book@;
                                book.record(h, bm);
                                proof {
                                    let x = (h, bm);
                                    assert forall|g: u64| #[trigger] moves_of(book@, g) == merged(
                                        moves_with(raw.push(x), g),
                                    ) by {
                                        lemma_moves_with_push(raw, x, g);
                                        lemma_merged_push(moves_with(raw, g), bm);
                                    }
                                    raw = raw.push(x);
                                    assert(acc.push(x) + replay_line(
                                        position_after(board@, m),
                                        lk.subrange(j + 1, n as int),
                                    ) =~= acc + replay_line(board@, rest));
                                    acc = acc.push(x);
                                    assert(raw =~= before + acc);
                                }
                                board.apply_move(&m);
                            }
                        },
                    }
                }
                if stop {
                    proof {
                        assert(replay_line(board@, rest) =~= Seq::<(u64, BookMove)>::empty());
                        assert(lk.subrange(n as int, n as int) =~= Seq::<Seq<u8>>::empty());
                        assert(acc =~= acc + replay_line(board@, lk.subrange(n as int, n as int)));
                    }
                    j = n;
                } else {
                    j = j + 1;
                }
            }
            proof {
                assert(lk.subrange(n as int, n as int) =~= Seq::<Seq<u8>>::empty());
                assert(acc =~= acc + replay_line(board@, lk.subrange(n as int, n as int)));
                assert(all.subrange(0, k + 1).drop_last() =~= all.subrange(0, k as int));
            }
            k = k + 1;
        }
        proof {
            assert(all.subrange(0, lines@.len() as int) =~= all);
        }
        book
    }

    /// The book of the built-in opening lines.
    pub fn build() -> (book: OpeningBook)
        ensures
            book.wf(),
            book_of(book@, replay_all(opening_bytes())),
    {
        let lines = openings();
        proof {
            assert forall|i: int| 0 <= i < lines@.len() implies #[trigger] lines_bytes(lines@)[i]
                == opening_bytes()[i] by {
                assert(line_texts(lines@)[i] == lines@[i]@);
                assert(lines_bytes(lines@)[i] =~= opening_bytes()[i]);
            }
            assert(lines_bytes(lines@) =~= opening_bytes());
        }
        OpeningBook::build_from(&lines)
    }
}

/// Builds the book of the built-in opening lines, for a caller to keep.
pub fn init() -> (book: OpeningBook)
    ensures
        book.wf(),
        book_of(book@, replay_all(opening_bytes())),
{
    OpeningBook::build()
}

/// Total weight of the book moves, capped at `u32::MAX`.
pub fn total_weight(ms: &[BookMove]) -> (r: u32)
    ensures
        r == if weight_sum(ms@) > u32::MAX { u32::MAX as int } else { weight_sum(ms@) },
{
    let mut total: u32 = 0;
    let mut i: usize = ms.len();
    proof {
        assert(ms@.subrange(i as int, i as int) =~= Seq::<BookMove>::empty());
    }
    while i > 0
        invariant
            i <= ms@.len(),
            total == if weight_sum(ms@.subrange(i as int, ms@.len() as int)) > u32::MAX {
                u32::MAX as int
            } else {
                weight_sum(ms@.subrange(i as int, ms@.len() as int))
            },
        decreases i,
    {
        i = i - 1;
        proof {
            assert(ms@.subrange(i as int, ms@.len() as int).drop_first() =~= ms@.subrange(
                i + 1,
                ms@.len() as int,
            ));
        }
        total = total.saturating_add(ms[i].weight as u32);
    }
    assert(ms@.subrange(0, ms@.len() as int) =~= ms@);
    total
}

/// The move a draw `choice` picks: the first whose running weight passes it.
pub fn pick_weighted(ms: &[BookMove], choice: u32) -> (r: Option<Move>)
    ensures
        r == pick(ms@, choice as int),
{
    let mut cumulative: u64 = 0;
    let mut i: usize = 0;
    proof {
        assert(ms@.subrange(0, ms@.len() as int) =~= ms@);
    }
    while i < ms.len()
        invariant
            i <= ms@.len(),
            cumulative <= choice,
            pick(ms@, choice as int) == pick(ms@.subrange(i as int, ms@.len() as int), choice - cumulative),
        decreases ms@.len() - i,
    {
        let ghost rest = ms@.subrange(i as int, ms@.len() as int);
        assert(rest.drop_first() =~= ms@.subrange(i + 1, ms@.len() as int));
        cumulative = cumulative + ms[i].weight as u64;
        if (choice as u64) < cumulative {
            return Some(ms[i].mov);
        }
        i = i + 1;
    }
    None
}

/// A book move for the position with hash `hash`, drawn at random by weight from `book`.
pub fn book_move(book: &OpeningBook, hash: u64) -> (r: Option<Move>)
    requires
        book.wf(),
    ensures
        drawn_from(moves_of(book@, hash), r),
        weight_sum(moves_of(book@, hash)) > 0 ==> r is Some,
{
    match book.lookup(hash) {
        None => {
            proof {
                assert(moves_of(book@, hash) =~= Seq::<BookMove>::empty());
            }
            None
        },
        Some(moves) => {
            let total = total_weight(moves);
            if total == 0 {
                return None;
            }
            let choice = random_below(total);
            let r = pick_weighted(moves, choice);
            proof {
                lemma_pick_some(moves@, choice as int);
            }
            r
        },
    }
}

/// A book move for the position with hash `hash`, drawn at random by weight from the book of
/// the built-in opening lines.
pub fn get_book_move(hash: u64) -> (r: Option<Move>)
    ensures
        drawn_from(merged(moves_with(replay_all(opening_bytes()), hash)), r),
        weight_sum(merged(moves_with(replay_all(opening_bytes()), hash))) > 0 ==> r is Some,
{
    let book = OpeningBook::build();
    let r = book_move(&book, hash);
    assert(moves_of(book@, hash) == merged(moves_with(replay_all(opening_bytes()), hash)));
    r
}

} // verus!

verus! {

/// The opening lines of the book, in UCI notation.
pub open spec fn opening_lines() -> Seq<Seq<&'static str>> {
    seq![
        // ===== 1.e4 Openings =====
        // 1...e5
        seq!["e2e4", "e7e5"],
        seq!["e2e4", "e7e5", "g1f3", "b8c6", "f1b5"],
        seq!["e2e4", "e7e5", "g1f3", "b8c6", "f1b5", "a7a6", "b5a4", "g8f6"],
        seq!["e2e4", "e7e5", "g1f3", "b8c6", "f1b5", "a7a6", "b5a4", "d7d6"],
        seq!["e2e4", "e7e5", "g1f3", "b8c6", "f1b5", "a7a6", "b5c6"],
        seq!["e2e4", "e7e5", "g1f3", "b8c6", "f1b5", "g8f6", "e1g1", "f8e7"],
        seq!["e2e4", "e7e5", "g1f3", "b8c6", "f1c4"],
        seq!["e2e4", "e7e5", "g1f3", "b8c6", "f1c4", "f8c5"],
        seq!["e2e4", "e7e5", "g1f3", "b8c6", "f1c4", "f8c5", "c2c3"],
        seq!["e2e4", "e7e5", "g1f3", "b8c6", "f1c4", "f8c5", "b2b4"],
        seq!["e2e4", "e7e5", "g1f3", "b8c6", "f1c4", "g8f6"],
        seq!["e2e4", "e7e5", "g1f3", "b8c6", "f1c4", "g8f6", "d2d4", "e5d4", "e4e5"],
        seq!["e2e4", "e7e5", "g1f3", "b8c6", "d2d4"],
        seq!["e2e4", "e7e5", "g1f3", "b8c6", "b1c3", "g8f6"],
        seq!["e2e4", "e7e5", "b1c3"],
        seq!["e2e4", "e7e5", "b1c3", "g8f6", "f2f4"],
        seq!["e2e4", "e7e5", "f2f4"],
        seq!["e2e4", "e7e5", "f2f4", "e5f4", "g1f3"],
        seq!["e2e4", "e7e5", "g1f3", "d7d6"],
        seq!["e2e4", "e7e5", "g1f3", "b8c6", "c2c3"],
        // 1...c5 (Sicilian)
        seq!["e2e4", "c7c5"],
        seq!["e2e4", "c7c5", "g1f3", "d7d6", "d2d4", "c5d4", "f3d4", "g8f6", "b1c3"],
        seq!["e2e4", "c7c5", "g1f3", "d7d6", "d2d4", "c5d4", "f3d4", "g8f6", "b1c3", "a7a6"],
        seq!["e2e4", "c7c5", "g1f3", "d7d6", "d2d4", "c5d4", "f3d4", "g8f6", "b1c3", "g7g6"],
        seq!["e2e4", "c7c5", "g1f3", "d7d6", "d2d4", "c5d4", "f3d4", "g8f6", "b1c3", "e7e6"],
        seq!["e2e4", "c7c5", "g1f3", "d7d6", "d2d4", "c5d4", "f3d4", "g8f6", "b1c3", "b8c6"],
        seq!["e2e4", "c7c5", "g1f3", "e7e6", "d2d4", "c5d4", "f3d4", "a7a6"],
        seq!["e2e4", "c7c5", "g1f3", "e7e6", "d2d4", "c5d4", "f3d4", "b8c6"],
        seq!["e2e4", "c7c5", "g1f3", "b8c6", "d2d4", "c5d4", "f3d4", "g7g6"],
        seq!["e2e4", "c7c5", "c2c3"],
        seq!["e2e4", "c7c5", "c2c3", "d7d5", "e4d5", "d8d5"],
        seq!["e2e4", "c7c5", "d2d4", "c5d4", "c2c3"],
        // 1...e6 (French)
        seq!["e2e4", "e7e6", "d2d4", "d7d5"],
        seq!["e2e4", "e7e6", "d2d4", "d7d5", "b1c3", "f8b4"],
        seq!["e2e4", "e7e6", "d2d4", "d7d5", "b1c3", "g8f6"],
        seq!["e2e4", "e7e6", "d2d4", "d7d5", "b1d2"],
        seq!["e2e4", "e7e6", "d2d4", "d7d5", "e4e5"],
        // 1...c6 (Caro-Kann)
        seq!["e2e4", "c7c6", "d2d4", "d7d5"],
        seq!["e2e4", "c7c6", "d2d4", "d7d5", "b1c3", "d5e4", "c3e4", "c8f5"],
        seq!["e2e4", "c7c6", "d2d4", "d7d5", "e4e5"],
        seq!["e2e4", "c7c6", "d2d4", "d7d5", "e4d5", "c6d5", "c2c4"],
        // 1...other
        seq!["e2e4", "d7d5"],
        seq!["e2e4", "d7d5", "e4d5", "d8d5", "b1c3"],
        seq!["e2e4", "g8f6"],
        seq!["e2e4", "g8f6", "e4e5", "f6d5", "d2d4", "d7d6"],
        seq!["e2e4", "d7d6", "d2d4", "g8f6", "b1c3", "g7g6"],
        seq!["e2e4", "g7g6", "d2d4", "f8g7"],
        seq!["e2e4", "b8c6"],
        seq!["e2e4", "a7a6"],
        // ===== 1.d4 Openings =====
        // 1.d4 d5
        seq!["d2d4", "d7d5"],
        seq!["d2d4", "d7d5", "c2c4"],
        seq!["d2d4", "d7d5", "c2c4", "e7e6"],
        seq!["d2d4", "d7d5", "c2c4", "e7e6", "b1c3", "g8f6"],
        seq!["d2d4", "d7d5", "c2c4", "e7e6", "b1c3", "g8f6", "c1g5", "f8e7"],
        seq!["d2d4", "d7d5", "c2c4", "e7e6", "b1c3", "g8f6", "c1g5", "f8e7", "e2e3", "e8g8"],
        seq!["d2d4", "d7d5", "c2c4", "e7e6", "b1c3", "g8f6", "c4d5", "e6d5"],
        seq!["d2d4", "d7d5", "c2c4", "d5c4"],
        seq!["d2d4", "d7d5", "c2c4", "d5c4", "e2e3"],
        seq!["d2d4", "d7d5", "c2c4", "c7c6"],
        seq!["d2d4", "d7d5", "c2c4", "c7c6", "g1f3", "g8f6", "b1c3", "e7e6"],
        seq!["d2d4", "d7d5", "c2c4", "c7c6", "g1f3", "g8f6", "e2e3"],
        seq!["d2d4", "d7d5", "c2c4", "c7c6", "c4d5", "c6d5"],
        // 1.d4 Nf6 (Indian)
        seq!["d2d4", "g8f6", "c2c4", "g7g6"],
        seq!["d2d4", "g8f6", "c2c4", "g7g6", "b1c3", "f8g7", "e2e4", "d7d6"],
        seq!["d2d4", "g8f6", "c2c4", "e7e6"],
        seq!["d2d4", "g8f6", "c2c4", "e7e6", "b1c3", "f8b4"],
        seq!["d2d4", "g8f6", "c2c4", "e7e6", "b1c3", "f8b4", "d1c2"],
        seq!["d2d4", "g8f6", "c2c4", "e7e6", "b1c3", "f8b4", "e2e3"],
        seq!["d2d4", "g8f6", "c2c4", "e7e6", "g1f3", "b7b6"],
        seq!["d2d4", "g8f6", "c2c4", "e7e6", "g1f3", "f8b4"],
        seq!["d2d4", "g8f6", "c2c4", "g7g6", "b1c3", "d7d5"],
        seq![
            "d2d4", "g8f6", "c2c4", "g7g6", "b1c3", "d7d5", "c4d5", "f6d5", "e2e4", "d5c3",
            "b2c3"
        ],
        seq!["d2d4", "g8f6", "c2c4", "c7c5", "d4d5", "e7e6"],
        seq!["d2d4", "g8f6", "c2c4", "e7e5"],
        // 1.d4 other
        seq!["d2d4", "f7f5"],
        seq!["d2d4", "f7f5", "c2c4", "g8f6", "g2g3", "g7g6"],
        seq!["d2d4", "g8f6", "c2c4", "e7e6", "g2g3"],
        seq!["d2d4", "d7d5", "c1f4", "g8f6", "e2e3"],
        seq!["d2d4", "g8f6", "c1g5"],
        // ===== Other first moves =====
        seq!["c2c4"],
        seq!["c2c4", "e7e5"],
        seq!["c2c4", "g8f6"],
        seq!["c2c4", "c7c5"],
        seq!["c2c4", "e7e6"],
        seq!["c2c4", "g7g6"],
        seq!["g1f3"],
        seq!["g1f3", "d7d5"],
        seq!["g1f3", "g8f6"],
        seq!["g1f3", "c7c5"],
        seq!["f2f4"],
        seq!["b2b3"],
        // Extra deeper main lines
        seq![
            "e2e4", "e7e5", "g1f3", "b8c6", "f1b5", "a7a6", "b5a4", "g8f6", "e1g1", "f8e7",
            "f1e1", "b7b5", "a4b3", "d7d6", "c2c3", "e8g8", "h2h3"
        ],
        seq![
            "e2e4", "e7e5", "g1f3", "b8c6", "f1c4", "f8c5", "c2c3", "g8f6", "d2d4", "e5d4",
            "c3d4", "c5b4"
        ],
        seq![
            "e2e4", "c7c5", "g1f3", "d7d6", "d2d4", "c5d4", "f3d4", "g8f6", "b1c3", "a7a6",
            "c1g5", "e7e6", "f2f4"
        ],
        seq![
            "d2d4", "g8f6", "c2c4", "e7e6", "b1c3", "f8b4", "e2e3", "e8g8", "c1d3", "d7d5",
            "g1f3", "c7c5", "e1g1"
        ],
    ]
}

/// The bytes of each text of each built-in opening line.
pub open spec fn opening_bytes() -> Seq<Seq<Seq<u8>>> {
    opening_lines().map_values(|l: Seq<&'static str>| l.map_values(|t: &'static str| t.spec_bytes()))
}

/// The texts of each line.
pub open spec fn line_texts(lines: Seq<Vec<&'static str>>) -> Seq<Seq<&'static str>> {
    lines.map_values(|l: Vec<&'static str>| l@)
}

/// The opening lines of the book, in UCI notation.
fn openings() -> (r: Vec<Vec<&'static str>>)
    ensures
        line_texts(r@) == opening_lines(),
{
    let r = vec![
        // ===== 1.e4 Openings =====
        // 1...e5
        vec!["e2e4", "e7e5"],
        vec!["e2e4", "e7e5", "g1f3", "b8c6", "f1b5"],
        vec!["e2e4", "e7e5", "g1f3", "b8c6", "f1b5", "a7a6", "b5a4", "g8f6"],
        vec!["e2e4", "e7e5", "g1f3", "b8c6", "f1b5", "a7a6", "b5a4", "d7d6"],
        vec!["e2e4", "e7e5", "g1f3", "b8c6", "f1b5", "a7a6", "b5c6"],
        vec!["e2e4", "e7e5", "g1f3", "b8c6", "f1b5", "g8f6", "e1g1", "f8e7"],
        vec!["e2e4", "e7e5", "g1f3", "b8c6", "f1c4"],
        vec!["e2e4", "e7e5", "g1f3", "b8c6", "f1c4", "f8c5"],
        vec!["e2e4", "e7e5", "g1f3", "b8c6", "f1c4", "f8c5", "c2c3"],
        vec!["e2e4", "e7e5", "g1f3", "b8c6", "f1c4", "f8c5", "b2b4"],
        vec!["e2e4", "e7e5", "g1f3", "b8c6", "f1c4", "g8f6"],
        vec!["e2e4", "e7e5", "g1f3", "b8c6", "f1c4", "g8f6", "d2d4", "e5d4", "e4e5"],
        vec!["e2e4", "e7e5", "g1f3", "b8c6", "d2d4"],
        vec!["e2e4", "e7e5", "g1f3", "b8c6", "b1c3", "g8f6"],
        vec!["e2e4", "e7e5", "b1c3"],
        vec!["e2e4", "e7e5", "b1c3", "g8f6", "f2f4"],
        vec!["e2e4", "e7e5", "f2f4"],
        vec!["e2e4", "e7e5", "f2f4", "e5f4", "g1f3"],
        vec!["e2e4", "e7e5", "g1f3", "d7d6"],
        vec!["e2e4", "e7e5", "g1f3", "b8c6", "c2c3"],
        // 1...c5 (Sicilian)
        vec!["e2e4", "c7c5"],
        vec!["e2e4", "c7c5", "g1f3", "d7d6", "d2d4", "c5d4", "f3d4", "g8f6", "b1c3"],
        vec!["e2e4", "c7c5", "g1f3", "d7d6", "d2d4", "c5d4", "f3d4", "g8f6", "b1c3", "a7a6"],
        vec!["e2e4", "c7c5", "g1f3", "d7d6", "d2d4", "c5d4", "f3d4", "g8f6", "b1c3", "g7g6"],
        vec!["e2e4", "c7c5", "g1f3", "d7d6", "d2d4", "c5d4", "f3d4", "g8f6", "b1c3", "e7e6"],
        vec!["e2e4", "c7c5", "g1f3", "d7d6", "d2d4", "c5d4", "f3d4", "g8f6", "b1c3", "b8c6"],
        vec!["e2e4", "c7c5", "g1f3", "e7e6", "d2d4", "c5d4", "f3d4", "a7a6"],
        vec!["e2e4", "c7c5", "g1f3", "e7e6", "d2d4", "c5d4", "f3d4", "b8c6"],
        vec!["e2e4", "c7c5", "g1f3", "b8c6", "d2d4", "c5d4", "f3d4", "g7g6"],
        vec!["e2e4", "c7c5", "c2c3"],
        vec!["e2e4", "c7c5", "c2c3", "d7d5", "e4d5", "d8d5"],
        vec!["e2e4", "c7c5", "d2d4", "c5d4", "c2c3"],
        // 1...e6 (French)
        vec!["e2e4", "e7e6", "d2d4", "d7d5"],
        vec!["e2e4", "e7e6", "d2d4", "d7d5", "b1c3", "f8b4"],
        vec!["e2e4", "e7e6", "d2d4", "d7d5", "b1c3", "g8f6"],
        vec!["e2e4", "e7e6", "d2d4", "d7d5", "b1d2"],
        vec!["e2e4", "e7e6", "d2d4", "d7d5", "e4e5"],
        // 1...c6 (Caro-Kann)
        vec!["e2e4", "c7c6", "d2d4", "d7d5"],
        vec!["e2e4", "c7c6", "d2d4", "d7d5", "b1c3", "d5e4", "c3e4", "c8f5"],
        vec!["e2e4", "c7c6", "d2d4", "d7d5", "e4e5"],
        vec!["e2e4", "c7c6", "d2d4", "d7d5", "e4d5", "c6d5", "c2c4"],
        // 1...other
        vec!["e2e4", "d7d5"],
        vec!["e2e4", "d7d5", "e4d5", "d8d5", "b1c3"],
        vec!["e2e4", "g8f6"],
        vec!["e2e4", "g8f6", "e4e5", "f6d5", "d2d4", "d7d6"],
        vec!["e2e4", "d7d6", "d2d4", "g8f6", "b1c3", "g7g6"],
        vec!["e2e4", "g7g6", "d2d4", "f8g7"],
        vec!["e2e4", "b8c6"],
        vec!["e2e4", "a7a6"],
        // ===== 1.d4 Openings =====
        // 1.d4 d5
        vec!["d2d4", "d7d5"],
        vec!["d2d4", "d7d5", "c2c4"],
        vec!["d2d4", "d7d5", "c2c4", "e7e6"],
        vec!["d2d4", "d7d5", "c2c4", "e7e6", "b1c3", "g8f6"],
        vec!["d2d4", "d7d5", "c2c4", "e7e6", "b1c3", "g8f6", "c1g5", "f8e7"],
        vec!["d2d4", "d7d5", "c2c4", "e7e6", "b1c3", "g8f6", "c1g5", "f8e7", "e2e3", "e8g8"],
        vec!["d2d4", "d7d5", "c2c4", "e7e6", "b1c3", "g8f6", "c4d5", "e6d5"],
        vec!["d2d4", "d7d5", "c2c4", "d5c4"],
        vec!["d2d4", "d7d5", "c2c4", "d5c4", "e2e3"],
        vec!["d2d4", "d7d5", "c2c4", "c7c6"],
        vec!["d2d4", "d7d5", "c2c4", "c7c6", "g1f3", "g8f6", "b1c3", "e7e6"],
        vec!["d2d4", "d7d5", "c2c4", "c7c6", "g1f3", "g8f6", "e2e3"],
        vec!["d2d4", "d7d5", "c2c4", "c7c6", "c4d5", "c6d5"],
        // 1.d4 Nf6 (Indian)
        vec!["d2d4", "g8f6", "c2c4", "g7g6"],
        vec!["d2d4", "g8f6", "c2c4", "g7g6", "b1c3", "f8g7", "e2e4", "d7d6"],
        vec!["d2d4", "g8f6", "c2c4", "e7e6"],
        vec!["d2d4", "g8f6", "c2c4", "e7e6", "b1c3", "f8b4"],
        vec!["d2d4", "g8f6", "c2c4", "e7e6", "b1c3", "f8b4", "d1c2"],
        vec!["d2d4", "g8f6", "c2c4", "e7e6", "b1c3", "f8b4", "e2e3"],
        vec!["d2d4", "g8f6", "c2c4", "e7e6", "g1f3", "b7b6"],
        vec!["d2d4", "g8f6", "c2c4", "e7e6", "g1f3", "f8b4"],
        vec!["d2d4", "g8f6", "c2c4", "g7g6", "b1c3", "d7d5"],
        vec![
            "d2d4", "g8f6", "c2c4", "g7g6", "b1c3", "d7d5", "c4d5", "f6d5", "e2e4", "d5c3",
            "b2c3"
        ],
        vec!["d2d4", "g8f6", "c2c4", "c7c5", "d4d5", "e7e6"],
        vec!["d2d4", "g8f6", "c2c4", "e7e5"],
        // 1.d4 other
        vec!["d2d4", "f7f5"],
        vec!["d2d4", "f7f5", "c2c4", "g8f6", "g2g3", "g7g6"],
        vec!["d2d4", "g8f6", "c2c4", "e7e6", "g2g3"],
        vec!["d2d4", "d7d5", "c1f4", "g8f6", "e2e3"],
        vec!["d2d4", "g8f6", "c1g5"],
        // ===== Other first moves =====
        vec!["c2c4"],
        vec!["c2c4", "e7e5"],
        vec!["c2c4", "g8f6"],
        vec!["c2c4", "c7c5"],
        vec!["c2c4", "e7e6"],
        vec!["c2c4", "g7g6"],
        vec!["g1f3"],
        vec!["g1f3", "d7d5"],
        vec!["g1f3", "g8f6"],
        vec!["g1f3", "c7c5"],
        vec!["f2f4"],
        vec!["b2b3"],
        // Extra deeper main lines
        vec![
            "e2e4", "e7e5", "g1f3", "b8c6", "f1b5", "a7a6", "b5a4", "g8f6", "e1g1", "f8e7",
            "f1e1", "b7b5", "a4b3", "d7d6", "c2c3", "e8g8", "h2h3"
        ],
        vec![
            "e2e4", "e7e5", "g1f3", "b8c6", "f1c4", "f8c5", "c2c3", "g8f6", "d2d4", "e5d4",
            "c3d4", "c5b4"
        ],
        vec![
            "e2e4", "c7c5", "g1f3", "d7d6", "d2d4", "c5d4", "f3d4", "g8f6", "b1c3", "a7a6",
            "c1g5", "e7e6", "f2f4"
        ],
        vec![
            "d2d4", "g8f6", "c2c4", "e7e6", "b1c3", "f8b4", "e2e3", "e8g8", "c1d3", "d7d5",
            "g1f3", "c7c5", "e1g1"
        ],
    ];
    assert(line_texts(r@) =~~= opening_lines());
    r
}

} // verus!

//! The search engine's state: a transposition table, the search deadline, node count, killer
//! moves and the history heuristic.
use vstd::prelude::*;
use crate::apply_undo_move::Move;
use instant::Instant;
use std::time::Duration;

verus! {

/// `instant`'s `Instant` (std's `Instant` on native targets): a point in time.
#[verifier::external_type_specification]
#[verifier::external_body]
pub struct ExInstant(Instant);

/// The current time (`Instant::now`); nothing is stated of it.
#[verifier::external_body]
fn instant_now() -> Instant {
    Instant::now()
}

/// The duration of `ms` milliseconds.
pub uninterp spec fn duration_of_millis(ms: u64) -> Duration;

/// `Duration::from_millis`: the duration of `ms` milliseconds, a function of `ms` alone.
#[verifier::external_body]
fn millis(ms: u64) -> (r: Duration)
    ensures
        r == duration_of_millis(ms),
{
    Duration::from_millis(ms)
}

/// The point in time `d` after `start`, `None` where an `Instant` cannot represent it.
pub uninterp spec fn instant_plus(start: Instant, d: Duration) -> Option<Instant>;

/// `Instant::checked_add`: the point in time `d` after `start`, `None` where it cannot be
/// represented; a function of its arguments alone, of which nothing more is stated.
#[verifier::external_body]
fn instant_after(start: Instant, d: Duration) -> (r: Option<Instant>)
    ensures
        r == instant_plus(start, d),
{
    start.checked_add(d)
}

/// Whether the instant `a` is at or after the instant `b`.
pub uninterp spec fn instant_at_or_after(a: Instant, b: Instant) -> bool;

/// `>=` on `Instant`: whether `now` is at or after `deadline`, a function of the two instants
/// alone, of which nothing more is stated.
#[verifier::external_body]
fn instant_reached(now: &Instant, deadline: &Instant) -> (r: bool)
    ensures
        r == instant_at_or_after(*now, *deadline),
{
    *now >= *deadline
}

/// The engine has a deadline and the clock has been seen at or after it.
pub open spec fn deadline_passed(e: Engine) -> bool {
    e.deadline matches Some(dl) && exists|now: Instant| #[trigger] instant_at_or_after(now, dl)
}

/// The clock has been seen at or after the instant `ms` milliseconds after an instant taken
/// as a search's start.
pub open spec fn limit_reached(ms: u64) -> bool {
    exists|start: Instant, now: Instant|
        #[trigger] instant_at_or_after(now, instant_plus(start, duration_of_millis(ms))->0) && instant_plus(
            start,
            duration_of_millis(ms),
        ) is Some
}

pub const TT_BUCKETS: usize = 1048576usize;

pub const BUCKET_SIZE: usize = 4usize;

pub const MAX_PLY: usize = 64usize;

/// The widest search window.
pub const VALUE_MAX: i32 = 1_000_000_000i32;

pub const VALUE_MIN: i32 = -1_000_000_000i32;

#[derive(Debug, Clone, Copy, PartialEq, Eq, Structural)]
pub enum Bound {
    Exact,
    Lower,
    Upper,
}

/// An entry of the transposition table.
#[derive(Debug, Clone, Copy)]
pub struct TTEntry {
    pub hash: u64,
    pub depth: u8,
    pub score: i32,
    pub flag: Bound,
    pub best_move: Option<Move>,
    pub age: u8,
}

/// An unused entry.
pub open spec fn empty_entry() -> TTEntry {
    TTEntry { hash: 0, depth: 0, score: 0, flag: Bound::Exact, best_move: None, age: 0 }
}

impl TTEntry {
    pub fn new() -> (r: Self)
        ensures
            r == empty_entry(),
    {
        TTEntry { hash: 0, depth: 0, score: 0, flag: Bound::Exact, best_move: None, age: 0 }
    }
}

/// The bucket of a hash: its low 20 bits.
pub open spec fn bucket_of(hash: u64) -> int {
    (hash % (TT_BUCKETS as u64)) as int
}

/// The first slot of a bucket holding `hash`.
pub open spec fn find_slot(bucket: Seq<TTEntry>, hash: u64) -> Option<int> {
    if bucket[0].hash == hash {
        Some(0)
    } else if bucket[1].hash == hash {
        Some(1)
    } else if bucket[2].hash == hash {
        Some(2)
    } else if bucket[3].hash == hash {
        Some(3)
    } else {
        None
    }
}

/// The slot `insert` replaces: the first that is unused (hash 0), shallower than `depth`, or
/// from an older search, slot 0 when none is.
pub open spec fn replace_slot(bucket: Seq<TTEntry>, depth: u8, generation: u8) -> int {
    let stop = |e: TTEntry| e.hash == 0 || e.depth < depth || e.age != generation;
    if stop(bucket[0]) {
        0
    } else if stop(bucket[1]) {
        1
    } else if stop(bucket[2]) {
        2
    } else if stop(bucket[3]) {
        3
    } else {
        0
    }
}

pub struct TranspositionTable {
    pub buckets: Vec<[TTEntry; 4]>,
    pub generation: u8,
}

impl TranspositionTable {
    pub open spec fn entries(self) -> Seq<Seq<TTEntry>> {
        self.buckets@.map_values(|b: [TTEntry; 4]| b@)
    }

    /// The table has all its buckets.
    pub open spec fn wf(self) -> bool {
        self.entries().len() == TT_BUCKETS
    }

    /// Every stored score lies strictly inside the widest search window.
    pub open spec fn scores_bounded(self) -> bool {
        forall|i: int, j: int|
            0 <= i < self.entries().len() && 0 <= j < self.entries()[i].len() ==> VALUE_MIN
                < #[trigger] self.entries()[i][j].score < VALUE_MAX
    }

    pub fn new() -> (r: Self)
        ensures
            r.wf(),
            r.generation == 0,
            forall|i: int, j: int| 0 <= i < TT_BUCKETS && 0 <= j < 4 ==> #[trigger] r.entries()[i][j] == empty_entry(),
    {
        let mut buckets: Vec<[TTEntry; 4]> = Vec::new();
        let mut i: usize = 0;
        while i < TT_BUCKETS
            invariant
                i <= TT_BUCKETS,
                buckets@.len() == i,
                forall|k: int, j: int| 0 <= k < i && 0 <= j < 4 ==> #[trigger] buckets@[k]@[j] == empty_entry(),
            decreases TT_BUCKETS - i,
        {
            buckets.push([TTEntry::new(); 4]);
            i = i + 1;
        }
        let r = TranspositionTable { buckets, generation: 0 };
        assert forall|i: int, j: int| 0 <= i < TT_BUCKETS && 0 <= j < 4 implies #[trigger] r.entries()[i][j] == empty_entry() by {
            assert(r.entries()[i] == r.buckets@[i]@);
        }
        r
    }

    fn bucket_index(hash: u64) -> (r: usize)
        ensures
            r == bucket_of(hash),
            r < TT_BUCKETS,
    {
        (hash % (TT_BUCKETS as u64)) as usize
    }

    /// The entry stored for `hash`, if there is one.
    pub fn probe(&self, hash: u64) -> (r: Option<&TTEntry>)
        requires
            self.wf(),
        ensures
            r matches Some(e) ==> find_slot(self.entries()[bucket_of(hash)], hash) matches Some(j) && *e == self.entries()[bucket_of(
                hash,
            )][j],
            r is None ==> find_slot(self.entries()[bucket_of(hash)], hash) is None,
            self.scores_bounded() ==> (r matches Some(e) ==> VALUE_MIN < e.score < VALUE_MAX),
    {
        let idx = Self::bucket_index(hash);
        let bucket = &self.buckets[idx];
        let mut j: usize = 0;
        while j < BUCKET_SIZE
            invariant
                j <= BUCKET_SIZE,
                self.wf(),
                idx == bucket_of(hash),
                idx < TT_BUCKETS,
                bucket@ == self.entries()[bucket_of(hash)],
                forall|k: int| 0 <= k < j ==> (#[trigger] bucket[k]).hash != hash,
            decreases BUCKET_SIZE - j,
        {
            if bucket[j].hash == hash {
                proof {
                    let i = bucket_of(hash);
                    assert(self.entries()[i] == self.buckets@[i]@);
                    assert(self.entries()[i][j as int] == bucket[j as int]);
                }
                return Some(&bucket[j]);
            }
            j = j + 1;
        }
        None
    }

    /// Stores an entry for `hash` in the slot `replace_slot` picks, stamped with the current
    /// generation.
    pub fn insert(&mut self, hash: u64, depth: u8, score: i32, flag: Bound, best_move: Option<Move>)
        requires
            old(self).wf(),
        ensures
            final(self).wf(),
            final(self).generation == old(self).generation,
            final(self).entries() == old(self).entries().update(
                bucket_of(hash),
                old(self).entries()[bucket_of(hash)].update(
                    replace_slot(old(self).entries()[bucket_of(hash)], depth, old(self).generation),
                    TTEntry { hash, depth, score, flag, best_move, age: old(self).generation },
                ),
            ),
            old(self).scores_bounded() && VALUE_MIN < score < VALUE_MAX ==> final(self).scores_bounded(),
    {
        let idx = Self::bucket_index(hash);
        let mut bucket = self.buckets[idx];
        let mut replace_idx: usize = 0;
        let mut i: usize = 0;
        while i < BUCKET_SIZE
            invariant_except_break
                replace_idx == 0,
            invariant
                i <= BUCKET_SIZE,
                old(self).wf(),
                0 <= bucket_of(hash) < TT_BUCKETS,
                bucket@ == old(self).entries()[bucket_of(hash)],
                self.generation == old(self).generation,
                forall|k: int| 0 <= k < i ==> !((#[trigger] bucket[k]).hash == 0 || bucket[k].depth < depth || bucket[k].age
                    != self.generation),
            ensures
                replace_idx == replace_slot(old(self).entries()[bucket_of(hash)], depth, old(self).generation),
                replace_idx < 4,
            decreases BUCKET_SIZE - i,
        {
            let entry = bucket[i];
            if entry.hash == 0 || entry.depth < depth || entry.age != self.generation {
                replace_idx = i;
                break;
            }
            i = i + 1;
        }
        let ghost new_entry = TTEntry { hash, depth, score, flag, best_move, age: self.generation };
        bucket[replace_idx] = TTEntry { hash, depth, score, flag, best_move, age: self.generation };
        self.buckets.set(idx, bucket);
        proof {
            assert(self.entries() =~= old(self).entries().update(
                bucket_of(hash),
                old(self).entries()[bucket_of(hash)].update(replace_idx as int, new_entry),
            ));
            if old(self).scores_bounded() && VALUE_MIN < score < VALUE_MAX {
                assert forall|a: int, b: int|
                    0 <= a < self.entries().len() && 0 <= b < self.entries()[a].len() implies VALUE_MIN
                        < #[trigger] self.entries()[a][b].score < VALUE_MAX by {
                    if a != bucket_of(hash) || b != replace_idx {
                        assert(self.entries()[a][b] == old(self).entries()[a][b]);
                    }
                }
            }
        }
    }

    pub fn new_generation(&mut self)
        requires
            old(self).wf(),
        ensures
            final(self).wf(),
            final(self).entries() == old(self).entries(),
            final(self).generation == old(self).generation.wrapping_add(1),
    {
        self.generation = self.generation.wrapping_add(1);
    }
}

} // verus!

verus! {

/// `-x`, saturating at the ends of `i32`.
pub open spec fn neg_sat(x: i32) -> i32 {
    if x == i32::MIN { i32::MAX } else { (-x) as i32 }
}

/// `x - 1`, saturating at the ends of `i32`.
pub open spec fn pred_sat(x: i32) -> i32 {
    if x == i32::MIN { i32::MIN } else { (x - 1) as i32 }
}

pub fn negate(x: i32) -> (r: i32)
    ensures
        r == neg_sat(x),
{
    if x == i32::MIN { i32::MAX } else { -x }
}

pub fn predecessor(x: i32) -> (r: i32)
    ensures
        r == pred_sat(x),
{
    if x == i32::MIN { i32::MIN } else { x - 1 }
}

/// The search engine: transposition table, deadline, node count, killer moves per ply and the
/// history heuristic.
pub struct Engine {
    pub tt: TranspositionTable,
    pub deadline: Option<Instant>,
    pub time_up: bool,
    pub nodes: u64,
    pub killer_moves: [[Option<(usize, usize)>; 2]; 64],
    pub history: [[i32; 64]; 64],
    pub best_score: i32,
}

/// A probe right after an insert finds the inserted entry, unless a slot of the bucket before
/// the one replaced already held the same hash (that older entry is found then).
pub proof fn lemma_probe_after_insert(
    bucket: Seq<TTEntry>,
    hash: u64,
    depth: u8,
    score: i32,
    flag: Bound,
    best_move: Option<Move>,
    generation: u8,
)
    requires
        bucket.len() == 4,
        forall|k: int| 0 <= k < replace_slot(bucket, depth, generation) ==> #[trigger] bucket[k].hash != hash,
    ensures
        ({
            let j = replace_slot(bucket, depth, generation);
            let e = TTEntry { hash, depth, score, flag, best_move, age: generation };
            let nb = bucket.update(j, e);
            find_slot(nb, hash) == Some(j) && nb[j] == e
        }),
{
    let j = replace_slot(bucket, depth, generation);
    assert(0 <= j < 4);
    if j >= 1 {
        assert(bucket[0].hash != hash);
    }
    if j >= 2 {
        assert(bucket[1].hash != hash);
    }
    if j >= 3 {
        assert(bucket[2].hash != hash);
    }
}

impl Engine {
    pub open spec fn wf(self) -> bool {
        self.tt.wf()
    }

    pub fn new() -> (r: Self)
        ensures
            r.wf(),
            r.tt.scores_bounded(),
            r.tt.generation == 0,
            forall|i: int, j: int| 0 <= i < TT_BUCKETS && 0 <= j < 4 ==> #[trigger] r.tt.entries()[i][j] == empty_entry(),
            r.deadline is None,
            !r.time_up,
            r.nodes == 0,
            forall|p: int, k: int| 0 <= p < 64 && 0 <= k < 2 ==> (#[trigger] r.killer_moves@[p]@[k]) is None,
            forall|f: int, t: int| 0 <= f < 64 && 0 <= t < 64 ==> #[trigger] r.history@[f]@[t] == 0,
            r.best_score == 0,
    {
        let tt = TranspositionTable::new();
        assert forall|i: int, j: int|
            0 <= i < tt.entries().len() && 0 <= j < tt.entries()[i].len() implies VALUE_MIN
                < #[trigger] tt.entries()[i][j].score < VALUE_MAX by {
            assert(tt.entries()[i] == tt.buckets@[i]@);
            assert(tt.entries()[i][j] == empty_entry());
        }
        Engine {
            tt,
            deadline: None,
            time_up: false,
            nodes: 0,
            killer_moves: [[None; 2]; 64],
            history: [[0i32; 64]; 64],
            best_score: 0,
        }
    }

    /// Forgets the killer moves and the history heuristic of earlier searches.
    pub fn clear_search_stats(&mut self)
        ensures
            final(self).tt == old(self).tt,
            final(self).deadline == old(self).deadline,
            final(self).time_up == old(self).time_up,
            final(self).nodes == old(self).nodes,
            forall|p: int, k: int| 0 <= p < 64 && 0 <= k < 2 ==> (#[trigger] final(self).killer_moves@[p]@[k]) is None,
            forall|f: int, t: int| 0 <= f < 64 && 0 <= t < 64 ==> #[trigger] final(self).history@[f]@[t] == 0,
    {
        self.killer_moves = [[None; 2]; 64];
        self.history = [[0i32; 64]; 64];
    }

    /// Counts a node, and every 2048 nodes checks the deadline, marking the time as up once it
    /// has passed.
    pub fn count_node(&mut self)
        ensures
            final(self).tt == old(self).tt,
            final(self).nodes == old(self).nodes.wrapping_add(1),
            old(self).time_up ==> final(self).time_up,
            old(self).deadline is None ==> final(self).time_up == old(self).time_up,
            final(self).time_up != old(self).time_up ==> final(self).nodes % 2048 == 0 && deadline_passed(*old(self)),
            final(self).deadline == old(self).deadline,
            final(self).killer_moves == old(self).killer_moves,
            final(self).history == old(self).history,
            final(self).best_score == old(self).best_score,
    {
        self.nodes = self.nodes.wrapping_add(1);
        if self.nodes % 2048 == 0 {
            if let Some(deadline) = self.deadline {
                let now = instant_now();
                if instant_reached(&now, &deadline) {
                    self.time_up = true;
                    assert(instant_at_or_after(now, deadline));
                }
            }
        }
    }

    /// Sets the deadline `max_ms` milliseconds from now (none where that instant cannot be
    /// represented).
    pub fn set_deadline(&mut self, max_ms: u64)
        ensures
            exists|now: Instant| final(self).deadline == instant_plus(now, duration_of_millis(max_ms)),
            final(self).tt == old(self).tt,
            final(self).time_up == old(self).time_up,
            final(self).nodes == old(self).nodes,
            final(self).killer_moves == old(self).killer_moves,
            final(self).history == old(self).history,
            final(self).best_score == old(self).best_score,
    {
        let start = instant_now();
        self.deadline = instant_after(start, millis(max_ms));
        assert(self.deadline == instant_plus(start, duration_of_millis(max_ms)));
    }
}

} // verus!

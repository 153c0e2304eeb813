//! The UCI protocol: the words of a command line, and what the engine answers to them.
use vstd::prelude::*;
use vstd::string::{StrSliceExecFns, StringExecFns};
use vstd::string::StringSliceAdditionalSpecFns;
use crate::apply_undo_move::{Move, apply_ok, position_after};
use crate::chess::{Chess, Position};
use crate::color::Color;
use crate::engine::engine::Engine;
use crate::engine::minimax::{no_legal_move, lemma_no_legal_same};
use crate::engine::best_move::{no_move_score, timed_search, depth_search, root_search, lemma_depth_step};
use crate::engine::minimax::{SearchTables, tables_of};
use crate::engine::engine::{limit_reached, instant_plus, duration_of_millis, instant_at_or_after, neg_sat};
use instant::Instant;
use crate::fen::{parse_usize, parses_usize, usize_value, parse_fen, valid_fen, fen_position, start_square};
use crate::movegeneration::{legal_move, lemma_pseudo_reversible};
use crate::opening_book::{start_position, is_uci_readable};
use crate::perft::{legal_set, lemma_legal_set};
use crate::uci::{uci_readable, uci_move, uci_text, uci_to_move, move_to_uci};
use crate::text::{chars_of, string_of};

verus! {

/// Unicode white space, as `char::is_whitespace` tests it.
pub open spec fn white_space(c: char) -> bool {
    ||| c == '\t' || c == '\n' || c == '\u{0B}' || c == '\u{0C}' || c == '\r' || c == ' '
    ||| c == '\u{85}' || c == '\u{A0}' || c == '\u{1680}'
    ||| ('\u{2000}' <= c && c <= '\u{200A}')
    ||| c == '\u{2028}' || c == '\u{2029}' || c == '\u{202F}' || c == '\u{205F}' || c == '\u{3000}'
}

fn is_white_space(c: char) -> (r: bool)
    ensures
        r == white_space(c),
{
    c == '\t' || c == '\n' || c == '\u{0B}' || c == '\u{0C}' || c == '\r' || c == ' ' || c == '\u{85}'
        || c == '\u{A0}' || c == '\u{1680}' || ('\u{2000}' <= c && c <= '\u{200A}') || c == '\u{2028}' || c
        == '\u{2029}' || c == '\u{202F}' || c == '\u{205F}' || c == '\u{3000}'
}

/// The words finished after reading `cs`, and the word being read.
pub open spec fn split_state(cs: Seq<char>) -> (Seq<Seq<char>>, Seq<char>)
    decreases cs.len(),
{
    if cs.len() == 0 {
        (Seq::empty(), Seq::empty())
    } else {
        let (done, cur) = split_state(cs.drop_last());
        if white_space(cs.last()) {
            (if cur.len() > 0 { done.push(cur) } else { done }, Seq::empty())
        } else {
            (done, cur.push(cs.last()))
        }
    }
}

/// The words of a text: its longest runs of characters that are not white space.
pub open spec fn words(cs: Seq<char>) -> Seq<Seq<char>> {
    let (done, cur) = split_state(cs);
    if cur.len() > 0 { done.push(cur) } else { done }
}

/// The texts of a list of strings.
pub open spec fn texts(v: Seq<String>) -> Seq<Seq<char>> {
    v.map_values(|w: String| w@)
}

/// The words of `s`, in order.
pub fn split_whitespace(s: &str) -> (r: Vec<String>)
    ensures
        texts(r@) == words(s@),
{
    let cs = chars_of(s);
    let mut done: Vec<String> = Vec::new();
    let mut cur: Vec<char> = Vec::new();
    let mut i: usize = 0;
    while i < cs.len()
        invariant
            cs@ == s@,
            i <= cs@.len(),
            texts(done@) == split_state(cs@.subrange(0, i as int)).0,
            cur@ == split_state(cs@.subrange(0, i as int)).1,
        decreases cs@.len() - i,
    {
        let c = cs[i];
        proof {
            assert(cs@.subrange(0, i + 1).drop_last() =~= cs@.subrange(0, i as int));
        }
        if is_white_space(c) {
            if cur.len() > 0 {
                let w = string_of(&cur);
                let ghost before = done@;
                done.push(w);
                assert(texts(done@) =~= texts(before).push(w@));
            }
            cur = Vec::new();
        } else {
            cur.push(c);
        }
        i = i + 1;
    }
    proof {
        assert(cs@.subrange(0, cs@.len() as int) =~= s@);
    }
    if cur.len() > 0 {
        let w = string_of(&cur);
        let ghost before = done@;
        done.push(w);
        assert(texts(done@) =~= texts(before).push(w@));
    }
    done
}

/// Whether a word is the given text.
pub fn word_is(w: &String, lit: &str) -> (r: bool)
    ensures
        r == (w@ == lit@),
{
    let a = w.as_str();
    let n = a.unicode_len();
    if n != lit.unicode_len() {
        return false;
    }
    let mut i: usize = 0;
    while i < n
        invariant
            n == a@.len(),
            n == lit@.len(),
            a@ == w@,
            i <= n,
            forall|j: int| 0 <= j < i ==> a@[j] == lit@[j],
        decreases n - i,
    {
        if a.get_char(i) != lit.get_char(i) {
            return false;
        }
        i = i + 1;
    }
    assert(a@ =~= lit@);
    true
}

/// Index of the first word "moves" from `i` on, or the number of words.
pub open spec fn moves_index(t: Seq<Seq<char>>, i: int) -> int
    decreases t.len() - i,
{
    if i >= t.len() {
        t.len() as int
    } else if t[i] == "moves"@ {
        i
    } else {
        moves_index(t, i + 1)
    }
}

/// The words from `i` on, after the word "moves" if it stands at `i`.
pub open spec fn after_moves_word(t: Seq<Seq<char>>, i: int) -> Seq<Seq<char>> {
    if i < t.len() && t[i] == "moves"@ {
        t.subrange(i + 1, t.len() as int)
    } else {
        t.subrange(i, t.len() as int)
    }
}

/// Words joined by single spaces.
pub open spec fn join_words(ws: Seq<Seq<char>>) -> Seq<char>
    decreases ws.len(),
{
    if ws.len() == 0 {
        Seq::empty()
    } else if ws.len() == 1 {
        ws[0]
    } else {
        join_words(ws.drop_last()) + seq![' '] + ws.last()
    }
}

/// The FEN text a "position" command gives: the words after "fen" up to "moves", if any.
pub open spec fn position_fen(t: Seq<Seq<char>>) -> Option<Seq<char>> {
    if t.len() > 1 && t[1] == "startpos"@ {
        None
    } else if t.len() > 1 && t[1] == "fen"@ {
        let j = moves_index(t, 2);
        if j > 2 { Some(join_words(t.subrange(2, j))) } else { None }
    } else {
        None
    }
}

/// The moves a "position" command gives: the words after the position and the word "moves".
pub open spec fn position_moves(t: Seq<Seq<char>>) -> Seq<Seq<char>> {
    if t.len() > 1 && t[1] == "startpos"@ {
        after_moves_word(t, 2)
    } else if t.len() > 1 && t[1] == "fen"@ {
        after_moves_word(t, moves_index(t, 2))
    } else {
        after_moves_word(t, 1)
    }
}

proof fn lemma_moves_index_bounds(t: Seq<Seq<char>>, i: int)
    requires
        0 <= i,
    ensures
        i <= t.len() ==> i <= moves_index(t, i) <= t.len(),
        i > t.len() ==> moves_index(t, i) == t.len(),
        forall|j: int| i <= j < moves_index(t, i) ==> t[j] != "moves"@,
        moves_index(t, i) < t.len() ==> t[moves_index(t, i)] == "moves"@,
    decreases t.len() - i,
{
    if i < t.len() && t[i] != "moves"@ {
        lemma_moves_index_bounds(t, i + 1);
    }
}

/// The words of `tokens` from `from` on, copied.
fn words_from(tokens: &Vec<String>, from: usize) -> (r: Vec<String>)
    requires
        from <= tokens@.len(),
    ensures
        texts(r@) == texts(tokens@).subrange(from as int, tokens@.len() as int),
{
    let mut r: Vec<String> = Vec::new();
    let mut i: usize = from;
    while i < tokens.len()
        invariant
            from <= i <= tokens@.len(),
            texts(r@) == texts(tokens@).subrange(from as int, i as int),
        decreases tokens@.len() - i,
    {
        let w = tokens[i].clone();
        assert(w@ == tokens@[i as int]@);
        let ghost before = r@;
        r.push(w);
        assert(texts(r@) =~= texts(before).push(w@));
        assert(texts(tokens@).subrange(from as int, i + 1) =~= texts(tokens@).subrange(from as int, i as int).push(
            texts(tokens@)[i as int],
        ));
        i = i + 1;
    }
    r
}

/// The FEN text and the moves of a "position" command.
pub fn position_args(tokens: &Vec<String>) -> (r: (Option<String>, Vec<String>))
    requires
        tokens@.len() >= 1,
    ensures
        match r.0 {
            Some(f) => position_fen(texts(tokens@)) == Some(f@),
            None => position_fen(texts(tokens@)) is None,
        },
        texts(r.1@) == position_moves(texts(tokens@)),
{
    let ghost t = texts(tokens@);
    let n = tokens.len();
    let mut fen: Option<String> = None;
    let mut i: usize = 1;
    if i < n && word_is(&tokens[i], "startpos") {
        i = i + 1;
    } else if i < n && word_is(&tokens[i], "fen") {
        i = i + 1;
        let mut text = String::new();
        proof {
            lemma_moves_index_bounds(t, 2);
        }
        while i < n && !word_is(&tokens[i], "moves")
            invariant
                t == texts(tokens@),
                n == tokens@.len(),
                n > 1,
                t[1] == "fen"@,
                2 <= i <= moves_index(t, 2) <= n,
                forall|j: int| 2 <= j < moves_index(t, 2) ==> t[j] != "moves"@,
                moves_index(t, 2) < n ==> t[moves_index(t, 2)] == "moves"@,
                text@ == join_words(t.subrange(2, i as int)),
            decreases n - i,
        {
            if i > 2 {
                crate::text::push_char(&mut text, ' ');
            }
            let ghost before = text@;
            text.append(tokens[i].as_str());
            proof {
                let ws = t.subrange(2, i + 1);
                assert(ws.drop_last() =~= t.subrange(2, i as int));
                assert(ws.last() == tokens@[i as int]@);
                if i == 2 {
                    assert(text@ =~= join_words(ws));
                } else {
                    assert(text@ =~= join_words(ws));
                }
            }
            i = i + 1;
        }
        proof {
            if i < n {
                assert(t[i as int] == "moves"@);
            }
            assert(i == moves_index(t, 2));
        }
        if i > 2 {
            fen = Some(text);
        }
    }
    if i < n && word_is(&tokens[i], "moves") {
        i = i + 1;
    }
    let moves = words_from(tokens, i);
    (fen, moves)
}

/// A number word read as parsing reads it, or `d` where it cannot be read.
pub open spec fn number_or(cs: Seq<char>, d: u64) -> u64 {
    if parses_usize(cs) { usize_value(cs) as u64 } else { d }
}

/// A number word that fits in a byte, or `d`.
pub open spec fn small_number_or(cs: Seq<char>, d: u8) -> u8 {
    if parses_usize(cs) && usize_value(cs) <= 255 { usize_value(cs) as u8 } else { d }
}

fn read_number_or(w: &String, d: u64) -> (r: u64)
    ensures
        r == number_or(w@, d),
{
    match parse_usize(w.as_str()) {
        Some(v) => v as u64,
        None => d,
    }
}

fn read_small_number_or(w: &String, d: u8) -> (r: u8)
    ensures
        r == small_number_or(w@, d),
{
    match parse_usize(w.as_str()) {
        Some(v) => if v <= 255 { v as u8 } else { d },
        None => d,
    }
}

/// The time to think for a move: a fortieth of the clock plus the increment (capped at
/// `u64::MAX`), at least 100 ms.
pub open spec fn movetime_value(time: u64, inc: u64) -> u64 {
    let t = if time / 40 + inc > u64::MAX { u64::MAX as int } else { time / 40 + inc };
    if t < 100 { 100 } else { t as u64 }
}

pub fn movetime_for(time: u64, inc: u64) -> (r: u64)
    ensures
        r == movetime_value(time, inc),
{
    let t = (time / 40).saturating_add(inc);
    if t < 100 { 100 } else { t }
}

/// A "name value" pair at `j`, or the default and `j` unchanged.
pub open spec fn named_value(t: Seq<Seq<char>>, j: int, name: Seq<char>, d: u64) -> (u64, int) {
    if j + 1 < t.len() && t[j] == name { (number_or(t[j + 1], d), j + 2) } else { (d, j) }
}

pub proof fn lemma_named_value_index(t: Seq<Seq<char>>, j: int, name: Seq<char>, d: u64)
    ensures
        named_value(t, j, name, d).1 == j || (named_value(t, j, name, d).1 == j + 2 && j + 2 <= t.len()),
{
}

/// The search limits of a "go" command read from word `i` on: the depth and the time to think,
/// `None` where a "depth" or "movetime" word has no value after it.
pub open spec fn go_scan(t: Seq<Seq<char>>, i: int, depth: u8, mt: Option<u64>, white: bool) -> Option<(u8, Option<u64>)>
    decreases t.len() + 2 - i,
{
    if i >= t.len() || i < 0 {
        Some((depth, mt))
    } else if t[i] == "depth"@ {
        if i + 1 >= t.len() { None } else { go_scan(t, i + 2, small_number_or(t[i + 1], 10), mt, white) }
    } else if t[i] == "movetime"@ {
        if i + 1 >= t.len() { None } else { go_scan(t, i + 2, depth, Some(number_or(t[i + 1], 100)), white) }
    } else if t[i] == "wtime"@ {
        let wt = if i + 1 < t.len() { number_or(t[i + 1], 60000) } else { 60000 };
        let b = named_value(t, i + 2, "btime"@, 60000);
        let wi = named_value(t, b.1, "winc"@, 0);
        let bi = named_value(t, wi.1, "binc"@, 0);
        proof {
            lemma_named_value_index(t, i + 2, "btime"@, 60000);
            lemma_named_value_index(t, b.1, "winc"@, 0);
            lemma_named_value_index(t, wi.1, "binc"@, 0);
        }
        let m = if white { movetime_value(wt, wi.0) } else { movetime_value(b.0, bi.0) };
        go_scan(t, bi.1 + 1, depth, Some(m), white)
    } else if t[i] == "infinite"@ {
        go_scan(t, i + 1, depth, Some(3600000), white)
    } else {
        go_scan(t, i + 1, depth, mt, white)
    }
}

fn read_named(tokens: &Vec<String>, j: usize, name: &str, d: u64) -> (r: (u64, usize))
    requires
        j <= tokens@.len() + 2,
        tokens@.len() < usize::MAX - 8,
    ensures
        (r.0, r.1 as int) == named_value(texts(tokens@), j as int, name@, d),
{
    if j + 1 < tokens.len() && word_is(&tokens[j], name) {
        (read_number_or(&tokens[j + 1], d), j + 2)
    } else {
        (d, j)
    }
}

/// The depth and the time to think a "go" command asks for (depth 10 and no time limit when it
/// names none), for the side `white` says; `None` where "depth" or "movetime" has no value.
pub fn go_limits(tokens: &Vec<String>, white: bool) -> (r: Option<(u8, Option<u64>)>)
    requires
        tokens@.len() < usize::MAX - 8,
    ensures
        r == go_scan(texts(tokens@), 1, 10, None, white),
{
    let ghost t = texts(tokens@);
    let n = tokens.len();
    let mut depth: u8 = 10;
    let mut movetime: Option<u64> = None;
    let mut i: usize = 1;
    while i < n
        invariant
            t == texts(tokens@),
            n == tokens@.len(),
            n < usize::MAX - 8,
            1 <= i <= n + 2,
            go_scan(t, i as int, depth, movetime, white) == go_scan(t, 1, 10, None, white),
        decreases n + 2 - i,
    {
        if word_is(&tokens[i], "depth") {
            if i + 1 >= n {
                return None;
            }
            depth = read_small_number_or(&tokens[i + 1], 10);
            i = i + 2;
        } else if word_is(&tokens[i], "movetime") {
            if i + 1 >= n {
                return None;
            }
            movetime = Some(read_number_or(&tokens[i + 1], 100));
            i = i + 2;
        } else if word_is(&tokens[i], "wtime") {
            let wt = if i + 1 < n { read_number_or(&tokens[i + 1], 60000) } else { 60000 };
            let (bt, j1) = read_named(tokens, i + 2, "btime", 60000);
            let (winc, j2) = read_named(tokens, j1, "winc", 0);
            let (binc, j3) = read_named(tokens, j2, "binc", 0);
            movetime = Some(if white { movetime_for(wt, winc) } else { movetime_for(bt, binc) });
            i = j3 + 1;
        } else if word_is(&tokens[i], "infinite") {
            movetime = Some(3600000);
            i = i + 1;
        } else {
            i = i + 1;
        }
    }
    Some((depth, movetime))
}

/// The bytes of each word.
pub open spec fn word_bytes(ws: Seq<Seq<char>>) -> Seq<Seq<u8>> {
    ws.map_values(|w: Seq<char>| vstd::utf8::encode_utf8(w))
}

/// Every word can be read as a move.
pub open spec fn all_readable(ms: Seq<Seq<u8>>) -> bool {
    forall|i: int| 0 <= i < ms.len() ==> uci_readable(#[trigger] ms[i])
}

/// The position after playing the moves in turn, passing over any that names no playable move.
pub open spec fn play_moves(p: Position, ms: Seq<Seq<u8>>) -> Position
    decreases ms.len(),
{
    if ms.len() == 0 {
        p
    } else {
        let q = play_moves(p, ms.drop_last());
        match uci_move(ms.last(), q) {
            Some(m) => if apply_ok(q, m) { position_after(q, m) } else { q },
            None => q,
        }
    }
}

/// The position a "position" command starts from.
pub open spec fn base_position(f: Option<Seq<char>>) -> Position {
    match f {
        Some(cs) => fen_position(cs),
        None => start_position(),
    }
}

/// An answer line naming a move of `p`, or none.
pub open spec fn best_move_line(p: Position, line: Seq<char>) -> bool {
    line == "bestmove 0000"@ || exists|m: Move| #[trigger] legal_set(p).contains(m) && line == "bestmove "@
        + uci_text(m)
}

/// What the engine does with a command line.
pub enum Reply {
    /// Lines to print.
    Lines(Vec<String>),
    /// The engine stops.
    Quit,
    /// The FEN text of a "position" command cannot be read.
    BadFen,
    /// A move of a "position" command cannot be read.
    BadMove,
    /// A "depth" or "movetime" of a "go" command has no value.
    BadGo,
}

/// The answer to the command `t` on position `p0`, leaving position `p1`.
pub open spec fn answered(t: Seq<Seq<char>>, p0: Position, p1: Position, r: Reply) -> bool {
    let c = t[0];
    if c == "uci"@ {
        &&& r matches Reply::Lines(ls) && texts(ls@) == seq!["id name v0.5.0"@, "id author KoenStevens"@, "uciok"@]
        &&& p1 == p0
    } else if c == "isready"@ {
        &&& r matches Reply::Lines(ls) && texts(ls@) == seq!["readyok"@]
        &&& p1 == p0
    } else if c == "ucinewgame"@ {
        &&& r matches Reply::Lines(ls) && ls@.len() == 0
        &&& p1 == start_position()
    } else if c == "position"@ {
        let f = position_fen(t);
        let ms = word_bytes(position_moves(t));
        if f matches Some(cs) && !valid_fen(cs) {
            r is BadFen
        } else if !all_readable(ms) {
            r is BadMove
        } else {
            &&& r matches Reply::Lines(ls) && ls@.len() == 0
            &&& p1 == play_moves(base_position(f), ms)
        }
    } else if c == "go"@ {
        if go_scan(t, 1, 10, None, p0.active_color == Color::White) is None {
            r is BadGo
        } else {
            &&& r matches Reply::Lines(ls) && ls@.len() == 1 && best_move_line(p0, ls@[0]@)
            &&& p1 == p0
        }
    } else if c == "quit"@ {
        &&& r is Quit
        &&& p1 == p0
    } else {
        &&& r matches Reply::Lines(ls) && ls@.len() == 0
        &&& p1 == p0
    }
}

/// The answer line naming the move `mo`, or the null move when there is none.
pub open spec fn answer_line(mo: Option<Move>) -> Seq<char> {
    match mo {
        Some(m) => "bestmove "@ + uci_text(m),
        None => "bestmove 0000"@,
    }
}

/// The answer `line` to a "go" with limits `lim` (depth, and move time if any) on board `b`,
/// engine `e0` searching and ending as `e1`: the null move near the end of the move counter or
/// without a legal move; else, unless the search ran to its time limit, the move of the timed
/// search for a move time, or of the searches to the depth.
pub open spec fn go_answer(e0: Engine, b: Chess, lim: (u8, Option<u64>), e1: Engine, line: Seq<char>) -> bool {
    if b.fullmove_number >= usize::MAX - 400 || no_legal_move(b) {
        line == "bestmove 0000"@
    } else {
        match lim.1 {
            Some(ms) => limit_reached(ms) || exists|mo: Option<Move>|
                #[trigger] timed_search(e0, b, mo, e1) && line == answer_line(mo),
            None => limit_reached(3600000) || exists|mo: Option<Move>|
                #[trigger] depth_search(tables_of(e0), b, 1, lim.0, None, mo, tables_of(e1)) && line == answer_line(mo),
        }
    }
}

/// A board and an engine that searches on it.
pub struct UciState {
    pub board: Chess,
    pub engine: Engine,
}

impl UciState {
    pub open spec fn wf(&self) -> bool {
        &&& self.board.wf()
        &&& self.engine.wf()
    }

    /// The start position and a fresh engine.
    pub fn new() -> (r: Self)
        ensures
            r.wf(),
            r.board@ == start_position(),
    {
        let board = Chess::new();
        proof {
            assert(board@.squares =~= start_position().squares);
        }
        UciState { board, engine: Engine::new() }
    }

    /// Sets up the board of a FEN text (the start position for none) and plays the moves,
    /// passing over those that name no playable move. `false`, and the board unchanged, where the
    /// FEN text or a move cannot be read.
    pub fn set_position(&mut self, fen: Option<&str>, moves: &Vec<String>) -> (r: bool)
        requires
            old(self).wf(),
        ensures
            final(self).wf(),
            r == ((match fen { Some(f) => valid_fen(f@), None => true }) && all_readable(
                word_bytes(texts(moves@)),
            )),
            r ==> final(self).board@ == play_moves(
                base_position(match fen { Some(f) => Some(f@), None => None }),
                word_bytes(texts(moves@)),
            ),
            !r ==> final(self).board@ == old(self).board@,
    {
        let ghost ms = word_bytes(texts(moves@));
        let mut board = match fen {
            Some(f) => match parse_fen(f) {
                Some(b) => b,
                None => {
                    return false;
                },
            },
            None => {
                let b = Chess::new();
                proof {
                    assert(b@.squares =~= start_position().squares);
                }
                b
            },
        };
        let mut k: usize = 0;
        while k < moves.len()
            invariant
                k <= moves@.len(),
                ms == word_bytes(texts(moves@)),
                forall|i: int| 0 <= i < k ==> uci_readable(#[trigger] ms[i]),
                self.wf(),
                self.board@ == old(self).board@,
            decreases moves@.len() - k,
        {
            let s = moves[k].as_str();
            proof {
                assert(ms[k as int] == s.spec_bytes());
            }
            if !is_uci_readable(s) {
                return false;
            }
            k = k + 1;
        }
        let ghost start = board@;
        let mut k: usize = 0;
        proof {
            assert(ms.subrange(0, 0) =~= Seq::<Seq<u8>>::empty());
        }
        while k < moves.len()
            invariant
                k <= moves@.len(),
                ms == word_bytes(texts(moves@)),
                all_readable(ms),
                board.wf(),
                board@ == play_moves(start, ms.subrange(0, k as int)),
            decreases moves@.len() - k,
        {
            let s = moves[k].as_str();
            proof {
                assert(ms.subrange(0, k + 1).drop_last() =~= ms.subrange(0, k as int));
                assert(ms[k as int] == s.spec_bytes());
            }
            match uci_to_move(s, &board) {
                Some(m) => {
                    if board.is_playable(&m) {
                        board.apply_move(&m);
                    }
                },
                None => {},
            }
            k = k + 1;
        }
        proof {
            assert(ms.subrange(0, moves@.len() as int) =~= ms);
        }
        self.board = board;
        true
    }
}

/// A legal move of the side to move, written in UCI notation.
fn legal_move_text(board: &Chess, m: &Move) -> (r: String)
    requires
        board.wf(),
        board.fullmove_number + 400 < usize::MAX,
        legal_move(*board, board.active_color, *m),
    ensures
        r@ == uci_text(*m),
        legal_set(board@).contains(*m),
{
    proof {
        lemma_pseudo_reversible(*board, board.active_color, *m);
        lemma_legal_set(*board);
    }
    move_to_uci(m)
}

impl UciState {
    /// Searches one ply deeper at a time up to `depth` plies (with an hour to spare for each),
    /// stopping early when no move is found: the move of the deepest search, in UCI notation.
    #[verifier::rlimit(60)]
    pub fn go_depth(&mut self, depth: u8) -> (r: Option<String>)
        requires
            old(self).wf(),
            old(self).board.fullmove_number + 400 < usize::MAX,
        ensures
            final(self).wf(),
            final(self).board@ == old(self).board@,
            r matches Some(s) ==> exists|m: Move| #[trigger] legal_set(old(self).board@).contains(m) && s@
                == uci_text(m),
            depth == 0 ==> r is None,
            no_legal_move(old(self).board) ==> r is None,
            r is None && depth >= 1 && !no_legal_move(old(self).board) ==> final(self).engine.best_score
                == no_move_score(old(self).board.active_color),
            !no_legal_move(old(self).board) ==> limit_reached(3600000) || exists|mo: Option<Move>|
                #[trigger] depth_search(
                    tables_of(old(self).engine),
                    old(self).board,
                    1,
                    depth,
                    None,
                    mo,
                    tables_of(final(self).engine),
                ) && (r is None <==> mo is None) && (r matches Some(s) ==> s@ == uci_text(mo->0)),
    {
        let ghost p0 = self.board@;
        let ghost b0 = self.board;
        let ghost t0 = tables_of(self.engine);
        let ghost mut best_m: Option<Move> = None;
        let ghost mut timed_out = false;
        let mut best: Option<String> = None;
        let mut current: u8 = 1;
        proof {
            if depth == 0 {
                assert(depth_search(t0, b0, 1, depth, None, None, t0));
            }
        }
        while current <= depth
            invariant_except_break
                !timed_out && !no_legal_move(b0) ==> forall|mo: Option<Move>, tff: SearchTables|
                    #[trigger] depth_search(tables_of(self.engine), b0, current, depth, best_m, mo, tff)
                    ==> depth_search(t0, b0, 1, depth, None, mo, tff),
            invariant
                self.wf(),
                self.board@ == p0,
                b0@ == p0,
                b0.wf(),
                self.board.fullmove_number + 400 < usize::MAX,
                1 <= current,
                best matches Some(s) ==> exists|m: Move| #[trigger] legal_set(p0).contains(m) && s@ == uci_text(m),
                best is None ==> current == 1,
                no_legal_move(b0) ==> best is None,
                depth == 0 ==> best is None,
                best is None <==> best_m is None,
                best matches Some(s) ==> s@ == uci_text(best_m->0),
                timed_out ==> limit_reached(3600000),
                depth == 0 ==> depth_search(t0, b0, 1, depth, None, None, t0) && tables_of(self.engine) == t0,
                current <= depth || depth == 0,
            ensures
                depth == 0 ==> best is None,
                best is None <==> best_m is None,
                best matches Some(s) ==> s@ == uci_text(best_m->0),
                timed_out ==> limit_reached(3600000),
                !timed_out && !no_legal_move(b0) ==> depth_search(t0, b0, 1, depth, None, best_m, tables_of(self.engine)),
                best matches Some(s) ==> exists|m: Move| #[trigger] legal_set(p0).contains(m) && s@ == uci_text(m),
                no_legal_move(b0) ==> best is None,
                best is None ==> depth == 0 || no_legal_move(b0) || self.engine.best_score == no_move_score(
                    b0.active_color,
                ),
            decreases depth + 1 - current,
        {
            let ghost t_head = tables_of(self.engine);
            self.engine.set_deadline(3600000);
            let ghost start = choose|now: Instant| self.engine.deadline == instant_plus(now, duration_of_millis(3600000));
            self.engine.time_up = false;
            self.engine.nodes = 0;
            let ghost before = self.board;
            let ghost tb = tables_of(self.engine);
            assert(tb == t_head);
            let ghost bm_before = best_m;
            let found = self.engine.get_best_move(&mut self.board, current);
            let ghost ta = tables_of(self.engine);
            proof {
                lemma_no_legal_same(before, b0);
                if self.engine.time_up {
                    let dl = self.engine.deadline->0;
                    let now = choose|now: Instant| #[trigger] instant_at_or_after(now, dl);
                    assert(instant_at_or_after(now, instant_plus(start, duration_of_millis(3600000))->0));
                    timed_out = true;
                } else if !timed_out && !no_legal_move(b0) {
                    let a = choose|a: i32|
                        #[trigger] root_search(tb, before, current, found, a, ta) && self.engine.best_score == if before.active_color
                            == Color::White {
                            a
                        } else {
                            neg_sat(a)
                        };
                    lemma_depth_step(tb, ta, before, b0, current, depth, bm_before, found, a);
                }
            }
            match found {
                Some(m) => {
                    proof {
                        crate::movegeneration::lemma_legal_same(before, self.board, before.active_color, m);
                        best_m = Some(m);
                    }
                    let text = legal_move_text(&self.board, &m);
                    best = Some(text);
                },
                None => {
                    break;
                },
            }
            if current == depth {
                break;
            }
            let ghost prev = current;
            current = current + 1;
            assert(current == (prev + 1) as u8);
        }
        best
    }

    /// Searches for `ms` milliseconds: the move found, in UCI notation.
    pub fn go_movetime(&mut self, ms: u64) -> (r: Option<String>)
        requires
            old(self).wf(),
            old(self).board.fullmove_number + 400 < usize::MAX,
        ensures
            final(self).wf(),
            final(self).board@ == old(self).board@,
            final(self).engine.deadline is None,
            r matches Some(s) ==> exists|m: Move| #[trigger] legal_set(old(self).board@).contains(m) && s@
                == uci_text(m),
            no_legal_move(old(self).board) ==> r is None,
            !final(self).engine.time_up && !no_legal_move(old(self).board) ==> (r is None
                <==> final(self).engine.best_score == no_move_score(old(self).board.active_color)),
            !final(self).engine.time_up && !no_legal_move(old(self).board) ==> exists|m: Option<Move>|
                #[trigger] timed_search(old(self).engine, old(self).board, m, final(self).engine) && (r is None <==> m is None)
                    && (r matches Some(s) ==> s@ == uci_text(m->0)),
            final(self).engine.time_up ==> limit_reached(ms),
    {
        let ghost before = self.board;
        let found = self.engine.get_best_move_in_time(&mut self.board, ms);
        proof {
            if !self.engine.time_up && !no_legal_move(before) {
                assert(timed_search(old(self).engine, old(self).board, found, self.engine));
            }
        }
        match found {
            Some(m) => {
                proof {
                    crate::movegeneration::lemma_legal_same(before, self.board, before.active_color, m);
                }
                Some(legal_move_text(&self.board, &m))
            },
            None => None,
        }
    }
}

impl UciState {
    /// Answers one command line, given as its words.
    pub fn handle(&mut self, tokens: &Vec<String>) -> (r: Reply)
        requires
            old(self).wf(),
            1 <= tokens@.len() < usize::MAX - 8,
        ensures
            final(self).wf(),
            answered(texts(tokens@), old(self).board@, final(self).board@, r),
            (texts(tokens@)[0] == "go"@ && go_scan(texts(tokens@), 1, 10, None, old(self).board.active_color == Color::White)
                is Some) ==> (r matches Reply::Lines(ls) && ls@.len() == 1 && go_answer(
                old(self).engine,
                old(self).board,
                go_scan(texts(tokens@), 1, 10, None, old(self).board.active_color == Color::White)->0,
                final(self).engine,
                ls@[0]@,
            )),
    {
        proof {
            reveal_strlit("go");
            reveal_strlit("uci");
            reveal_strlit("isready");
            reveal_strlit("ucinewgame");
            reveal_strlit("position");
        }
        let ghost t = texts(tokens@);
        let c = &tokens[0];
        assert(t[0] == c@);
        if word_is(c, "uci") {
            let mut ls: Vec<String> = Vec::new();
            ls.push(String::from_str("id name v0.5.0"));
            ls.push(String::from_str("id author KoenStevens"));
            ls.push(String::from_str("uciok"));
            assert(texts(ls@) =~= seq!["id name v0.5.0"@, "id author KoenStevens"@, "uciok"@]);
            Reply::Lines(ls)
        } else if word_is(c, "isready") {
            let mut ls: Vec<String> = Vec::new();
            ls.push(String::from_str("readyok"));
            assert(texts(ls@) =~= seq!["readyok"@]);
            Reply::Lines(ls)
        } else if word_is(c, "ucinewgame") {
            *self = UciState::new();
            Reply::Lines(Vec::new())
        } else if word_is(c, "position") {
            let (fen, moves) = position_args(tokens);
            let fen_text: Option<&str> = match &fen {
                Some(f) => Some(f.as_str()),
                None => None,
            };
            if self.set_position(fen_text, &moves) {
                Reply::Lines(Vec::new())
            } else {
                match fen_text {
                    Some(f) => if parse_fen(f).is_none() {
                        Reply::BadFen
                    } else {
                        Reply::BadMove
                    },
                    None => Reply::BadMove,
                }
            }
        } else if word_is(c, "go") {
            let white = self.board.active_color == Color::White;
            match go_limits(tokens, white) {
                None => Reply::BadGo,
                Some((depth, movetime)) => {
                    let best = if self.board.fullmove_number >= usize::MAX - 400 {
                        None
                    } else {
                        match movetime {
                            Some(ms) => self.go_movetime(ms),
                            None => self.go_depth(depth),
                        }
                    };
                    let line = match best {
                        Some(u) => {
                            let mut l = String::from_str("bestmove ");
                            l.append(u.as_str());
                            proof {
                                let m = choose|m: Move| #[trigger] legal_set(old(self).board@).contains(m) && u@
                                    == uci_text(m);
                                assert(l@ == "bestmove "@ + uci_text(m));
                            }
                            l
                        },
                        None => String::from_str("bestmove 0000"),
                    };
                    proof {
                        let b_old = old(self).board;
                        if !(b_old.fullmove_number >= usize::MAX - 400 || no_legal_move(b_old)) {
                            match movetime {
                                Some(ms) => {
                                    if !limit_reached(ms) {
                                        let mo = choose|mo: Option<Move>|
                                            #[trigger] timed_search(old(self).engine, b_old, mo, self.engine) && (best is None
                                                <==> mo is None) && (best matches Some(s) ==> s@ == uci_text(mo->0));
                                        assert(line@ == answer_line(mo));
                                    }
                                },
                                None => {
                                    if !limit_reached(3600000) {
                                        let mo = choose|mo: Option<Move>|
                                            #[trigger] depth_search(
                                                tables_of(old(self).engine),
                                                b_old,
                                                1,
                                                depth,
                                                None,
                                                mo,
                                                tables_of(self.engine),
                                            ) && (best is None <==> mo is None) && (best matches Some(s) ==> s@ == uci_text(mo->0));
                                        assert(line@ == answer_line(mo));
                                    }
                                },
                            }
                        }
                    }
                    let mut ls: Vec<String> = Vec::new();
                    ls.push(line);
                    Reply::Lines(ls)
                },
            }
        } else if word_is(c, "quit") {
            Reply::Quit
        } else {
            Reply::Lines(Vec::new())
        }
    }
}

} // verus!

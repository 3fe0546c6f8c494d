//! The decisions behind the UCI commands: which position a `position`
//! command names, which legal move a move text means, and what a
//! `setoption` command sets.
use vstd::prelude::*;
use crate::types::{Move, MoveList, move_from, move_to, move_promo};
use crate::position::{Position, PosView, spec_make};
use crate::types::spec_move_from_uci;
use crate::playable::{playable, lemma_legal_move_keeps_playable};
use crate::perft::lemma_legal_playable_move;
use vstd::utf8::{encode_utf8, is_char_boundary};
use crate::movegen::{generate_legal, legal_moves};
use crate::playable::gen_ready;
use crate::text::{push_char, push_chars, chars_of, parse_uint, spec_parse_uint, join_spaces};

verus! {

/// The FEN of the start position.
pub open spec fn start_fen() -> Seq<char> {
    "rnbqkbnr/pppppppp/8/8/8/8/PPPPPPPP/RNBQKBNR w KQkq - 0 1"@
}

/// The index of the first `moves` token at or after `i`, or the end.
pub open spec fn moves_index(tokens: Seq<Seq<char>>, i: int) -> int
    decreases tokens.len() - i,
{
    if i < 0 || i >= tokens.len() || tokens[i] == "moves"@ {
        if i < 0 {
            0
        } else {
            i
        }
    } else {
        moves_index(tokens, i + 1)
    }
}

/// What a `position` command names: the FEN text (the start position's for
/// `startpos`, the tokens after `fen` up to `moves` joined by spaces for
/// `fen`) and the index where a `moves` list may start; nothing for any
/// other form.
pub open spec fn spec_position_source(tokens: Seq<Seq<char>>) -> Option<(Seq<char>, int)> {
    if tokens.len() < 2 {
        None
    } else if tokens[1] == "startpos"@ {
        Some((start_fen(), 2))
    } else if tokens[1] == "fen"@ {
        let end = moves_index(tokens, 2);
        Some((join_spaces(tokens.subrange(2, end)), end))
    } else {
        None
    }
}

fn token_is(t: &String, lit: &str) -> (r: bool)
    ensures
        r == (t@ == lit@),
{
    let l = lit.to_owned();
    *t == l
}

/// Reads a `position` command: the FEN it names and where its moves start.
pub fn position_source(tokens: &[String]) -> (r: Option<(String, usize)>)
    ensures
        match spec_position_source(crate::search::string_views(tokens@)) {
            None => r is None,
            Some((fen, idx)) => r matches Some(v) && v.0@ == fen && v.1 == idx,
        },
{
    let ghost ts = crate::search::string_views(tokens@);
    if tokens.len() < 2 {
        return None;
    }
    assert(ts[1] == tokens@[1]@);
    if token_is(&tokens[1], "startpos") {
        let fen = "rnbqkbnr/pppppppp/8/8/8/8/PPPPPPPP/RNBQKBNR w KQkq - 0 1".to_owned();
        return Some((fen, 2));
    }
    if !token_is(&tokens[1], "fen") {
        return None;
    }
    let mut fen = String::new();
    let mut idx: usize = 2;
    while idx < tokens.len() && !token_is(&tokens[idx], "moves")
        invariant
            2 <= idx <= tokens@.len(),
            ts == crate::search::string_views(tokens@),
            ts.len() == tokens@.len(),
            moves_index(ts, 2) == moves_index(ts, idx as int),
            fen@ == join_spaces(ts.subrange(2, idx as int)),
        decreases tokens@.len() - idx,
    {
        assert(ts[idx as int] == tokens@[idx as int]@);
        let ghost before = fen@;
        if idx > 2 {
            push_char(&mut fen, ' ');
        }
        let part = chars_of(tokens[idx].as_str());
        push_chars(&mut fen, &part);
        proof {
            let sub = ts.subrange(2, idx + 1);
            assert(sub.drop_last() =~= ts.subrange(2, idx as int));
            assert(sub.last() == ts[idx as int]);
            if idx == 2 {
                assert(sub.len() == 1);
                assert(fen@ =~= sub[0]);
            } else {
                assert(fen@ =~= before + seq![' '] + sub.last());
            }
        }
        idx += 1;
    }
    proof {
        if idx < tokens@.len() {
            assert(ts[idx as int] == tokens@[idx as int]@);
        }
    }
    Some((fen, idx))
}

/// The first legal move with the same origin, target and promotion as `mv`.
pub open spec fn spec_matching_move(moves: Seq<Move>, mv: Move, n: nat) -> Option<Move>
    decreases n,
{
    if n == 0 || n > moves.len() {
        None
    } else {
        match spec_matching_move(moves, mv, (n - 1) as nat) {
            Some(m) => Some(m),
            None => {
                let c = moves[n - 1];
                if move_from(c) == move_from(mv) && move_to(c) == move_to(mv) && move_promo(c)
                    == move_promo(mv) {
                    Some(c)
                } else {
                    None
                }
            },
        }
    }
}

/// The legal move of `pos` that `mv` names (same origin, target and
/// promotion), if there is one. The position is left as it was.
pub fn matching_legal_move(pos: &mut Position, mv: Move) -> (r: Option<Move>)
    requires
        old(pos).wf(),
        gen_ready(old(pos)@),
    ensures
        final(pos).wf(),
        final(pos)@ == old(pos)@,
        r == spec_matching_move(legal_moves(old(pos)@), mv, legal_moves(old(pos)@).len()),
        r matches Some(m) ==> legal_moves(old(pos)@).contains(m),
{
    let mut list = MoveList::new();
    generate_legal(pos, &mut list);
    let n = list.len();
    let mut i: usize = 0;
    while i < n
        invariant
            i <= n,
            n == list@.len(),
            pos.wf(),
            pos@ == old(pos)@,
            list@ == legal_moves(old(pos)@),
            spec_matching_move(list@, mv, i as nat) is None,
        decreases n - i,
    {
        let c = list.get(i);
        if c.from_sq() == mv.from_sq() && c.to_sq() == mv.to_sq() && c.promotion() == mv.promotion() {
            proof {
                assert(list@[i as int] == c);
                lemma_match_stays(list@, mv, (i + 1) as nat, n as nat);
            }
            return Some(c);
        }
        i += 1;
    }
    None
}

proof fn lemma_match_stays(moves: Seq<Move>, mv: Move, a: nat, b: nat)
    requires
        a <= b <= moves.len(),
        spec_matching_move(moves, mv, a) is Some,
    ensures
        spec_matching_move(moves, mv, b) == spec_matching_move(moves, mv, a),
    decreases b,
{
    if a < b {
        lemma_match_stays(moves, mv, a, (b - 1) as nat);
    }
}

/// The name and value a `setoption` command gives, after `i` tokens: the
/// words after `name` up to `value`, and the words after `value`, each
/// joined with spaces.
pub open spec fn setoption_scan(tokens: Seq<Seq<char>>, i: nat) -> (Seq<char>, Seq<char>, int)
    decreases i,
{
    if i <= 1 || i > tokens.len() {
        (Seq::empty(), Seq::empty(), 0)
    } else {
        let (name, value, mode) = setoption_scan(tokens, (i - 1) as nat);
        let t = tokens[i - 1];
        if t == "name"@ {
            (name, value, 1)
        } else if t == "value"@ {
            (name, value, 2)
        } else if mode == 1 {
            (if name.len() > 0 { name + seq![' '] + t } else { name + t }, value, mode)
        } else if mode == 2 {
            (name, if value.len() > 0 { value + seq![' '] + t } else { value + t }, mode)
        } else {
            (name, value, mode)
        }
    }
}

/// Reads the name and the value of a `setoption` command.
pub fn setoption_fields(tokens: &[String]) -> (r: (String, String))
    ensures
        r.0@ == setoption_scan(crate::search::string_views(tokens@), tokens@.len() as nat).0,
        r.1@ == setoption_scan(crate::search::string_views(tokens@), tokens@.len() as nat).1,
{
    let ghost ts = crate::search::string_views(tokens@);
    let mut name = String::new();
    let mut value = String::new();
    let mut mode: u8 = 0;
    if tokens.len() <= 1 {
        return (name, value);
    }
    let mut i: usize = 1;
    while i < tokens.len()
        invariant
            1 <= i <= tokens@.len(),
            ts == crate::search::string_views(tokens@),
            ts.len() == tokens@.len(),
            name@ == setoption_scan(ts, i as nat).0,
            value@ == setoption_scan(ts, i as nat).1,
            mode as int == setoption_scan(ts, i as nat).2,
        decreases tokens@.len() - i,
    {
        assert(ts[i as int] == tokens@[i as int]@);
        let tok = &tokens[i];
        if token_is(tok, "name") {
            mode = 1;
        } else if token_is(tok, "value") {
            mode = 2;
        } else if mode == 1 {
            let ghost before = name@;
            if name.as_str().is_empty() == false {
                push_char(&mut name, ' ');
            }
            let part = chars_of(tok.as_str());
            push_chars(&mut name, &part);
            assert(name@ =~= (if before.len() > 0 { before + seq![' '] + ts[i as int] } else { before + ts[i as int] }));
        } else if mode == 2 {
            let ghost before = value@;
            if value.as_str().is_empty() == false {
                push_char(&mut value, ' ');
            }
            let part = chars_of(tok.as_str());
            push_chars(&mut value, &part);
            assert(value@ =~= (if before.len() > 0 { before + seq![' '] + ts[i as int] } else { before + ts[i as int] }));
        }
        i += 1;
    }
    (name, value)
}

/// The ASCII lower-case form of a character.
pub open spec fn ascii_lower(c: char) -> char {
    if 65 <= (c as u32) <= 90 {
        ((c as u32) + 32) as char
    } else {
        c
    }
}

/// An option name is `hash` in any letter case.
pub open spec fn is_hash_name(name: Seq<char>) -> bool {
    &&& name.len() == 4
    &&& ascii_lower(name[0]) == 'h'
    &&& ascii_lower(name[1]) == 'a'
    &&& ascii_lower(name[2]) == 's'
    &&& ascii_lower(name[3]) == 'h'
}

/// An option name is `threads` in any letter case.
pub open spec fn is_threads_name(name: Seq<char>) -> bool {
    &&& name.len() == 7
    &&& ascii_lower(name[0]) == 't'
    &&& ascii_lower(name[1]) == 'h'
    &&& ascii_lower(name[2]) == 'r'
    &&& ascii_lower(name[3]) == 'e'
    &&& ascii_lower(name[4]) == 'a'
    &&& ascii_lower(name[5]) == 'd'
    &&& ascii_lower(name[6]) == 's'
}

fn lower_char(c: char) -> (r: char)
    ensures
        r == ascii_lower(c),
{
    let u = c as u32;
    if 65 <= u && u <= 90 {
        ((u + 32) as u8) as char
    } else {
        c
    }
}

fn name_is(name: &String, want: &str) -> (r: bool)
    requires
        want@.len() <= 7,
        forall|i: int| 0 <= i < want@.len() ==> ascii_lower(#[trigger] want@[i]) == want@[i],
    ensures
        r == (name@.len() == want@.len() && forall|i: int| 0 <= i < name@.len() ==> ascii_lower(#[trigger] name@[i]) == want@[i]),
{
    let a = chars_of(name.as_str());
    let b = chars_of(want);
    if a.len() != b.len() {
        return false;
    }
    let mut i: usize = 0;
    while i < a.len()
        invariant
            i <= a@.len(),
            a@.len() == b@.len(),
            a@ == name@,
            b@ == want@,
            forall|j: int| 0 <= j < i ==> ascii_lower(#[trigger] a@[j]) == b@[j],
        decreases a@.len() - i,
    {
        if lower_char(a[i]) != b[i] {
            return false;
        }
        i += 1;
    }
    true
}

/// What a `setoption` command asks for.
pub enum OptionRequest {
    /// A new table size in megabytes, within 1 to 1024.
    Hash(usize),
    /// The thread count, which is not used.
    Threads,
    /// Nothing this engine acts on.
    Ignored,
}

/// The request a `setoption` name and value make: `Hash` with a value that
/// reads as a size, clamped to 1..1024; `Threads`; anything else is ignored.
pub fn option_request(name: &String, value: &String) -> (r: OptionRequest)
    ensures
        is_hash_name(name@) ==> match spec_parse_uint(value@, usize::MAX as nat) {
            Some(mb) => r matches OptionRequest::Hash(v) && v == if mb < 1 { 1 } else if mb > 1024 { 1024 } else { mb },
            None => r is Ignored,
        },
        !is_hash_name(name@) && is_threads_name(name@) ==> r is Threads,
        !is_hash_name(name@) && !is_threads_name(name@) ==> r is Ignored,
{
    proof {
        reveal_strlit("hash");
        reveal_strlit("threads");
    }
    if name_is(name, "hash") {
        proof {
            assert(is_hash_name(name@));
        }
        let cs = chars_of(value.as_str());
        match parse_uint(&cs, usize::MAX as u64) {
            Some(mb) => {
                let v = mb as usize;
                let clamped = if v < 1 {
                    1
                } else if v > 1024 {
                    1024
                } else {
                    v
                };
                OptionRequest::Hash(clamped)
            },
            None => OptionRequest::Ignored,
        }
    } else if name_is(name, "threads") {
        proof {
            if is_hash_name(name@) {
                assert(ascii_lower(name@[0]) == 'h');
            }
        }
        OptionRequest::Threads
    } else {
        proof {
            if is_hash_name(name@) {
                assert(forall|i: int| 0 <= i < 4 ==> ascii_lower(#[trigger] name@[i]) == "hash"@[i]);
            }
            if is_threads_name(name@) {
                assert(forall|i: int| 0 <= i < 7 ==> ascii_lower(#[trigger] name@[i]) == "threads"@[i]);
            }
        }
        OptionRequest::Ignored
    }
}

/// What became of one move text of a `position` command.
#[derive(Clone, Copy, Debug, PartialEq, Eq, Structural)]
pub enum MoveNote {
    /// The legal move it names was played.
    Played,
    /// It names a move, but the position is not one whose moves can be
    /// generated and played.
    NotPlayable,
    /// It names no legal move of the position.
    Illegal,
    /// It is not a move in UCI notation.
    BadFormat,
}

/// A move text whose length allows the notation can be cut after each square.
pub open spec fn move_text_ok(t: Seq<char>) -> bool {
    let b = encode_utf8(t);
    4 <= b.len() <= 5 ==> is_char_boundary(b, 2) && is_char_boundary(b, 4)
}

/// One move text applied to a position: the position after it and its note.
pub open spec fn move_text_step(v: PosView, t: Seq<char>) -> (PosView, MoveNote) {
    match spec_move_from_uci(encode_utf8(t)) {
        None => (v, MoveNote::BadFormat),
        Some(mv) => if !(playable(v) && v.fullmove < 65535) {
            (v, MoveNote::NotPlayable)
        } else {
            match spec_matching_move(legal_moves(v), mv, legal_moves(v).len()) {
                Some(m) => (spec_make(v, m), MoveNote::Played),
                None => (v, MoveNote::Illegal),
            }
        },
    }
}

/// The first `n` move texts applied in turn: the final position and the notes.
pub open spec fn move_texts_after(v: PosView, ts: Seq<Seq<char>>, n: nat) -> (PosView, Seq<MoveNote>)
    decreases n,
{
    if n == 0 || n > ts.len() {
        (v, Seq::empty())
    } else {
        let prev = move_texts_after(v, ts, (n - 1) as nat);
        let step = move_text_step(prev.0, ts[n - 1]);
        (step.0, prev.1.push(step.1))
    }
}

/// Applies the move texts of a `position` command in turn: each that names
/// a legal move of the position reached is played; the others leave it as
/// it is. Returns what became of each text.
pub fn apply_move_texts(pos: &mut Position, texts: &[String]) -> (notes: Vec<MoveNote>)
    requires
        old(pos).wf(),
        forall|i: int| 0 <= i < texts@.len() ==> move_text_ok(#[trigger] texts@[i]@),
    ensures
        final(pos).wf(),
        final(pos)@ == move_texts_after(old(pos)@, crate::search::string_views(texts@), texts@.len() as nat).0,
        notes@ == move_texts_after(old(pos)@, crate::search::string_views(texts@), texts@.len() as nat).1,
{
    let ghost v = pos@;
    let ghost ts = crate::search::string_views(texts@);
    let mut notes: Vec<MoveNote> = Vec::new();
    let mut i: usize = 0;
    while i < texts.len()
        invariant
            i <= texts@.len(),
            pos.wf(),
            ts == crate::search::string_views(texts@),
            forall|j: int| 0 <= j < texts@.len() ==> move_text_ok(#[trigger] texts@[j]@),
            pos@ == move_texts_after(v, ts, i as nat).0,
            notes@ == move_texts_after(v, ts, i as nat).1,
        decreases texts.len() - i,
    {
        let ghost w = pos@;
        assert(ts[i as int] == texts@[i as int]@);
        assert(move_text_ok(texts@[i as int]@));
        let t = texts[i].as_str();
        let note = match Move::from_uci(t) {
            None => MoveNote::BadFormat,
            Some(mv) => {
                if !(pos.is_consistent() && pos.is_playable() && pos.fullmove < 65535) {
                    MoveNote::NotPlayable
                } else {
                    match matching_legal_move(pos, mv) {
                        Some(m) => {
                            proof {
                                lemma_legal_playable_move(w, m);
                                lemma_legal_move_keeps_playable(w, m);
                            }
                            pos.make_move(m);
                            MoveNote::Played
                        },
                        None => MoveNote::Illegal,
                    }
                }
            },
        };
        notes.push(note);
        i += 1;
    }
    notes
}

} // verus!

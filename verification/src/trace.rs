//! Texts for looking into the engine: a board diagram with the position's
//! fields, the legal move tree to a depth, and a line of play with the
//! position and evaluation after each move.
use vstd::prelude::*;
use crate::bits::{bit, lemma_bits_ext};
use crate::types::{Color, Move, MoveList, NO_PIECE, NO_SQUARE, spec_move_uci, spec_square_name, square_name};
use crate::position::{Position, PosView, spec_make, lemma_unmake_undoes_make};
use crate::movegen::{generate_legal, is_legal_move, legal_moves};
use crate::playable::{playable, lemma_legal_move_keeps_playable};
use crate::perft::lemma_legal_playable_move;
use crate::fen::{spec_to_fen, spec_piece_letter, piece_letter};
use crate::eval::{evaluate, spec_evaluate};
use crate::search::{signed_text, push_signed, string_views};
use crate::text::{dec_string, push_decimal, push_char, push_str};

verus! {

/// The evaluation of a consistent position with the view `v`; every such
/// position evaluates alike (see `lemma_eval_by_view`).
pub open spec fn view_eval(v: PosView) -> int {
    spec_evaluate(choose|p: Position| p.wf() && p@ == v)
}

/// Bitboards that agree with the same board are equal.
proof fn lemma_boards_determine_bits(p: Position, q: Position)
    requires
        p.wf(),
        q.wf(),
        p.board@ == q.board@,
    ensures
        p.bb@ == q.bb@,
        p.occupied@ == q.occupied@,
        p.occupied_all == q.occupied_all,
{
    assert forall|k: int| 0 <= k < 12 implies p.bb@[k] == q.bb@[k] by {
        assert forall|i: u64| i < 64 implies #[trigger] bit(p.bb@[k], i) == bit(q.bb@[k], i) by {
            assert(bit(p.bb@[k], i) == (p.board@[i as int] == k));
            assert(bit(q.bb@[k], i) == (q.board@[i as int] == k));
        }
        lemma_bits_ext(p.bb@[k], q.bb@[k]);
    }
    assert(p.bb@ =~= q.bb@);
    assert forall|k: int| 0 <= k < 2 implies p.occupied@[k] == q.occupied@[k] by {
        assert forall|i: u64| i < 64 implies #[trigger] bit(p.occupied@[k], i) == bit(
            q.occupied@[k],
            i,
        ) by {
            assert(bit(p.occupied@[0], i) == bit(q.occupied@[0], i));
            assert(bit(p.occupied@[1], i) == bit(q.occupied@[1], i));
        }
        lemma_bits_ext(p.occupied@[k], q.occupied@[k]);
    }
    assert(p.occupied@ =~= q.occupied@);
    assert forall|i: u64| i < 64 implies #[trigger] bit(p.occupied_all, i) == bit(
        q.occupied_all,
        i,
    ) by {}
    lemma_bits_ext(p.occupied_all, q.occupied_all);
}

/// The evaluation of a consistent position depends on its view alone.
pub proof fn lemma_eval_by_view(p: Position)
    requires
        p.wf(),
    ensures
        spec_evaluate(p) == view_eval(p@),
{
    let q = choose|q: Position| q.wf() && q@ == p@;
    assert(exists|q: Position| q.wf() && q@ == p@);
    lemma_boards_determine_bits(p, q);
}

/// Two spaces per ply.
pub open spec fn indent(ply: nat) -> Seq<char> {
    Seq::new(2 * ply, |i: int| ' ')
}

/// The line for a leaf of the tree: its evaluation, window and FEN.
pub open spec fn leaf_line(ply: nat, eval: int, alpha: int, beta: int, fen: Seq<char>) -> Seq<char> {
    indent(ply) + "ply "@ + dec_string(ply) + " eval "@ + signed_text(eval) + " alpha "@
        + signed_text(alpha) + " beta "@ + signed_text(beta) + " fen "@ + fen
}

/// The line for a node without legal moves.
pub open spec fn no_moves_line(ply: nat, fen: Seq<char>) -> Seq<char> {
    indent(ply) + "ply "@ + dec_string(ply) + " no moves fen "@ + fen
}

/// The line for a move tried at a node, with the node's window.
pub open spec fn move_line(ply: nat, mv: Move, alpha: int, beta: int) -> Seq<char> {
    indent(ply) + "ply "@ + dec_string(ply) + " move "@ + spec_move_uci(mv) + " alpha "@
        + signed_text(alpha) + " beta "@ + signed_text(beta)
}

/// The lines of the tree below `v` to `depth`: a leaf line at depth zero, a
/// no-moves line where there is no legal move, and otherwise for each legal
/// move in generation order its line followed by the tree after it, one ply
/// deeper with the window negated and swapped.
pub open spec fn tree_lines(v: PosView, depth: nat, ply: nat, alpha: int, beta: int) -> Seq<
    Seq<char>,
>
    decreases depth, 1nat, 0nat,
{
    if depth == 0 {
        seq![leaf_line(ply, view_eval(v), alpha, beta, spec_to_fen(v))]
    } else if legal_moves(v).len() == 0 {
        seq![no_moves_line(ply, spec_to_fen(v))]
    } else {
        branch_lines(v, legal_moves(v), depth, ply, alpha, beta, legal_moves(v).len())
    }
}

/// The lines for the first `n` moves of `ms` at `v`.
pub open spec fn branch_lines(
    v: PosView,
    ms: Seq<Move>,
    depth: nat,
    ply: nat,
    alpha: int,
    beta: int,
    n: nat,
) -> Seq<Seq<char>>
    decreases depth, 0nat, n,
{
    if n == 0 || n > ms.len() || depth == 0 {
        Seq::empty()
    } else {
        branch_lines(v, ms, depth, ply, alpha, beta, (n - 1) as nat) + seq![
            move_line(ply, ms[n - 1], alpha, beta),
        ] + tree_lines(spec_make(v, ms[n - 1]), (depth - 1) as nat, ply + 1, -beta, -alpha)
    }
}

fn push_indent(s: &mut String, ply: u32)
    requires
        ply <= 65535,
    ensures
        final(s)@ == old(s)@ + indent(ply as nat),
{
    let n: u32 = 2 * ply;
    let mut i: u32 = 0;
    while i < n
        invariant
            i <= n,
            n == 2 * ply,
            s@ == old(s)@ + Seq::new(i as nat, |k: int| ' '),
        decreases n - i,
    {
        push_char(s, ' ');
        i += 1;
        assert(s@ =~= old(s)@ + Seq::new(i as nat, |k: int| ' '));
    }
    assert(Seq::new(n as nat, |k: int| ' ') =~= indent(ply as nat));
}

fn ply_prefix(ply: u32) -> (s: String)
    requires
        ply <= 65535,
    ensures
        s@ == indent(ply as nat) + "ply "@ + dec_string(ply as nat),
{
    let mut s = String::new();
    push_indent(&mut s, ply);
    push_str(&mut s, "ply ");
    push_decimal(&mut s, ply);
    assert(s@ =~= indent(ply as nat) + "ply "@ + dec_string(ply as nat));
    s
}

fn leaf_text(ply: u32, eval: i32, alpha: i32, beta: i32, fen: &String) -> (s: String)
    requires
        ply <= 65535,
    ensures
        s@ == leaf_line(ply as nat, eval as int, alpha as int, beta as int, fen@),
{
    let mut s = ply_prefix(ply);
    push_str(&mut s, " eval ");
    push_signed(&mut s, eval);
    push_str(&mut s, " alpha ");
    push_signed(&mut s, alpha);
    push_str(&mut s, " beta ");
    push_signed(&mut s, beta);
    push_str(&mut s, " fen ");
    push_str(&mut s, fen.as_str());
    s
}

fn no_moves_text(ply: u32, fen: &String) -> (s: String)
    requires
        ply <= 65535,
    ensures
        s@ == no_moves_line(ply as nat, fen@),
{
    let mut s = ply_prefix(ply);
    push_str(&mut s, " no moves fen ");
    push_str(&mut s, fen.as_str());
    s
}

fn move_text(ply: u32, mv: Move, alpha: i32, beta: i32) -> (s: String)
    requires
        ply <= 65535,
    ensures
        s@ == move_line(ply as nat, mv, alpha as int, beta as int),
{
    let mut s = ply_prefix(ply);
    push_str(&mut s, " move ");
    let u = mv.to_uci();
    push_str(&mut s, u.as_str());
    push_str(&mut s, " alpha ");
    push_signed(&mut s, alpha);
    push_str(&mut s, " beta ");
    push_signed(&mut s, beta);
    s
}

proof fn lemma_views_push(a: Seq<String>, x: String)
    ensures
        string_views(a.push(x)) == string_views(a).push(x@),
{
    assert(string_views(a.push(x)) =~= string_views(a).push(x@));
}

/// Appends to `out` the lines of the legal move tree below `pos` to `depth`
/// (see `tree_lines`). The position is left as it was.
pub fn dump_recursive(
    pos: &mut Position,
    depth: u32,
    ply: u32,
    alpha: i32,
    beta: i32,
    out: &mut Vec<String>,
)
    requires
        old(pos).wf(),
        playable(old(pos)@),
        old(pos)@.fullmove + depth <= 65535,
        ply + depth <= 65535,
        alpha > i32::MIN,
        beta > i32::MIN,
    ensures
        final(pos).wf(),
        final(pos)@ == old(pos)@,
        string_views(final(out)@) == string_views(old(out)@) + tree_lines(
            old(pos)@,
            depth as nat,
            ply as nat,
            alpha as int,
            beta as int,
        ),
    decreases depth,
{
    let ghost v = pos@;
    let ghost base = string_views(out@);
    if depth == 0 {
        let e = evaluate(pos);
        proof {
            lemma_eval_by_view(*pos);
        }
        let fen = pos.to_fen();
        let line = leaf_text(ply, e, alpha, beta, &fen);
        proof {
            lemma_views_push(out@, line);
        }
        out.push(line);
        assert(string_views(out@) =~= base + tree_lines(v, 0, ply as nat, alpha as int, beta as int));
        return;
    }
    let mut list = MoveList::new();
    generate_legal(pos, &mut list);
    if list.is_empty() {
        let fen = pos.to_fen();
        let line = no_moves_text(ply, &fen);
        proof {
            lemma_views_push(out@, line);
        }
        out.push(line);
        assert(string_views(out@) =~= base + tree_lines(
            v,
            depth as nat,
            ply as nat,
            alpha as int,
            beta as int,
        ));
        return;
    }
    let n = list.len();
    let mut i: usize = 0;
    assert(string_views(out@) =~= base + branch_lines(
        v,
        list@,
        depth as nat,
        ply as nat,
        alpha as int,
        beta as int,
        0,
    ));
    while i < n
        invariant
            pos.wf(),
            pos@ == v,
            playable(v),
            v.fullmove + depth <= 65535,
            ply + depth <= 65535,
            depth >= 1,
            alpha > i32::MIN,
            beta > i32::MIN,
            list@ == legal_moves(v),
            n == list@.len(),
            i <= n,
            string_views(out@) == base + branch_lines(
                v,
                list@,
                depth as nat,
                ply as nat,
                alpha as int,
                beta as int,
                i as nat,
            ),
        decreases n - i,
    {
        let mv = list.get(i);
        proof {
            assert(list@.contains(mv)) by {
                assert(list@[i as int] == mv);
            }
            lemma_legal_playable_move(v, mv);
            lemma_legal_move_keeps_playable(v, mv);
            lemma_unmake_undoes_make(v, mv);
        }
        let line = move_text(ply, mv, alpha, beta);
        proof {
            lemma_views_push(out@, line);
        }
        out.push(line);
        pos.make_move(mv);
        dump_recursive(pos, depth - 1, ply + 1, -beta, -alpha, out);
        pos.unmake_move(mv);
        i += 1;
        assert(string_views(out@) =~= base + branch_lines(
            v,
            list@,
            depth as nat,
            ply as nat,
            alpha as int,
            beta as int,
            i as nat,
        ));
    }
    assert(string_views(out@) =~= base + tree_lines(
        v,
        depth as nat,
        ply as nat,
        alpha as int,
        beta as int,
    ));
}

/// The lines of the legal move tree below `pos` to `depth`, from the root
/// with the window -30000 to 30000. The position is left as it was.
pub fn dump_lines(pos: &mut Position, depth: u32) -> (lines: Vec<String>)
    requires
        old(pos).wf(),
        playable(old(pos)@),
        old(pos)@.fullmove + depth <= 65535,
    ensures
        final(pos).wf(),
        final(pos)@ == old(pos)@,
        string_views(lines@) == tree_lines(old(pos)@, depth as nat, 0, -30000, 30000),
{
    let mut lines: Vec<String> = Vec::new();
    assert(string_views(lines@) =~= Seq::<Seq<char>>::empty());
    dump_recursive(pos, depth, 0, -30000, 30000, &mut lines);
    assert(string_views(lines@) =~= tree_lines(pos@, depth as nat, 0, -30000, 30000));
    lines
}

/// The lines one move of a traced line writes: its text, then the FEN and
/// the evaluation after it, or a note when it is not legal where it stands.
#[verifier::opaque]
pub open spec fn step_lines(v: PosView, m: Move) -> Seq<Seq<char>> {
    let make = "make "@ + spec_move_uci(m);
    if legal_moves(v).contains(m) {
        let w = spec_make(v, m);
        seq![make, "fen "@ + spec_to_fen(w), "eval "@ + signed_text(view_eval(w))]
    } else {
        seq![make, "not legal here"@]
    }
}

/// The lines a line of play writes after its start line: those of each
/// move in turn, up to and including the first move that is not legal.
#[verifier::opaque]
pub open spec fn trace_lines(v: PosView, moves: Seq<Move>) -> Seq<Seq<char>>
    decreases moves.len(),
{
    if moves.len() == 0 {
        Seq::empty()
    } else if !legal_moves(v).contains(moves[0]) {
        step_lines(v, moves[0])
    } else {
        step_lines(v, moves[0]) + trace_lines(spec_make(v, moves[0]), moves.drop_first())
    }
}

/// Where a traced line leaves the position: after its longest legal prefix.
#[verifier::opaque]
pub open spec fn trace_end(v: PosView, moves: Seq<Move>) -> PosView
    decreases moves.len(),
{
    if moves.len() == 0 || !legal_moves(v).contains(moves[0]) {
        v
    } else {
        trace_end(spec_make(v, moves[0]), moves.drop_first())
    }
}

proof fn lemma_trace_unfold(w: PosView, rest: Seq<Move>)
    requires
        rest.len() > 0,
    ensures
        legal_moves(w).contains(rest[0]) ==> trace_lines(w, rest) == step_lines(w, rest[0])
            + trace_lines(spec_make(w, rest[0]), rest.drop_first()) && trace_end(w, rest)
            == trace_end(spec_make(w, rest[0]), rest.drop_first()),
        !legal_moves(w).contains(rest[0]) ==> trace_lines(w, rest) == step_lines(w, rest[0])
            && trace_end(w, rest) == w,
{
    reveal(trace_lines);
    reveal(trace_end);
}

fn text_of(lit: &str) -> (s: String)
    ensures
        s@ == lit@,
{
    let mut s = String::new();
    push_str(&mut s, lit);
    assert(s@ =~= lit@);
    s
}

/// Appends the lines of one move (see `step_lines`) and plays it when legal.
fn trace_step(pos: &mut Position, mv: Move, lines: &mut Vec<String>) -> (played: bool)
    requires
        old(pos).wf(),
        playable(old(pos)@),
        old(pos)@.fullmove < 65535,
    ensures
        played == legal_moves(old(pos)@).contains(mv),
        final(pos).wf(),
        played ==> final(pos)@ == spec_make(old(pos)@, mv) && playable(final(pos)@),
        !played ==> final(pos)@ == old(pos)@,
        final(pos)@.fullmove <= old(pos)@.fullmove + 1,
        string_views(final(lines)@) == string_views(old(lines)@) + step_lines(old(pos)@, mv),
{
    reveal(step_lines);
    let ghost w = pos@;
    let ghost before = string_views(lines@);
    let mut mk = text_of("make ");
    let u = mv.to_uci();
    push_str(&mut mk, u.as_str());
    proof {
        lemma_views_push(lines@, mk);
    }
    lines.push(mk);
    if !is_legal_move(pos, mv) {
        let note = text_of("not legal here");
        proof {
            lemma_views_push(lines@, note);
        }
        lines.push(note);
        assert(string_views(lines@) =~= before + step_lines(w, mv));
        return false;
    }
    proof {
        lemma_legal_playable_move(w, mv);
        lemma_legal_move_keeps_playable(w, mv);
    }
    pos.make_move(mv);
    let mut f = text_of("fen ");
    let fen = pos.to_fen();
    push_str(&mut f, fen.as_str());
    proof {
        lemma_views_push(lines@, f);
    }
    lines.push(f);
    let e = evaluate(pos);
    proof {
        lemma_eval_by_view(*pos);
    }
    let mut ev = text_of("eval ");
    push_signed(&mut ev, e);
    proof {
        lemma_views_push(lines@, ev);
    }
    lines.push(ev);
    assert(string_views(lines@) =~= before + step_lines(w, mv));
    true
}

/// Plays `moves` from `pos` and returns the trace: the start FEN, then for
/// each move its text, the FEN and the evaluation after it, stopping with a
/// note at a move that is not legal (see `trace_lines`). The position is
/// left after the last move played.
pub fn trace_pv_lines(pos: &mut Position, moves: &[Move]) -> (lines: Vec<String>)
    requires
        old(pos).wf(),
        playable(old(pos)@),
        old(pos)@.fullmove + moves@.len() <= 65535,
    ensures
        final(pos).wf(),
        final(pos)@ == trace_end(old(pos)@, moves@),
        string_views(lines@) == seq!["start "@ + spec_to_fen(old(pos)@)] + trace_lines(
            old(pos)@,
            moves@,
        ),
{
    let ghost v = pos@;
    let ghost full = seq!["start "@ + spec_to_fen(v)] + trace_lines(v, moves@);
    let mut lines: Vec<String> = Vec::new();
    let mut first = text_of("start ");
    let fen = pos.to_fen();
    push_str(&mut first, fen.as_str());
    proof {
        lemma_views_push(lines@, first);
    }
    lines.push(first);
    assert(moves@.subrange(0, moves@.len() as int) =~= moves@);
    assert(string_views(lines@) =~= seq!["start "@ + spec_to_fen(v)]);
    let mut i: usize = 0;
    while i < moves.len()
        invariant
            pos.wf(),
            playable(pos@),
            i <= moves@.len(),
            pos@.fullmove + (moves@.len() - i) <= 65535,
            string_views(lines@) + trace_lines(pos@, moves@.subrange(i as int, moves@.len() as int))
                == full,
            trace_end(pos@, moves@.subrange(i as int, moves@.len() as int)) == trace_end(v, moves@),
            v == old(pos)@,
            full == seq!["start "@ + spec_to_fen(v)] + trace_lines(v, moves@),
        decreases moves.len() - i,
    {
        let mv = moves[i];
        let ghost w = pos@;
        let ghost rest = moves@.subrange(i as int, moves@.len() as int);
        let ghost before = string_views(lines@);
        let ghost next = moves@.subrange(i + 1, moves@.len() as int);
        proof {
            assert(rest[0] == mv);
            assert(rest.drop_first() =~= next);
            lemma_trace_unfold(w, rest);
        }
        let played = trace_step(pos, mv, &mut lines);
        if !played {
            assert(string_views(lines@) =~= before + step_lines(w, mv));
            return lines;
        }
        i += 1;
        assert(string_views(lines@) + trace_lines(pos@, next) =~= before + (step_lines(w, mv)
            + trace_lines(pos@, next)));
    }
    assert(moves@.subrange(i as int, moves@.len() as int) =~= Seq::<Move>::empty());
    reveal(trace_lines);
    reveal(trace_end);
    assert(string_views(lines@) =~= full);
    lines
}

/// The ruling between the ranks of the diagram.
pub open spec fn border_line() -> Seq<char> {
    " +---+---+---+---+---+---+---+---+"@
}

/// The file letters under the diagram.
pub open spec fn files_line() -> Seq<char> {
    "   a   b   c   d   e   f   g   h"@
}

/// What a square shows: its piece's FEN letter, or a space when empty.
pub open spec fn cell_char(p: u8) -> char {
    if p == 12 {
        ' '
    } else {
        spec_piece_letter(p)
    }
}

/// The first `n` cells of a rank, each ` x |`.
pub open spec fn rank_cells(board: Seq<u8>, rank: int, n: nat) -> Seq<char>
    decreases n,
{
    if n == 0 {
        Seq::empty()
    } else {
        rank_cells(board, rank, (n - 1) as nat) + seq![' ', cell_char(board[rank * 8 + n - 1]), ' ', '|']
    }
}

/// One rank of the diagram: its number, then its eight cells from file a.
pub open spec fn rank_line(board: Seq<u8>, rank: int) -> Seq<char> {
    seq![(49 + rank) as char, ' ', '|'] + rank_cells(board, rank, 8)
}

/// The top `k` ranks of the diagram, each followed by a ruling.
pub open spec fn diagram_ranks(board: Seq<u8>, k: nat) -> Seq<Seq<char>>
    decreases k,
{
    if k == 0 {
        Seq::empty()
    } else {
        diagram_ranks(board, (k - 1) as nat) + seq![rank_line(board, 8 - k), border_line()]
    }
}

/// The hex digit of a value below 16, in lower case.
pub open spec fn hex_digit(d: u64) -> char {
    if d < 10 {
        (48 + d) as char
    } else {
        (87 + d) as char
    }
}

/// The `i`-th of the sixteen hex digits of `h`, most significant first.
pub open spec fn hex_nibble(h: u64, i: int) -> u64 {
    (h >> ((60 - 4 * i) as u64)) & 15u64
}

/// `h` as sixteen lower-case hex digits.
pub open spec fn hex16(h: u64) -> Seq<char> {
    Seq::new(16, |i: int| hex_digit(hex_nibble(h, i)))
}

/// The report on a position: the diagram from rank 8 down with the file
/// letters, then its FEN, side to move, castling rights, en passant square,
/// hash, and move counters.
pub open spec fn board_report(v: PosView) -> Seq<Seq<char>> {
    seq![border_line()] + diagram_ranks(v.board, 8) + seq![
        files_line(),
        "FEN: "@ + spec_to_fen(v),
        "Side: "@ + (if v.side == Color::White { "white"@ } else { "black"@ }),
        "Castling: "@ + dec_string(v.castling as nat),
        "En passant: "@ + (if v.en_passant == 64 { "-"@ } else { spec_square_name(v.en_passant as int) }),
        "Hash: "@ + hex16(v.hash),
        "Halfmove: "@ + dec_string(v.halfmove as nat) + " Fullmove: "@ + dec_string(v.fullmove as nat),
    ]
}

fn rank_text(pos: &Position, rank: u8) -> (s: String)
    requires
        pos.wf(),
        rank < 8,
    ensures
        s@ == rank_line(pos@.board, rank as int),
{
    let mut s = String::new();
    push_char(&mut s, (49u8 + rank) as char);
    push_char(&mut s, ' ');
    push_char(&mut s, '|');
    let mut file: u8 = 0;
    while file < 8
        invariant
            file <= 8,
            rank < 8,
            pos.board@.len() == 64,
            s@ == seq![(49 + rank) as char, ' ', '|'] + rank_cells(pos.board@, rank as int, file as nat),
        decreases 8 - file,
    {
        let p = pos.board[(rank * 8 + file) as usize];
        let c = if p == NO_PIECE {
            ' '
        } else {
            piece_letter(p)
        };
        push_char(&mut s, ' ');
        push_char(&mut s, c);
        push_char(&mut s, ' ');
        push_char(&mut s, '|');
        file += 1;
        assert(s@ =~= seq![(49 + rank) as char, ' ', '|'] + rank_cells(pos.board@, rank as int, file as nat));
    }
    s
}

fn hex_text(h: u64) -> (s: String)
    ensures
        s@ == hex16(h),
{
    let mut s = String::new();
    let mut i: u64 = 0;
    while i < 16
        invariant
            i <= 16,
            s@ == Seq::new(i as nat, |k: int| hex_digit(hex_nibble(h, k))),
        decreases 16 - i,
    {
        let sh: u64 = 60 - 4 * i;
        let d = (h >> sh) & 15;
        assert(d < 16) by (bit_vector)
            requires
                d == (h >> sh) & 15,
        ;
        let c = if d < 10 {
            (48u8 + d as u8) as char
        } else {
            (87u8 + d as u8) as char
        };
        push_char(&mut s, c);
        assert(d == hex_nibble(h, i as int));
        i += 1;
        assert(s@ =~= Seq::new(i as nat, |k: int| hex_digit(hex_nibble(h, k))));
    }
    assert(s@ =~= hex16(h));
    s
}

/// The lines of the report on `pos` (see `board_report`).
pub fn board_lines(pos: &Position) -> (lines: Vec<String>)
    requires
        pos.wf(),
    ensures
        string_views(lines@) == board_report(pos@),
{
    let mut lines: Vec<String> = Vec::new();
    let top = text_of(" +---+---+---+---+---+---+---+---+");
    proof {
        lemma_views_push(lines@, top);
    }
    lines.push(top);
    let mut k: u8 = 0;
    while k < 8
        invariant
            k <= 8,
            pos.wf(),
            string_views(lines@) == seq![border_line()] + diagram_ranks(pos@.board, k as nat),
        decreases 8 - k,
    {
        let row = rank_text(pos, 7 - k);
        proof {
            lemma_views_push(lines@, row);
        }
        lines.push(row);
        let rule = text_of(" +---+---+---+---+---+---+---+---+");
        proof {
            lemma_views_push(lines@, rule);
        }
        lines.push(rule);
        k += 1;
        assert(string_views(lines@) =~= seq![border_line()] + diagram_ranks(pos@.board, k as nat));
    }
    let ghost base = string_views(lines@);
    let files = text_of("   a   b   c   d   e   f   g   h");
    let mut fen = text_of("FEN: ");
    let f = pos.to_fen();
    push_str(&mut fen, f.as_str());
    let mut side = text_of("Side: ");
    if pos.side_to_move == Color::White {
        push_str(&mut side, "white");
    } else {
        push_str(&mut side, "black");
    }
    let mut castling = text_of("Castling: ");
    push_decimal(&mut castling, pos.castling as u32);
    let mut ep = text_of("En passant: ");
    if pos.en_passant == NO_SQUARE {
        push_str(&mut ep, "-");
    } else {
        let name = square_name(pos.en_passant);
        push_str(&mut ep, name.as_str());
    }
    let mut hash = text_of("Hash: ");
    let hx = hex_text(pos.hash);
    push_str(&mut hash, hx.as_str());
    let mut counters = text_of("Halfmove: ");
    push_decimal(&mut counters, pos.halfmove as u32);
    push_str(&mut counters, " Fullmove: ");
    push_decimal(&mut counters, pos.fullmove as u32);
    let ghost tail = seq![files@, fen@, side@, castling@, ep@, hash@, counters@];
    lines.push(files);
    lines.push(fen);
    lines.push(side);
    lines.push(castling);
    lines.push(ep);
    lines.push(hash);
    lines.push(counters);
    assert(string_views(lines@) =~= base + tail);
    assert(string_views(lines@) =~= board_report(pos@));
    lines
}

} // verus!

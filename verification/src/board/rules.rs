//! The rules of movement, stated mathematically: steps, jumps, capture
//! sequences, the rule of the greatest capture, and what makes a move legal.

use super::mv::Move;
use super::piece::{is_king, spec_color, Color, Piece, EMPTY};
use super::position::{Field, Position};
use super::steps::spec_path;
use vstd::prelude::*;

verus! {

/// One jump of a capture: the field jumped over and the field landed on.
pub type Jump = (Field, Field);

/// The most jumps that one capture can hold.
pub open spec fn max_jumps() -> int {
    12
}

/// What a capturing piece sees: the board without the piece itself, the
/// colour that it captures, whether it is a king, and the field where it
/// started.
pub struct Hunt {
    pub board: Seq<Piece>,
    pub prey: Color,
    pub king: bool,
    pub from: Field,
}

/// The board of `p` with field `from` emptied: a capturing piece has left
/// its field, and may cross it or land on it again.
pub open spec fn lifted_board(p: Position, from: Field) -> Seq<Piece> {
    Seq::new(
        50,
        |f: int|
            if f == from {
                EMPTY
            } else {
                p.spec_piece_at(f as Field)
            },
    )
}

/// The hunt of the piece that stands on `from` in `p`.
pub open spec fn hunt_of(p: Position, from: Field) -> Hunt {
    Hunt {
        board: lifted_board(p, from),
        prey: p.spec_side_to_move().opponent(),
        king: is_king(p.spec_piece_at(from)),
        from,
    }
}

/// Where the piece stands after the jumps `s`.
pub open spec fn landing(from: Field, s: Seq<Jump>) -> Field {
    if s.len() == 0 {
        from
    } else {
        s.last().1
    }
}

/// The fields jumped over in `s`, in the order of the jumps.
pub open spec fn overs(s: Seq<Jump>) -> Seq<Field> {
    Seq::new(s.len(), |i: int| s[i].0)
}

/// A man's jump along `path`: over the prey on the first square onto the
/// empty second square.
pub open spec fn man_jump_along(
    b: Seq<Piece>,
    prey: Color,
    path: Seq<Field>,
    over: Field,
    to: Field,
) -> bool {
    &&& path.len() > 1
    &&& path[0] == over
    &&& path[1] == to
    &&& spec_color(b[over as int]) == Some(prey)
    &&& b[to as int] == EMPTY
}

/// A man on `cur` can jump over `over` and land on `to`.
pub open spec fn man_jump(b: Seq<Piece>, prey: Color, cur: Field, over: Field, to: Field) -> bool {
    exists|d: int| 0 <= d < 4 && #[trigger] man_jump_along(b, prey, spec_path(cur, d), over, to)
}

/// A king's jump along `path`: the squares in front of index `i` are empty,
/// the prey stands on index `i`, and the squares behind it up to the landing
/// square at index `j` are empty.
pub open spec fn king_jump_along(b: Seq<Piece>, prey: Color, path: Seq<Field>, i: int, j: int) -> bool {
    &&& 0 <= i < j < path.len()
    &&& forall|k: int| 0 <= k < i ==> b[#[trigger] path[k] as int] == EMPTY
    &&& spec_color(b[path[i] as int]) == Some(prey)
    &&& forall|k: int| i < k <= j ==> b[#[trigger] path[k] as int] == EMPTY
}

/// A king's jump from `cur` in direction `d`, over the square at index `i`
/// of that path onto the square at index `j`.
pub open spec fn king_jump_at(b: Seq<Piece>, prey: Color, cur: Field, d: int, i: int, j: int) -> bool {
    0 <= d < 4 && king_jump_along(b, prey, spec_path(cur, d), i, j)
}

/// A king on `cur` can jump over `over` and land on `to`.
pub open spec fn king_jump(b: Seq<Piece>, prey: Color, cur: Field, over: Field, to: Field) -> bool {
    exists|d: int, i: int, j: int| #[trigger]
        king_jump_at(b, prey, cur, d, i, j) && spec_path(cur, d)[i] == over && spec_path(
            cur,
            d,
        )[j] == to
}

/// The hunting piece, standing on `cur`, can jump over `over` onto `to`.
pub open spec fn jump(h: Hunt, cur: Field, over: Field, to: Field) -> bool {
    if h.king {
        king_jump(h.board, h.prey, cur, over, to)
    } else {
        man_jump(h.board, h.prey, cur, over, to)
    }
}

/// After the jumps `s` the piece can jump on, over `over` onto `to`: the
/// board allows the jump and `over` was not jumped before.
pub open spec fn next_jump(h: Hunt, s: Seq<Jump>, over: Field, to: Field) -> bool {
    jump(h, landing(h.from, s), over, to) && !overs(s).contains(over)
}

/// `s` is a sequence of jumps that the rules allow: each starts where the
/// one before it landed, and no field is jumped twice. The captured pieces
/// stay on the board until the move is complete.
pub open spec fn valid(h: Hunt, s: Seq<Jump>) -> bool
    decreases s.len(),
{
    if s.len() == 0 {
        true
    } else {
        valid(h, s.drop_last()) && next_jump(h, s.drop_last(), s.last().0, s.last().1)
    }
}

/// The capture `s` cannot be prolonged: it is full, or no jump follows.
pub open spec fn terminal(h: Hunt, s: Seq<Jump>) -> bool {
    s.len() >= max_jumps() || !exists|over: Field, to: Field| #[trigger] next_jump(h, s, over, to)
}

/// `t` is an allowed capture that begins with the jumps `s`.
pub open spec fn extension(h: Hunt, s: Seq<Jump>, t: Seq<Jump>) -> bool {
    s.is_prefix_of(t) && valid(h, t) && t.len() <= max_jumps()
}

/// `t` is an allowed capture that begins with `s` and cannot be prolonged.
pub open spec fn terminal_extension(h: Hunt, s: Seq<Jump>, t: Seq<Jump>) -> bool {
    extension(h, s, t) && terminal(h, t)
}

/// `mv` is the move that the jumps `t` from `from` make: it lands where the
/// last jump lands and captures the fields jumped over.
pub open spec fn move_is(mv: Move, from: Field, t: Seq<Jump>) -> bool {
    &&& mv.wf()
    &&& mv.distinct()
    &&& mv.spec_from() == from
    &&& mv.spec_to() == landing(from, t)
    &&& mv.spec_num_taken() == t.len()
    &&& forall|x: Field| #[trigger] mv.captured().contains(x) <==> overs(t).contains(x)
}

/// `list` holds the move that the jumps `t` make.
pub open spec fn has_move(list: Seq<Move>, from: Field, t: Seq<Jump>) -> bool {
    exists|i: int| 0 <= i < list.len() && move_is(#[trigger] list[i], from, t)
}

/// `mv` is made by some allowed capture that begins with `s`.
pub open spec fn sound_move(h: Hunt, s: Seq<Jump>, mv: Move) -> bool {
    exists|t: Seq<Jump>| #[trigger] extension(h, s, t) && move_is(mv, h.from, t)
}

/// `list` holds the move of every capture that begins with `s` and cannot
/// be prolonged.
pub open spec fn complete(h: Hunt, s: Seq<Jump>, list: Seq<Move>) -> bool {
    forall|t: Seq<Jump>| #[trigger] terminal_extension(h, s, t) ==> has_move(list, h.from, t)
}

/// `list` holds the move of every longer capture that begins with `s` and
/// cannot be prolonged.
pub open spec fn complete_beyond(h: Hunt, s: Seq<Jump>, list: Seq<Move>) -> bool {
    forall|t: Seq<Jump>| #[trigger]
        terminal_extension(h, s, t) && t.len() > s.len() ==> has_move(list, h.from, t)
}

/// For every jump that can follow `s`, `list` holds the moves of the
/// captures that go on with that jump.
pub open spec fn all_jumps_complete(h: Hunt, s: Seq<Jump>, list: Seq<Move>) -> bool {
    forall|over: Field, to: Field| #[trigger]
        next_jump(h, s, over, to) ==> complete(h, s.push((over, to)), list)
}

/// `a` is the front of `b`, which is longer.
pub open spec fn grown(a: Seq<Move>, b: Seq<Move>) -> bool {
    a.is_prefix_of(b) && a.len() < b.len()
}

/// The piece on `from` is of the side to move and `s` is a capture that the
/// rules allow it.
pub open spec fn capture_seq(p: Position, from: Field, s: Seq<Jump>) -> bool {
    &&& from < 50
    &&& spec_color(p.spec_piece_at(from)) == Some(p.spec_side_to_move())
    &&& 1 <= s.len() <= max_jumps()
    &&& valid(hunt_of(p, from), s)
}

/// Some piece of the side to move has a capture of `n` jumps.
pub open spec fn can_capture(p: Position, n: int) -> bool {
    exists|from: Field, s: Seq<Jump>| #[trigger] capture_seq(p, from, s) && s.len() == n
}

/// The greatest number of jumps, at most `n`, of a capture in `p`; zero
/// where there is no capture.
pub open spec fn max_capture_upto(p: Position, n: int) -> int
    decreases n,
{
    if n <= 0 {
        0
    } else if can_capture(p, n) {
        n
    } else {
        max_capture_upto(p, n - 1)
    }
}

/// The greatest number of pieces that the side to move can capture in one
/// move; zero where it cannot capture.
pub open spec fn max_capture(p: Position) -> int {
    max_capture_upto(p, max_jumps())
}

/// `mv` is made by an allowed capture.
pub open spec fn sound_capture(p: Position, mv: Move) -> bool {
    exists|s: Seq<Jump>| #[trigger]
        capture_seq(p, mv.spec_from(), s) && move_is(mv, mv.spec_from(), s)
}

/// `mv` is a capture of the greatest number of pieces.
pub open spec fn capture(p: Position, mv: Move) -> bool {
    exists|s: Seq<Jump>| #[trigger]
        capture_seq(p, mv.spec_from(), s) && s.len() == max_capture(p) && move_is(
            mv,
            mv.spec_from(),
            s,
        )
}

/// The first of the two directions in which a man of colour `side` steps.
pub open spec fn forward(side: Color) -> int {
    match side {
        Color::White => 0,
        Color::Black => 2,
    }
}

/// A man of colour `side` on `from` can step to `to`: the neighbour in a
/// forward direction, which is empty.
pub open spec fn man_step(p: Position, side: Color, from: Field, to: Field) -> bool {
    exists|d: int|
        forward(side) <= d < forward(side) + 2 && (#[trigger] spec_path(from, d)).len() > 0
            && spec_path(from, d)[0] == to && p.spec_piece_at(to) == EMPTY
}

/// A king on `from` can slide in direction `d` to the square at index `j`:
/// every square up to it is empty.
pub open spec fn king_step_at(p: Position, from: Field, d: int, j: int) -> bool {
    &&& 0 <= d < 4
    &&& 0 <= j < spec_path(from, d).len()
    &&& forall|k: int| 0 <= k <= j ==> p.spec_piece_at(#[trigger] spec_path(from, d)[k]) == EMPTY
}

/// A king on `from` can slide to `to`.
pub open spec fn king_step(p: Position, from: Field, to: Field) -> bool {
    exists|d: int, j: int| #[trigger] king_step_at(p, from, d, j) && spec_path(from, d)[j] == to
}

/// `mv` is a step without capture that the board allows a piece of the side
/// to move.
pub open spec fn step(p: Position, mv: Move) -> bool {
    let from = mv.spec_from();
    let piece = p.spec_piece_at(from);
    &&& mv.wf()
    &&& mv.spec_num_taken() == 0
    &&& from < 50
    &&& spec_color(piece) == Some(p.spec_side_to_move())
    &&& if is_king(piece) {
        king_step(p, from, mv.spec_to())
    } else {
        man_step(p, p.spec_side_to_move(), from, mv.spec_to())
    }
}

/// `mv` is legal in `p`: where the side to move can capture, a capture of
/// the greatest number of pieces; where it cannot, a step.
pub open spec fn legal(p: Position, mv: Move) -> bool {
    if max_capture(p) > 0 {
        capture(p, mv)
    } else {
        step(p, mv)
    }
}

/// `list` is a list of the legal moves of `p`: it holds each of them once
/// and nothing else.
pub open spec fn is_legal_list(p: Position, list: Seq<Move>) -> bool {
    &&& list.no_duplicates()
    &&& forall|mv: Move| #[trigger] list.contains(mv) <==> legal(p, mv)
}

/// One more jump adds the field that it jumps over, and lands where it
/// lands.
pub proof fn lemma_overs_push(s: Seq<Jump>, j: Jump)
    ensures
        overs(s.push(j)) == overs(s).push(j.0),
        forall|x: Field| #[trigger]
            overs(s.push(j)).contains(x) <==> (x == j.0 || overs(s).contains(x)),
        landing(0, s.push(j)) == j.1,
        s.push(j).drop_last() == s,
        s.push(j).last() == j,
{
    let a = overs(s.push(j));
    let b = overs(s).push(j.0);
    assert(a =~= b);
    assert(s.push(j).drop_last() =~= s);
    assert forall|x: Field| #[trigger] a.contains(x) <==> (x == j.0 || overs(s).contains(x)) by {
        if a.contains(x) {
            let k = choose|k: int| 0 <= k < a.len() && a[k] == x;
            if k < s.len() {
                assert(overs(s)[k] == x);
            }
        }
        if overs(s).contains(x) {
            let k = choose|k: int| 0 <= k < overs(s).len() && overs(s)[k] == x;
            assert(a[k] == x);
        }
        if x == j.0 {
            assert(a[s.len() as int] == x);
        }
    }
}

/// The front of an allowed capture is an allowed capture.
pub proof fn lemma_valid_prefix(h: Hunt, s: Seq<Jump>, t: Seq<Jump>)
    requires
        valid(h, t),
        s.is_prefix_of(t),
    ensures
        valid(h, s),
    decreases t.len(),
{
    if s.len() < t.len() {
        assert(s.is_prefix_of(t.drop_last()));
        lemma_valid_prefix(h, s, t.drop_last());
    } else {
        assert(s =~= t);
    }
}

/// An allowed capture that is longer than its front `s` goes on with a jump
/// that can follow `s`.
pub proof fn lemma_valid_next(h: Hunt, s: Seq<Jump>, t: Seq<Jump>)
    requires
        valid(h, t),
        s.is_prefix_of(t),
        s.len() < t.len(),
    ensures
        next_jump(h, s, t[s.len() as int].0, t[s.len() as int].1),
        s.push(t[s.len() as int]).is_prefix_of(t),
        valid(h, s.push(t[s.len() as int])),
{
    let s1 = s.push(t[s.len() as int]);
    assert(s1.is_prefix_of(t));
    lemma_valid_prefix(h, s1, t);
    assert(s1.drop_last() =~= s);
}

/// The one move that given jumps make.
pub proof fn lemma_move_is_unique(a: Move, b: Move, from: Field, t: Seq<Jump>)
    requires
        move_is(a, from, t),
        move_is(b, from, t),
    ensures
        a == b,
{
    assert forall|x: Field| a.captured().contains(x) <==> b.captured().contains(x) by {
        assert(a.captured().contains(x) <==> overs(t).contains(x));
        assert(b.captured().contains(x) <==> overs(t).contains(x));
    }
    Move::lemma_eq_by_set(a, b);
}

/// A longer list that begins with `a` holds every move that `a` holds.
pub proof fn lemma_has_move_grows(a: Seq<Move>, b: Seq<Move>, from: Field, t: Seq<Jump>)
    requires
        a.is_prefix_of(b),
        has_move(a, from, t),
    ensures
        has_move(b, from, t),
{
    let i = choose|i: int| 0 <= i < a.len() && move_is(#[trigger] a[i], from, t);
    assert(b[i] == a[i]);
}

/// A list that is complete stays so when it grows.
pub proof fn lemma_complete_grows(h: Hunt, s: Seq<Jump>, a: Seq<Move>, b: Seq<Move>)
    requires
        a.is_prefix_of(b),
        complete(h, s, a),
    ensures
        complete(h, s, b),
{
    assert forall|t: Seq<Jump>| #[trigger] terminal_extension(h, s, t) implies has_move(
        b,
        h.from,
        t,
    ) by {
        lemma_has_move_grows(a, b, h.from, t);
    }
}

/// A move made by a capture that begins with a longer front is made by a
/// capture that begins with the shorter one.
pub proof fn lemma_sound_shorter(h: Hunt, s: Seq<Jump>, j: Jump, mv: Move)
    requires
        sound_move(h, s.push(j), mv),
    ensures
        sound_move(h, s, mv),
{
    let t = choose|t: Seq<Jump>| #[trigger] extension(h, s.push(j), t) && move_is(mv, h.from, t);
    assert(s.is_prefix_of(s.push(j)));
    assert(s.is_prefix_of(t));
    assert(extension(h, s, t));
}

/// What is complete for every next jump is complete for all the longer
/// captures.
pub proof fn lemma_complete_beyond(h: Hunt, s: Seq<Jump>, list: Seq<Move>)
    requires
        all_jumps_complete(h, s, list),
    ensures
        complete_beyond(h, s, list),
{
    assert forall|t: Seq<Jump>| #[trigger]
        terminal_extension(h, s, t) && t.len() > s.len() implies has_move(list, h.from, t) by {
        lemma_valid_next(h, s, t);
        let j = t[s.len() as int];
        assert(next_jump(h, s, j.0, j.1));
        assert(complete(h, s.push((j.0, j.1)), list));
        assert(terminal_extension(h, s.push(j), t));
    }
}

/// What is complete for the longer captures, and holds the move of `s`
/// itself where `s` cannot be prolonged, is complete.
pub proof fn lemma_complete(h: Hunt, s: Seq<Jump>, list: Seq<Move>)
    requires
        complete_beyond(h, s, list),
        terminal(h, s) ==> has_move(list, h.from, s),
    ensures
        complete(h, s, list),
{
    assert forall|t: Seq<Jump>| #[trigger] terminal_extension(h, s, t) implies has_move(
        list,
        h.from,
        t,
    ) by {
        if t.len() == s.len() {
            assert(t =~= s);
        }
    }
}

/// The greatest capture is a capture, and no capture is greater.
pub proof fn lemma_max_capture(p: Position)
    ensures
        0 <= max_capture(p) <= max_jumps(),
        max_capture(p) > 0 ==> can_capture(p, max_capture(p)),
        forall|n: int| 1 <= n <= max_jumps() && #[trigger] can_capture(p, n) ==> n <= max_capture(p),
{
    lemma_max_capture_upto(p, max_jumps());
}

/// The greatest capture of at most `m` jumps is a capture, and no capture of
/// at most `m` jumps is greater.
pub proof fn lemma_max_capture_upto(p: Position, m: int)
    requires
        0 <= m,
    ensures
        0 <= max_capture_upto(p, m) <= m,
        max_capture_upto(p, m) > 0 ==> can_capture(p, max_capture_upto(p, m)),
        forall|n: int| 1 <= n <= m && #[trigger] can_capture(p, n) ==> n <= max_capture_upto(p, m),
    decreases m,
{
    if m > 0 {
        lemma_max_capture_upto(p, m - 1);
    }
}

/// No capture that the rules allow takes more pieces than the greatest
/// capture.
pub proof fn lemma_capture_bound(p: Position, from: Field, s: Seq<Jump>)
    requires
        capture_seq(p, from, s),
    ensures
        s.len() <= max_capture(p),
{
    lemma_max_capture(p);
    assert(can_capture(p, s.len() as int));
}

/// A capture of the greatest number of pieces cannot be prolonged.
pub proof fn lemma_greatest_is_terminal(p: Position, from: Field, s: Seq<Jump>)
    requires
        capture_seq(p, from, s),
        s.len() == max_capture(p),
    ensures
        terminal(hunt_of(p, from), s),
{
    let h = hunt_of(p, from);
    if s.len() < max_jumps() && exists|over: Field, to: Field| #[trigger]
        next_jump(h, s, over, to) {
        let (over, to) = choose|over: Field, to: Field| #[trigger] next_jump(h, s, over, to);
        let s1 = s.push((over, to));
        lemma_overs_push(s, (over, to));
        assert(valid(h, s1));
        assert(capture_seq(p, from, s1));
        lemma_capture_bound(p, from, s1);
    }
}

/// Every legal move captures the greatest number of pieces that any capture
/// allowed by the rules takes: no allowed capture takes more, and where that
/// number is not zero some allowed capture takes as many.
pub proof fn lemma_capture_maximality(p: Position, mv: Move)
    requires
        legal(p, mv),
    ensures
        mv.spec_num_taken() == max_capture(p),
        forall|from: Field, s: Seq<Jump>| #[trigger] capture_seq(p, from, s) ==> s.len() <= max_capture(p),
        max_capture(p) > 0 ==> can_capture(p, max_capture(p)),
{
    lemma_max_capture(p);
    assert forall|from: Field, s: Seq<Jump>| #[trigger] capture_seq(p, from, s) implies s.len()
        <= max_capture(p) by {
        lemma_capture_bound(p, from, s);
    }
}

/// Two lists of the legal moves of one position hold the same moves, each
/// as often: the legal moves are a function of the position.
pub proof fn lemma_legal_moves_deterministic(p: Position, a: Seq<Move>, b: Seq<Move>)
    requires
        is_legal_list(p, a),
        is_legal_list(p, b),
    ensures
        a.to_multiset() == b.to_multiset(),
{
    a.lemma_multiset_has_no_duplicates();
    b.lemma_multiset_has_no_duplicates();
    assert forall|mv: Move| a.to_multiset().count(mv) == b.to_multiset().count(mv) by {
        vstd::seq_lib::to_multiset_contains(a, mv);
        vstd::seq_lib::to_multiset_contains(b, mv);
        assert(a.contains(mv) <==> b.contains(mv));
    }
    assert(a.to_multiset() =~= b.to_multiset());
}

} // verus!

//! The move generator: the legal moves of a position.

use super::mv::Move;
use super::piece::{
    is_king, piece_is, piece_own, spec_color, Color, Piece, BLACK_KING, BLACK_MAN, EMPTY,
    WHITE_KING, WHITE_MAN,
};
use super::position::{Field, Position};
use super::rules::{
    all_jumps_complete, capture, capture_seq, complete, complete_beyond, extension, forward, grown,
    has_move, hunt_of, is_legal_list, jump, king_jump_along, king_jump_at, king_step, king_step_at,
    landing, legal, lemma_capture_bound, lemma_complete, lemma_complete_beyond,
    lemma_complete_grows, lemma_greatest_is_terminal, lemma_has_move_grows, lemma_max_capture,
    lemma_move_is_unique, lemma_overs_push, lemma_sound_shorter, lemma_valid_next, lifted_board,
    man_jump_along, man_step, max_capture, move_is, next_jump, overs, sound_capture, sound_move,
    step, terminal, terminal_extension, valid, Hunt, Jump,
};
use super::steps::{
    lemma_path, lemma_paths_disjoint, spec_jump, spec_jumps, spec_path, spec_short_jumps, spec_step,
    spec_steps, Steps,
};
use vstd::prelude::*;
use vstd::string::*;

verus! {

/// How many moves of `list` satisfy `pred`.
pub open spec fn count_of(list: Seq<Move>, pred: spec_fn(Move) -> bool) -> int
    decreases list.len(),
{
    if list.len() == 0 {
        0
    } else {
        count_of(list.drop_last(), pred) + if pred(list.last()) {
            1int
        } else {
            0int
        }
    }
}

/// Whether a move lands on `to`.
pub open spec fn lands_on(to: Field) -> spec_fn(Move) -> bool {
    |m: Move| m.spec_to() == to
}

/// Whether a move starts on `from`.
pub open spec fn starts_on(from: Field) -> spec_fn(Move) -> bool {
    |m: Move| m.spec_from() == from
}

/// Whether a move is written as `text`.
pub open spec fn written_as(text: Seq<char>) -> spec_fn(Move) -> bool {
    |m: Move| m.spec_string() == text
}

/// The shortest notation that tells `mv` apart among the moves `all`: the
/// bare symbol where there is one move only, else the landing field where
/// one move only lands there, else the origin where one move only starts
/// there, else both, else the full notation with the captured fields.
pub open spec fn spec_short_string(all: Seq<Move>, mv: Move) -> Seq<char> {
    let symbol = if mv.spec_num_taken() == 0 {
        '-'
    } else {
        'x'
    };
    if all.len() == 1 {
        if mv.spec_num_taken() == 0 {
            seq!['-']
        } else {
            Seq::new(mv.spec_num_taken() as nat, |i: int| 'x')
        }
    } else if count_of(all, lands_on(mv.spec_to())) == 1 {
        seq![symbol] + super::text::decimal((mv.spec_to() + 1) as nat)
    } else if count_of(all, starts_on(mv.spec_from())) == 1 {
        super::text::decimal((mv.spec_from() + 1) as nat).push(symbol)
    } else if count_of(all, written_as(mv.spec_string())) == 1 {
        mv.spec_string()
    } else {
        mv.spec_full_string()
    }
}

/// Taking one move out of a list takes it out of the count, if it
/// counted.
pub proof fn lemma_count_remove(list: Seq<Move>, pred: spec_fn(Move) -> bool, i: int)
    requires
        0 <= i < list.len(),
    ensures
        count_of(list, pred) == count_of(list.remove(i), pred) + if pred(list[i]) {
            1int
        } else {
            0int
        },
    decreases list.len(),
{
    if i == list.len() - 1 {
        assert(list.remove(i) =~= list.drop_last());
    } else {
        let init = list.drop_last();
        lemma_count_remove(init, pred, i);
        assert(init.remove(i) =~= list.remove(i).drop_last());
        assert(list.remove(i).last() == list.last());
    }
}

/// Lists that hold the same moves, each as often, count the same.
pub proof fn lemma_count_same(a: Seq<Move>, b: Seq<Move>, pred: spec_fn(Move) -> bool)
    requires
        a.to_multiset() == b.to_multiset(),
    ensures
        a.len() == b.len(),
        count_of(a, pred) == count_of(b, pred),
    decreases a.len(),
{
    vstd::seq_lib::to_multiset_len(a);
    vstd::seq_lib::to_multiset_len(b);
    if a.len() > 0 {
        let x = a.last();
        let init = a.drop_last();
        assert(init =~= a.remove(a.len() - 1));
        vstd::seq_lib::to_multiset_remove(a, a.len() - 1);
        vstd::seq_lib::to_multiset_contains(a, x);
        vstd::seq_lib::to_multiset_contains(b, x);
        assert(a.contains(x));
        assert(b.contains(x));
        let i = choose|i: int| 0 <= i < b.len() && b[i] == x;
        vstd::seq_lib::to_multiset_remove(b, i);
        lemma_count_remove(b, pred, i);
        lemma_count_same(init, b.remove(i), pred);
    }
}

/// The shortest notation does not depend on the order of the moves.
pub proof fn lemma_short_string_same(a: Seq<Move>, b: Seq<Move>, mv: Move)
    requires
        a.to_multiset() == b.to_multiset(),
    ensures
        spec_short_string(a, mv) == spec_short_string(b, mv),
{
    lemma_count_same(a, b, lands_on(mv.spec_to()));
    lemma_count_same(a, b, starts_on(mv.spec_from()));
    lemma_count_same(a, b, written_as(mv.spec_string()));
}

/// The shortest notation that tells `mv` apart among the moves `all`.
pub fn short_string(all: &Vec<Move>, mv: &Move) -> (result: String)
    requires
        mv.wf(),
        mv.spec_from() < usize::MAX,
        mv.spec_to() < usize::MAX,
        forall|i: int| 0 <= i < mv.captured().len() ==> mv.captured()[i] < usize::MAX,
        forall|i: int|
            0 <= i < all@.len() ==> (#[trigger] all@[i]).spec_from() < usize::MAX
                && all@[i].spec_to() < usize::MAX,
    ensures
        result@ == spec_short_string(all@, *mv),
{
    let symbol = if mv.num_taken() == 0 {
        '-'
    } else {
        'x'
    };
    if all.len() == 1 {
        let mut result = String::new();
        if mv.num_taken() == 0 {
            result.push('-');
            assert(result@ =~= seq!['-']);
        } else {
            let mut i: u8 = 0;
            while i < mv.num_taken()
                invariant
                    i <= mv.spec_num_taken(),
                    result@ == Seq::new(i as nat, |k: int| 'x'),
                decreases mv.spec_num_taken() - i,
            {
                result.push('x');
                i += 1;
                assert(result@ =~= Seq::new(i as nat, |k: int| 'x'));
            }
        }
        return result;
    }
    let mut same_to: usize = 0;
    let mut same_from: usize = 0;
    let mut same_text: usize = 0;
    let mv_string = mv.as_string();
    let mut i: usize = 0;
    while i < all.len()
        invariant
            i <= all@.len(),
            mv_string@ == mv.spec_string(),
            forall|k: int|
                0 <= k < all@.len() ==> (#[trigger] all@[k]).spec_from() < usize::MAX
                    && all@[k].spec_to() < usize::MAX,
            same_to == count_of(all@.subrange(0, i as int), lands_on(mv.spec_to())),
            same_from == count_of(all@.subrange(0, i as int), starts_on(mv.spec_from())),
            same_text == count_of(all@.subrange(0, i as int), written_as(mv.spec_string())),
            same_to <= i,
            same_from <= i,
            same_text <= i,
        decreases all@.len() - i,
    {
        let lm = all[i];
        proof {
            assert(all@.subrange(0, i + 1).drop_last() =~= all@.subrange(0, i as int));
            assert(all@.subrange(0, i + 1).last() == lm);
        }
        if lm.to() == mv.to() {
            same_to += 1;
        }
        if lm.from() == mv.from() {
            same_from += 1;
        }
        if lm.as_string() == mv_string {
            same_text += 1;
        }
        i += 1;
    }
    assert(all@.subrange(0, i as int) =~= all@);
    if same_to == 1 {
        let mut result = String::new();
        result.push(symbol);
        super::text::push_decimal(&mut result, mv.to() + 1);
        assert(result@ =~= spec_short_string(all@, *mv));
        result
    } else if same_from == 1 {
        let mut result = String::new();
        super::text::push_decimal(&mut result, mv.from() + 1);
        result.push(symbol);
        assert(result@ =~= spec_short_string(all@, *mv));
        result
    } else if same_text == 1 {
        mv_string
    } else {
        mv.as_full_string()
    }
}

/// `j` is the jump from `field` in direction `d`.
pub open spec fn jump_in(field: Field, d: int, j: Jump) -> bool {
    0 <= d < 4 && spec_path(field, d).len() > 1 && j == (
        spec_path(field, d)[0],
        spec_path(field, d)[1],
    )
}

/// `to` is the neighbour of `field` in direction `d`, one of the directions
/// from `lo` up to `hi`.
pub open spec fn step_in(field: Field, lo: int, hi: int, d: int, to: Field) -> bool {
    lo <= d < hi && spec_path(field, d).len() > 0 && to == spec_path(field, d)[0]
}

/// `j` is the jump from `field` in one of the directions below `hi`.
pub open spec fn jump_listed(field: Field, hi: int, j: Jump) -> bool {
    exists|d: int| d < hi && #[trigger] jump_in(field, d, j)
}

/// `to` is the neighbour of `field` in one of the directions from `lo` up
/// to `hi`.
pub open spec fn step_listed(field: Field, lo: int, hi: int, to: Field) -> bool {
    exists|d: int| #[trigger] step_in(field, lo, hi, d, to)
}

/// The table of jumps holds the jump of each direction that has one, and
/// nothing else.
pub proof fn lemma_jumps_table(field: Field, hi: int)
    requires
        field < 50,
        0 <= hi <= 4,
    ensures
        forall|idx: int|
            0 <= idx < spec_jumps(field, hi).len() ==> jump_listed(
                field,
                hi,
                #[trigger] spec_jumps(field, hi)[idx],
            ),
        forall|d: int, j: Jump|
            d < hi && #[trigger] jump_in(field, d, j) ==> spec_jumps(field, hi).contains(j),
        forall|idx: int|
            0 <= idx < spec_jumps(field, hi).len() ==> (#[trigger] spec_jumps(field, hi)[idx]).0
                < 50 && spec_jumps(field, hi)[idx].1 < 50,
    decreases hi,
{
    if hi > 0 {
        lemma_jumps_table(field, hi - 1);
        lemma_path(field, hi - 1);
        let prev = spec_jumps(field, hi - 1);
        let cur = spec_jumps(field, hi);
        let add = spec_jump(field, hi - 1);
        assert(cur == prev + add);
        assert forall|idx: int| 0 <= idx < cur.len() implies jump_listed(
            field,
            hi,
            #[trigger] cur[idx],
        ) by {
            if idx < prev.len() {
                assert(cur[idx] == prev[idx]);
                let d = choose|d: int| d < hi - 1 && #[trigger] jump_in(field, d, prev[idx]);
                assert(jump_in(field, d, cur[idx]));
            } else {
                assert(cur[idx] == add[idx - prev.len()]);
                assert(jump_in(field, hi - 1, cur[idx]));
            }
        }
        assert forall|d: int, j: Jump| d < hi && #[trigger] jump_in(field, d, j) implies cur.contains(
            j,
        ) by {
            if d < hi - 1 {
                assert(prev.contains(j));
                let k = choose|k: int| 0 <= k < prev.len() && prev[k] == j;
                assert(cur[k] == j);
            } else {
                assert(add[0] == j);
                assert(cur[prev.len() as int] == j);
            }
        }
        assert forall|idx: int| 0 <= idx < cur.len() implies (#[trigger] cur[idx]).0 < 50
            && cur[idx].1 < 50 by {
            if idx < prev.len() {
                assert(cur[idx] == prev[idx]);
            } else {
                assert(cur[idx] == add[idx - prev.len()]);
                assert(spec_path(field, hi - 1)[0] < 50);
                assert(spec_path(field, hi - 1)[1] < 50);
            }
        }
    }
}

/// The table of steps holds the neighbour in each direction that has one,
/// once, and nothing else.
pub proof fn lemma_steps_table(field: Field, lo: int, hi: int)
    requires
        field < 50,
        0 <= lo <= hi <= 4,
    ensures
        forall|idx: int|
            0 <= idx < spec_steps(field, lo, hi).len() ==> step_listed(
                field,
                lo,
                hi,
                #[trigger] spec_steps(field, lo, hi)[idx],
            ),
        forall|d: int, to: Field| #[trigger]
            step_in(field, lo, hi, d, to) ==> spec_steps(field, lo, hi).contains(to),
        forall|idx: int|
            0 <= idx < spec_steps(field, lo, hi).len() ==> #[trigger] spec_steps(
                field,
                lo,
                hi,
            )[idx] < 50,
        spec_steps(field, lo, hi).no_duplicates(),
    decreases hi - lo,
{
    if hi > lo {
        lemma_steps_table(field, lo, hi - 1);
        lemma_path(field, hi - 1);
        let prev = spec_steps(field, lo, hi - 1);
        let cur = spec_steps(field, lo, hi);
        let add = spec_step(field, hi - 1);
        assert(cur == prev + add);
        assert forall|idx: int| 0 <= idx < cur.len() implies step_listed(
            field,
            lo,
            hi,
            #[trigger] cur[idx],
        ) by {
            if idx < prev.len() {
                assert(cur[idx] == prev[idx]);
                let d = choose|d: int| #[trigger] step_in(field, lo, hi - 1, d, prev[idx]);
                assert(step_in(field, lo, hi, d, cur[idx]));
            } else {
                assert(cur[idx] == add[idx - prev.len()]);
                assert(step_in(field, lo, hi, hi - 1, cur[idx]));
            }
        }
        assert forall|d: int, to: Field| #[trigger] step_in(field, lo, hi, d, to) implies cur.contains(
            to,
        ) by {
            if d < hi - 1 {
                assert(step_in(field, lo, hi - 1, d, to));
                assert(prev.contains(to));
                let k = choose|k: int| 0 <= k < prev.len() && prev[k] == to;
                assert(cur[k] == to);
            } else {
                assert(add[0] == to);
                assert(cur[prev.len() as int] == to);
            }
        }
        assert forall|idx: int| 0 <= idx < cur.len() implies #[trigger] cur[idx] < 50 by {
            if idx < prev.len() {
                assert(cur[idx] == prev[idx]);
            } else {
                assert(cur[idx] == add[idx - prev.len()]);
                assert(spec_path(field, hi - 1)[0] < 50);
            }
        }
        assert forall|a: int, b: int| 0 <= a < cur.len() && 0 <= b < cur.len() && a != b implies cur[a]
            != cur[b] by {
            if a < prev.len() && b < prev.len() {
                assert(cur[a] == prev[a] && cur[b] == prev[b]);
            } else {
                let old_idx = if a < prev.len() {
                    a
                } else {
                    b
                };
                assert(old_idx < prev.len());
                assert(cur[old_idx] == prev[old_idx]);
                let d = choose|d: int| #[trigger] step_in(field, lo, hi - 1, d, prev[old_idx]);
                lemma_paths_disjoint(field, d, 0, hi - 1, 0);
            }
        }
    }
}

/// Whether the entry `mv` of a list under construction is in order: a step
/// that the board allows, or a move made by an allowed capture.
pub open spec fn sound_entry(p: Position, mv: Move) -> bool {
    step(p, mv) || sound_capture(p, mv)
}

/// Every entry of `list` is in order.
pub open spec fn all_sound(p: Position, list: Seq<Move>) -> bool {
    forall|i: int| 0 <= i < list.len() ==> sound_entry(p, #[trigger] list[i])
}

/// The piece on `from` has a capture.
pub open spec fn captures_from(p: Position, from: Field) -> bool {
    exists|s: Seq<Jump>| #[trigger] capture_seq(p, from, s)
}

/// A piece on a field below `f` has a capture.
pub open spec fn captures_below(p: Position, f: int) -> bool {
    exists|from: Field| from < f && #[trigger] captures_from(p, from)
}

/// `list` holds the move of every capture of the piece on `from` that
/// cannot be prolonged.
pub open spec fn field_complete(p: Position, from: Field, list: Seq<Move>) -> bool {
    forall|s: Seq<Jump>| #[trigger]
        capture_seq(p, from, s) && terminal(hunt_of(p, from), s) ==> has_move(list, from, s)
}

/// `list` holds the move of every capture that cannot be prolonged, of the
/// pieces on the fields below `f`.
pub open spec fn captures_complete(p: Position, f: int, list: Seq<Move>) -> bool {
    forall|from: Field| from < f ==> #[trigger] field_complete(p, from, list)
}

/// `mv` is a step without capture from `from` to `to`.
pub open spec fn is_shift(mv: Move, from: Field, to: Field) -> bool {
    mv.wf() && mv.spec_num_taken() == 0 && mv.spec_from() == from && mv.spec_to() == to
}

/// `list` holds the steps of the pieces on the fields below `f`, each once,
/// and nothing else.
pub open spec fn steps_exact(p: Position, f: int, list: Seq<Move>) -> bool {
    &&& list.no_duplicates()
    &&& forall|mv: Move| #[trigger] list.contains(mv) <==> (step(p, mv) && mv.spec_from() < f)
}

/// `to` is one of the first `n` entries of `steps`, and empty.
pub open spec fn step_among(p: Position, steps: Seq<Field>, n: int, to: Field) -> bool {
    exists|idx: int| 0 <= idx < n && #[trigger] steps[idx] == to && p.spec_piece_at(to) == EMPTY
}

/// `list` holds the steps of the pieces on the fields below `field` and the
/// steps of the man on `field` to the first `n` entries of `steps`, each
/// once, and nothing else.
pub open spec fn man_steps_exact(
    p: Position,
    field: Field,
    steps: Seq<Field>,
    n: int,
    list: Seq<Move>,
) -> bool {
    &&& list.no_duplicates()
    &&& forall|mv: Move| #[trigger]
        list.contains(mv) <==> ((step(p, mv) && mv.spec_from() < field) || (is_shift(
            mv,
            field,
            mv.spec_to(),
        ) && step_among(p, steps, n, mv.spec_to())))
}

/// Direction `d1` and index `j1` come before direction `d` and index `k` in
/// the order in which a king's paths are walked.
pub open spec fn in_zone(d1: int, j1: int, d: int, k: int) -> bool {
    d1 < d || (d1 == d && j1 < k)
}

/// `to` is reached by a king's slide from `field` that lies in the zone
/// before direction `d` and index `k`.
pub open spec fn slide_among(p: Position, field: Field, d: int, k: int, to: Field) -> bool {
    exists|d1: int, j1: int|
        in_zone(d1, j1, d, k) && #[trigger] king_step_at(p, field, d1, j1) && spec_path(
            field,
            d1,
        )[j1] == to
}

/// `list` holds the steps of the pieces on the fields below `field` and the
/// slides of the king on `field` in the zone before `d` and `k`, each once,
/// and nothing else.
pub open spec fn king_steps_exact(p: Position, field: Field, d: int, k: int, list: Seq<Move>) -> bool {
    &&& list.no_duplicates()
    &&& forall|mv: Move| #[trigger]
        list.contains(mv) <==> ((step(p, mv) && mv.spec_from() < field) || (is_shift(
            mv,
            field,
            mv.spec_to(),
        ) && slide_among(p, field, d, k, mv.spec_to())))
}

/// For every jump of the king in the zone before `d` and `k` that can
/// follow `s`, `list` holds the moves of the captures that go on with it.
pub open spec fn king_zone_complete(
    h: Hunt,
    s: Seq<Jump>,
    list: Seq<Move>,
    cur: Field,
    d: int,
    k: int,
) -> bool {
    forall|d1: int, i1: int, j1: int|
        in_zone(d1, j1, d, k) && #[trigger] king_jump_at(h.board, h.prey, cur, d1, i1, j1)
            && !overs(s).contains(spec_path(cur, d1)[i1]) ==> complete(
            h,
            s.push((spec_path(cur, d1)[i1], spec_path(cur, d1)[j1])),
            list,
        )
}

/// No jump of the king in the zone before `d` and `k` can follow `s`.
pub open spec fn king_zone_idle(h: Hunt, s: Seq<Jump>, cur: Field, d: int, k: int) -> bool {
    forall|d1: int, i1: int, j1: int|
        in_zone(d1, j1, d, k) && #[trigger] king_jump_at(h.board, h.prey, cur, d1, i1, j1)
            ==> overs(s).contains(spec_path(cur, d1)[i1])
}

/// The squares of `path` in front of index `k` are empty.
pub open spec fn scan_clear(b: Seq<Piece>, path: Seq<Field>, k: int) -> bool {
    forall|m: int| 0 <= m < k ==> b[#[trigger] path[m] as int] == EMPTY
}

/// In front of index `k` of `path` the prey at index `i` is the only piece.
pub open spec fn scan_over(b: Seq<Piece>, prey: Color, path: Seq<Field>, i: int, k: int) -> bool {
    &&& 0 <= i < k
    &&& scan_clear(b, path, i)
    &&& spec_color(b[path[i] as int]) == Some(prey)
    &&& forall|m: int| i < m < k ==> b[#[trigger] path[m] as int] == EMPTY
}

/// The greatest number of captures among the moves of `list`.
pub open spec fn max_taken(list: Seq<Move>) -> int
    decreases list.len(),
{
    if list.len() == 0 {
        0
    } else if list.last().spec_num_taken() > max_taken(list.drop_last()) {
        list.last().spec_num_taken() as int
    } else {
        max_taken(list.drop_last())
    }
}

/// The greatest number of captures is reached by a move of the list and
/// exceeded by none.
pub proof fn lemma_max_taken(list: Seq<Move>)
    ensures
        0 <= max_taken(list),
        forall|i: int| 0 <= i < list.len() ==> (#[trigger] list[i]).spec_num_taken() <= max_taken(list),
        list.len() > 0 ==> exists|i: int|
            0 <= i < list.len() && (#[trigger] list[i]).spec_num_taken() == max_taken(list),
    decreases list.len(),
{
    if list.len() > 0 {
        let init = list.drop_last();
        lemma_max_taken(init);
        assert forall|i: int| 0 <= i < list.len() implies (#[trigger] list[i]).spec_num_taken()
            <= max_taken(list) by {
            if i < init.len() {
                assert(list[i] == init[i]);
            }
        }
        if list.last().spec_num_taken() > max_taken(init) || init.len() == 0 {
            assert(list[list.len() - 1].spec_num_taken() == max_taken(list));
        } else {
            let i = choose|i: int|
                0 <= i < init.len() && (#[trigger] init[i]).spec_num_taken() == max_taken(init);
            assert(list[i] == init[i]);
        }
    }
}

/// The board that a capturing piece sees is the board without it.
pub proof fn lemma_lifted(p: Position, field: Field, lifted: Position)
    requires
        field < 50,
        lifted.spec_piece_at(field) == EMPTY,
        forall|f: Field| f < 50 && f != field ==> #[trigger] lifted.spec_piece_at(f) == p.spec_piece_at(f),
    ensures
        lifted.board() == hunt_of(p, field).board,
{
    assert(lifted.board() =~= lifted_board(p, field));
}

/// A move made by a capture of the piece on `h.from` that begins with a
/// jump is in order.
pub proof fn lemma_sound_capture(p: Position, h: Hunt, s: Seq<Jump>, mv: Move)
    requires
        h == hunt_of(p, h.from),
        h.from < 50,
        spec_color(p.spec_piece_at(h.from)) == Some(p.spec_side_to_move()),
        s.len() >= 1,
        sound_move(h, s, mv),
    ensures
        sound_capture(p, mv),
        sound_entry(p, mv),
{
    let t = choose|t: Seq<Jump>| #[trigger] extension(h, s, t) && move_is(mv, h.from, t);
    assert(capture_seq(p, mv.spec_from(), t));
}

/// What holds the moves of all the captures that follow a first jump holds
/// the moves of all the captures of the piece.
pub proof fn lemma_field_complete(p: Position, from: Field, list: Seq<Move>)
    requires
        all_jumps_complete(hunt_of(p, from), Seq::<Jump>::empty(), list),
    ensures
        field_complete(p, from, list),
{
    let h = hunt_of(p, from);
    let e = Seq::<Jump>::empty();
    lemma_complete_beyond(h, e, list);
    assert forall|s: Seq<Jump>| #[trigger] capture_seq(p, from, s) && terminal(h, s) implies has_move(
        list,
        from,
        s,
    ) by {
        assert(e.is_prefix_of(s));
        assert(terminal_extension(h, e, s));
    }
}

/// A list that is complete for the fields below `f` stays so when it grows.
pub proof fn lemma_field_complete_grows(p: Position, f: int, a: Seq<Move>, b: Seq<Move>)
    requires
        a.is_prefix_of(b),
        captures_complete(p, f, a),
    ensures
        captures_complete(p, f, b),
{
    assert forall|from: Field| from < f implies #[trigger] field_complete(p, from, b) by {
        assert(field_complete(p, from, a));
        assert forall|s: Seq<Jump>| #[trigger]
            capture_seq(p, from, s) && terminal(hunt_of(p, from), s) implies has_move(
            b,
            from,
            s,
        ) by {
            lemma_has_move_grows(a, b, from, s);
        }
    }
}

/// A field that holds no piece of the side to move has neither capture nor
/// step.
pub proof fn lemma_no_piece(p: Position, field: Field, list: Seq<Move>)
    requires
        spec_color(p.spec_piece_at(field)) != Some(p.spec_side_to_move()),
    ensures
        !captures_from(p, field),
        field_complete(p, field, list),
        forall|mv: Move| step(p, mv) ==> mv.spec_from() != field,
{
}

/// A list with one more move at its end holds that move and what it held
/// before, and holds nothing twice if it did not before and the move is
/// new.
pub proof fn lemma_push_contains(list: Seq<Move>, mv: Move)
    ensures
        forall|x: Move| #[trigger] list.push(mv).contains(x) <==> (list.contains(x) || x == mv),
        list.is_prefix_of(list.push(mv)),
        !list.contains(mv) && list.no_duplicates() ==> list.push(mv).no_duplicates(),
{
    let l2 = list.push(mv);
    assert forall|x: Move| #[trigger] l2.contains(x) <==> (list.contains(x) || x == mv) by {
        if l2.contains(x) {
            let k = choose|k: int| 0 <= k < l2.len() && l2[k] == x;
            if k < list.len() {
                assert(list[k] == x);
            }
        }
        if list.contains(x) {
            let k = choose|k: int| 0 <= k < list.len() && list[k] == x;
            assert(l2[k] == x);
        }
        if x == mv {
            assert(l2[list.len() as int] == x);
        }
    }
    if !list.contains(mv) && list.no_duplicates() {
        assert forall|a: int, b: int| 0 <= a < l2.len() && 0 <= b < l2.len() && a != b implies l2[a]
            != l2[b] by {
            if a < list.len() {
                assert(list.contains(list[a]));
            }
            if b < list.len() {
                assert(list.contains(list[b]));
            }
        }
    }
}

/// The list that remains once every move that takes fewer pieces than the
/// greatest capture is struck from a complete list of candidates is the
/// list of the legal moves.
pub proof fn lemma_trimmed_legal(p: Position, all: Seq<Move>, kept: Seq<Move>, captures: bool)
    requires
        all_sound(p, all),
        captures_complete(p, 50, all),
        captures == captures_below(p, 50),
        !captures ==> steps_exact(p, 50, all),
        max_taken(all) == 0 ==> kept == all,
        max_taken(all) > 0 ==> kept.no_duplicates(),
        max_taken(all) > 0 ==> forall|mv: Move| #[trigger]
            kept.contains(mv) <==> (all.contains(mv) && mv.spec_num_taken() == max_taken(all)),
    ensures
        is_legal_list(p, kept),
        max_taken(all) == max_capture(p),
{
    lemma_max_capture(p);
    lemma_max_taken(all);
    let big = max_capture(p);
    if !captures {
        if big > 0 {
            let (from, s) = choose|from: Field, s: Seq<Jump>| #[trigger]
                capture_seq(p, from, s) && s.len() == big;
            assert(captures_from(p, from));
            assert(captures_below(p, 50));
        }
        if all.len() > 0 {
            let i = choose|i: int|
                0 <= i < all.len() && (#[trigger] all[i]).spec_num_taken() == max_taken(all);
            assert(all.contains(all[i]));
        }
        assert(max_taken(all) == 0);
        assert forall|mv: Move| #[trigger] kept.contains(mv) <==> legal(p, mv) by {}
    } else {
        let from0 = choose|from: Field| from < 50 && #[trigger] captures_from(p, from);
        let s0 = choose|s: Seq<Jump>| #[trigger] capture_seq(p, from0, s);
        lemma_capture_bound(p, from0, s0);
        assert(big >= 1);
        let (from1, s1) = choose|from: Field, s: Seq<Jump>| #[trigger]
            capture_seq(p, from, s) && s.len() == big;
        lemma_greatest_is_terminal(p, from1, s1);
        assert(field_complete(p, from1, all));
        assert(has_move(all, from1, s1));
        let i1 = choose|i: int| 0 <= i < all.len() && move_is(#[trigger] all[i], from1, s1);
        assert(all[i1].spec_num_taken() == big);
        let im = choose|i: int|
            0 <= i < all.len() && (#[trigger] all[i]).spec_num_taken() == max_taken(all);
        assert(sound_entry(p, all[im]));
        if sound_capture(p, all[im]) {
            let t = choose|t: Seq<Jump>| #[trigger]
                capture_seq(p, all[im].spec_from(), t) && move_is(all[im], all[im].spec_from(), t);
            lemma_capture_bound(p, all[im].spec_from(), t);
        }
        assert(max_taken(all) == big);
        assert forall|mv: Move| #[trigger] kept.contains(mv) <==> legal(p, mv) by {
            if kept.contains(mv) {
                let k = choose|k: int| 0 <= k < all.len() && all[k] == mv;
                assert(sound_entry(p, all[k]));
                let t = choose|t: Seq<Jump>| #[trigger]
                    capture_seq(p, mv.spec_from(), t) && move_is(mv, mv.spec_from(), t);
                assert(capture(p, mv));
            }
            if legal(p, mv) {
                let t = choose|t: Seq<Jump>| #[trigger]
                    capture_seq(p, mv.spec_from(), t) && t.len() == big && move_is(
                        mv,
                        mv.spec_from(),
                        t,
                    );
                lemma_greatest_is_terminal(p, mv.spec_from(), t);
                assert(field_complete(p, mv.spec_from(), all));
                assert(has_move(all, mv.spec_from(), t));
                let i = choose|i: int|
                    0 <= i < all.len() && move_is(#[trigger] all[i], mv.spec_from(), t);
                lemma_move_is_unique(all[i], mv, mv.spec_from(), t);
                assert(all.contains(mv));
            }
        }
    }
}


/// After the jumps `s`, a man can go on with the jump `j`.
pub open spec fn man_enabled(h: Hunt, s: Seq<Jump>, j: Jump) -> bool {
    &&& spec_color(h.board[j.0 as int]) == Some(h.prey)
    &&& h.board[j.1 as int] == EMPTY
    &&& !overs(s).contains(j.0)
}

/// A jump of the table that the board allows is a jump that can follow.
pub proof fn lemma_man_enabled(h: Hunt, s: Seq<Jump>, cur: Field, idx: int)
    requires
        !h.king,
        cur == landing(h.from, s),
        cur < 50,
        valid(h, s),
        0 <= idx < spec_short_jumps(cur).len(),
        man_enabled(h, s, spec_short_jumps(cur)[idx]),
    ensures
        next_jump(h, s, spec_short_jumps(cur)[idx].0, spec_short_jumps(cur)[idx].1),
        valid(h, s.push(spec_short_jumps(cur)[idx])),
        landing(h.from, s.push(spec_short_jumps(cur)[idx])) == spec_short_jumps(cur)[idx].1,
{
    lemma_jumps_table(cur, 4);
    let j = spec_short_jumps(cur)[idx];
    assert(jump_listed(cur, 4, j));
    let d = choose|d: int| d < 4 && #[trigger] jump_in(cur, d, j);
    assert(man_jump_along(h.board, h.prey, spec_path(cur, d), j.0, j.1));
    lemma_overs_push(s, j);
}

/// Once every jump of the table is dealt with, every jump that can follow
/// is dealt with.
pub proof fn lemma_man_jumps_done(h: Hunt, s: Seq<Jump>, list: Seq<Move>, cur: Field)
    requires
        !h.king,
        cur == landing(h.from, s),
        cur < 50,
        forall|idx: int|
            0 <= idx < spec_short_jumps(cur).len() && man_enabled(
                h,
                s,
                #[trigger] spec_short_jumps(cur)[idx],
            ) ==> complete(h, s.push(spec_short_jumps(cur)[idx]), list),
    ensures
        all_jumps_complete(h, s, list),
        (forall|idx: int|
            0 <= idx < spec_short_jumps(cur).len() ==> !man_enabled(
                h,
                s,
                #[trigger] spec_short_jumps(cur)[idx],
            )) ==> forall|over: Field, to: Field| !#[trigger] next_jump(h, s, over, to),
{
    lemma_jumps_table(cur, 4);
    let jumps = spec_short_jumps(cur);
    assert forall|over: Field, to: Field| #[trigger] next_jump(h, s, over, to) implies complete(
        h,
        s.push((over, to)),
        list,
    ) && exists|idx: int| 0 <= idx < jumps.len() && man_enabled(h, s, #[trigger] jumps[idx]) by {
        let d = choose|d: int|
            0 <= d < 4 && #[trigger] man_jump_along(h.board, h.prey, spec_path(cur, d), over, to);
        assert(jump_in(cur, d, (over, to)));
        assert(jumps.contains((over, to)));
        let idx = choose|idx: int| 0 <= idx < jumps.len() && jumps[idx] == (over, to);
        assert(man_enabled(h, s, jumps[idx]));
    }
}

/// Once the zone of a king's jumps is all four paths, every jump that can
/// follow is dealt with.
pub proof fn lemma_king_jumps_done(h: Hunt, s: Seq<Jump>, list: Seq<Move>, cur: Field)
    requires
        h.king,
        cur == landing(h.from, s),
        king_zone_complete(h, s, list, cur, 4, 0),
    ensures
        all_jumps_complete(h, s, list),
        king_zone_idle(h, s, cur, 4, 0) ==> forall|over: Field, to: Field| !#[trigger] next_jump(
            h,
            s,
            over,
            to,
        ),
{
    assert forall|over: Field, to: Field| #[trigger] next_jump(h, s, over, to) implies complete(
        h,
        s.push((over, to)),
        list,
    ) && !king_zone_idle(h, s, cur, 4, 0) by {
        let (d, i, j) = choose|d: int, i: int, j: int| #[trigger]
            king_jump_at(h.board, h.prey, cur, d, i, j) && spec_path(cur, d)[i] == over
                && spec_path(cur, d)[j] == to;
        assert(in_zone(d, j, 4, 0));
    }
}

/// A zone that is dealt with stays so when the list grows.
pub proof fn lemma_zone_grows(
    h: Hunt,
    s: Seq<Jump>,
    a: Seq<Move>,
    b: Seq<Move>,
    cur: Field,
    d: int,
    k: int,
)
    requires
        a.is_prefix_of(b),
        king_zone_complete(h, s, a, cur, d, k),
    ensures
        king_zone_complete(h, s, b, cur, d, k),
{
    assert forall|d1: int, i1: int, j1: int|
        in_zone(d1, j1, d, k) && #[trigger] king_jump_at(h.board, h.prey, cur, d1, i1, j1)
            && !overs(s).contains(spec_path(cur, d1)[i1]) implies complete(
        h,
        s.push((spec_path(cur, d1)[i1], spec_path(cur, d1)[j1])),
        b,
    ) by {
        lemma_complete_grows(h, s.push((spec_path(cur, d1)[i1], spec_path(cur, d1)[j1])), a, b);
    }
}

/// The zone grows by one square once the jumps that land there are dealt
/// with.
pub proof fn lemma_zone_advance(h: Hunt, s: Seq<Jump>, list: Seq<Move>, cur: Field, d: int, k: int)
    requires
        king_zone_complete(h, s, list, cur, d, k),
        forall|i1: int| #[trigger]
            king_jump_at(h.board, h.prey, cur, d, i1, k) && !overs(s).contains(
                spec_path(cur, d)[i1],
            ) ==> complete(h, s.push((spec_path(cur, d)[i1], spec_path(cur, d)[k])), list),
    ensures
        king_zone_complete(h, s, list, cur, d, k + 1),
{
}

/// A zone without a jump that can follow grows by one square on which none
/// lands.
pub proof fn lemma_idle_advance(h: Hunt, s: Seq<Jump>, cur: Field, d: int, k: int)
    requires
        king_zone_idle(h, s, cur, d, k),
        forall|i1: int| #[trigger]
            king_jump_at(h.board, h.prey, cur, d, i1, k) ==> overs(s).contains(
                spec_path(cur, d)[i1],
            ),
    ensures
        king_zone_idle(h, s, cur, d, k + 1),
{
}

/// The zone grows to the end of the path once no jump that can follow lands
/// on the squares that are left.
pub proof fn lemma_zone_skip(h: Hunt, s: Seq<Jump>, list: Seq<Move>, cur: Field, d: int, k: int)
    requires
        king_zone_complete(h, s, list, cur, d, k),
        forall|i1: int, j1: int|
            j1 >= k && #[trigger] king_jump_at(h.board, h.prey, cur, d, i1, j1) ==> overs(
                s,
            ).contains(spec_path(cur, d)[i1]),
    ensures
        king_zone_complete(h, s, list, cur, d + 1, 0),
{
}

/// A zone without a jump that can follow grows to the end of the path once
/// none lands on the squares that are left.
pub proof fn lemma_idle_skip(h: Hunt, s: Seq<Jump>, cur: Field, d: int, k: int)
    requires
        king_zone_idle(h, s, cur, d, k),
        forall|i1: int, j1: int|
            j1 >= k && #[trigger] king_jump_at(h.board, h.prey, cur, d, i1, j1) ==> overs(
                s,
            ).contains(spec_path(cur, d)[i1]),
    ensures
        king_zone_idle(h, s, cur, d + 1, 0),
{
}

/// The move that prolongs `mv` by one jump is the move of the prolonged
/// capture.
pub proof fn lemma_move_push(mv: Move, next: Move, from: Field, s: Seq<Jump>, over: Field, to: Field)
    requires
        move_is(mv, from, s),
        !overs(s).contains(over),
        next.wf(),
        next.distinct(),
        next.spec_from() == from,
        next.spec_to() == to,
        next.spec_num_taken() == mv.spec_num_taken() + 1,
        forall|x: Field| #[trigger]
            next.captured().contains(x) <==> (x == over || mv.captured().contains(x)),
    ensures
        move_is(next, from, s.push((over, to))),
{
    lemma_overs_push(s, (over, to));
    assert forall|x: Field| #[trigger] next.captured().contains(x) <==> overs(
        s.push((over, to)),
    ).contains(x) by {
        assert(mv.captured().contains(x) <==> overs(s).contains(x));
    }
}

/// The move of a single jump.
pub proof fn lemma_move_first(first: Move, from: Field, over: Field, to: Field)
    requires
        first.wf(),
        first.spec_from() == from,
        first.spec_to() == to,
        first.spec_num_taken() == 1,
        first.captured() == seq![over],
    ensures
        move_is(first, from, Seq::<Jump>::empty().push((over, to))),
        first.distinct(),
{
    let e = Seq::<Jump>::empty();
    lemma_overs_push(e, (over, to));
    assert(overs(e) =~= Seq::<Field>::empty());
    assert forall|x: Field| #[trigger] first.captured().contains(x) <==> overs(
        e.push((over, to)),
    ).contains(x) by {
        if first.captured().contains(x) {
            let k = choose|k: int| 0 <= k < first.captured().len() && first.captured()[k] == x;
            assert(x == over);
        }
        if x == over {
            assert(first.captured()[0] == x);
        }
    }
}

/// Two steps with the same origin and landing field are the same move.
pub proof fn lemma_shift_unique(a: Move, b: Move, from: Field, to: Field)
    requires
        is_shift(a, from, to),
        is_shift(b, from, to),
    ensures
        a == b,
{
    a.lemma_wf();
    b.lemma_wf();
    assert(a.captured() =~= b.captured());
    Move::lemma_eq(a, b);
}

/// A man's step to the next entry of the table, where that is empty, joins
/// the list; where it is not, the list stays as it is.
pub proof fn lemma_man_step_push(
    p: Position,
    field: Field,
    lo: int,
    n: int,
    list: Seq<Move>,
    mv: Move,
)
    requires
        field < 50,
        0 <= lo <= 2,
        0 <= n < spec_steps(field, lo, lo + 2).len(),
        man_steps_exact(p, field, spec_steps(field, lo, lo + 2), n, list),
        p.spec_piece_at(spec_steps(field, lo, lo + 2)[n]) == EMPTY ==> is_shift(
            mv,
            field,
            spec_steps(field, lo, lo + 2)[n],
        ),
    ensures
        p.spec_piece_at(spec_steps(field, lo, lo + 2)[n]) == EMPTY ==> man_steps_exact(
            p,
            field,
            spec_steps(field, lo, lo + 2),
            n + 1,
            list.push(mv),
        ),
        p.spec_piece_at(spec_steps(field, lo, lo + 2)[n]) != EMPTY ==> man_steps_exact(
            p,
            field,
            spec_steps(field, lo, lo + 2),
            n + 1,
            list,
        ),
{
    let steps = spec_steps(field, lo, lo + 2);
    let to = steps[n];
    lemma_steps_table(field, lo, lo + 2);
    if p.spec_piece_at(to) == EMPTY {
        let l2 = list.push(mv);
        lemma_push_contains(list, mv);
        assert(!list.contains(mv)) by {
            if list.contains(mv) {
                if step_among(p, steps, n, mv.spec_to()) {
                    let idx = choose|idx: int|
                        0 <= idx < n && #[trigger] steps[idx] == mv.spec_to() && p.spec_piece_at(
                            mv.spec_to(),
                        ) == EMPTY;
                    assert(steps[idx] != steps[n]);
                }
            }
        }
        assert forall|x: Move| #[trigger]
            l2.contains(x) <==> ((step(p, x) && x.spec_from() < field) || (is_shift(
                x,
                field,
                x.spec_to(),
            ) && step_among(p, steps, n + 1, x.spec_to()))) by {
            if x == mv {
                assert(steps[n] == x.spec_to());
                assert(step_among(p, steps, n + 1, x.spec_to()));
            }
            if is_shift(x, field, x.spec_to()) && step_among(p, steps, n + 1, x.spec_to()) {
                let idx = choose|idx: int|
                    0 <= idx < n + 1 && #[trigger] steps[idx] == x.spec_to() && p.spec_piece_at(
                        x.spec_to(),
                    ) == EMPTY;
                if idx == n {
                    lemma_shift_unique(x, mv, field, to);
                } else {
                    assert(step_among(p, steps, n, x.spec_to()));
                }
            }
            if step_among(p, steps, n, x.spec_to()) {
                let idx = choose|idx: int|
                    0 <= idx < n && #[trigger] steps[idx] == x.spec_to() && p.spec_piece_at(
                        x.spec_to(),
                    ) == EMPTY;
                assert(step_among(p, steps, n + 1, x.spec_to()));
            }
        }
    } else {
        assert forall|x: Move| #[trigger]
            list.contains(x) <==> ((step(p, x) && x.spec_from() < field) || (is_shift(
                x,
                field,
                x.spec_to(),
            ) && step_among(p, steps, n + 1, x.spec_to()))) by {
            if step_among(p, steps, n + 1, x.spec_to()) {
                let idx = choose|idx: int|
                    0 <= idx < n + 1 && #[trigger] steps[idx] == x.spec_to() && p.spec_piece_at(
                        x.spec_to(),
                    ) == EMPTY;
                assert(idx != n);
                assert(step_among(p, steps, n, x.spec_to()));
            }
            if step_among(p, steps, n, x.spec_to()) {
                let idx = choose|idx: int|
                    0 <= idx < n && #[trigger] steps[idx] == x.spec_to() && p.spec_piece_at(
                        x.spec_to(),
                    ) == EMPTY;
                assert(step_among(p, steps, n + 1, x.spec_to()));
            }
        }
    }
}

/// Before the first entry of the table the list holds the steps of the
/// fields below; after the last it holds those of the man as well.
pub proof fn lemma_man_steps_bounds(p: Position, field: Field, list: Seq<Move>)
    requires
        field < 50,
        spec_color(p.spec_piece_at(field)) == Some(p.spec_side_to_move()),
        !is_king(p.spec_piece_at(field)),
    ensures
        steps_exact(p, field as int, list) ==> man_steps_exact(
            p,
            field,
            spec_steps(field, forward(p.spec_side_to_move()), forward(p.spec_side_to_move()) + 2),
            0,
            list,
        ),
        man_steps_exact(
            p,
            field,
            spec_steps(field, forward(p.spec_side_to_move()), forward(p.spec_side_to_move()) + 2),
            spec_steps(
                field,
                forward(p.spec_side_to_move()),
                forward(p.spec_side_to_move()) + 2,
            ).len() as int,
            list,
        ) ==> steps_exact(p, field + 1, list),
{
    let side = p.spec_side_to_move();
    let lo = forward(side);
    let steps = spec_steps(field, lo, lo + 2);
    lemma_steps_table(field, lo, lo + 2);
    if steps_exact(p, field as int, list) {
        assert forall|x: Move| #[trigger]
            list.contains(x) <==> ((step(p, x) && x.spec_from() < field) || (is_shift(
                x,
                field,
                x.spec_to(),
            ) && step_among(p, steps, 0, x.spec_to()))) by {}
    }
    if man_steps_exact(p, field, steps, steps.len() as int, list) {
        assert forall|x: Move| #[trigger]
            list.contains(x) <==> (step(p, x) && x.spec_from() < field + 1) by {
            if step(p, x) && x.spec_from() == field {
                let d = choose|d: int|
                    lo <= d < lo + 2 && (#[trigger] spec_path(field, d)).len() > 0 && spec_path(
                        field,
                        d,
                    )[0] == x.spec_to() && p.spec_piece_at(x.spec_to()) == EMPTY;
                assert(step_in(field, lo, lo + 2, d, x.spec_to()));
                assert(steps.contains(x.spec_to()));
                let idx = choose|idx: int| 0 <= idx < steps.len() && steps[idx] == x.spec_to();
                assert(step_among(p, steps, steps.len() as int, x.spec_to()));
            }
            if is_shift(x, field, x.spec_to()) && step_among(
                p,
                steps,
                steps.len() as int,
                x.spec_to(),
            ) {
                let idx = choose|idx: int|
                    0 <= idx < steps.len() && #[trigger] steps[idx] == x.spec_to()
                        && p.spec_piece_at(x.spec_to()) == EMPTY;
                assert(step_listed(field, lo, lo + 2, steps[idx]));
                let d = choose|d: int| #[trigger] step_in(field, lo, lo + 2, d, steps[idx]);
                assert(spec_path(field, d).len() > 0);
                assert(man_step(p, side, field, x.spec_to()));
            }
        }
    }
}

/// Before the first path the list holds the steps of the fields below;
/// after the last it holds the slides of the king as well.
pub proof fn lemma_king_steps_bounds(p: Position, field: Field, list: Seq<Move>)
    requires
        field < 50,
        spec_color(p.spec_piece_at(field)) == Some(p.spec_side_to_move()),
        is_king(p.spec_piece_at(field)),
    ensures
        steps_exact(p, field as int, list) ==> king_steps_exact(p, field, 0, 0, list),
        king_steps_exact(p, field, 4, 0, list) ==> steps_exact(p, field + 1, list),
{
    if steps_exact(p, field as int, list) {
        assert forall|x: Move| #[trigger]
            list.contains(x) <==> ((step(p, x) && x.spec_from() < field) || (is_shift(
                x,
                field,
                x.spec_to(),
            ) && slide_among(p, field, 0, 0, x.spec_to()))) by {}
    }
    if king_steps_exact(p, field, 4, 0, list) {
        assert forall|x: Move| #[trigger]
            list.contains(x) <==> (step(p, x) && x.spec_from() < field + 1) by {
            if step(p, x) && x.spec_from() == field {
                let (d, j) = choose|d: int, j: int| #[trigger]
                    king_step_at(p, field, d, j) && spec_path(field, d)[j] == x.spec_to();
                assert(in_zone(d, j, 4, 0));
                assert(slide_among(p, field, 4, 0, x.spec_to()));
            }
            if is_shift(x, field, x.spec_to()) && slide_among(p, field, 4, 0, x.spec_to()) {
                let (d, j) = choose|d: int, j: int|
                    in_zone(d, j, 4, 0) && #[trigger] king_step_at(p, field, d, j) && spec_path(
                        field,
                        d,
                    )[j] == x.spec_to();
                assert(king_step(p, field, x.spec_to()));
            }
        }
    }
}

/// A king's slide to the next square joins the list.
pub proof fn lemma_slide_push(p: Position, field: Field, d: int, k: int, list: Seq<Move>, mv: Move)
    requires
        field < 50,
        king_steps_exact(p, field, d, k, list),
        king_step_at(p, field, d, k),
        is_shift(mv, field, spec_path(field, d)[k]),
    ensures
        king_steps_exact(p, field, d, k + 1, list.push(mv)),
{
    let l2 = list.push(mv);
    let to = spec_path(field, d)[k];
    lemma_push_contains(list, mv);
    lemma_path(field, d);
    assert(!list.contains(mv)) by {
        if list.contains(mv) {
            let (d1, j1) = choose|d1: int, j1: int|
                in_zone(d1, j1, d, k) && #[trigger] king_step_at(p, field, d1, j1) && spec_path(
                    field,
                    d1,
                )[j1] == to;
            lemma_path(field, d1);
            if d1 != d {
                lemma_paths_disjoint(field, d1, j1, d, k);
            }
        }
    }
    assert forall|x: Move| #[trigger]
        l2.contains(x) <==> ((step(p, x) && x.spec_from() < field) || (is_shift(
            x,
            field,
            x.spec_to(),
        ) && slide_among(p, field, d, k + 1, x.spec_to()))) by {
        if x == mv {
            assert(in_zone(d, k, d, k + 1));
            assert(slide_among(p, field, d, k + 1, x.spec_to()));
        }
        if slide_among(p, field, d, k, x.spec_to()) {
            let (d1, j1) = choose|d1: int, j1: int|
                in_zone(d1, j1, d, k) && #[trigger] king_step_at(p, field, d1, j1) && spec_path(
                    field,
                    d1,
                )[j1] == x.spec_to();
            assert(in_zone(d1, j1, d, k + 1));
            assert(slide_among(p, field, d, k + 1, x.spec_to()));
        }
        if is_shift(x, field, x.spec_to()) && slide_among(p, field, d, k + 1, x.spec_to()) {
            let (d1, j1) = choose|d1: int, j1: int|
                in_zone(d1, j1, d, k + 1) && #[trigger] king_step_at(p, field, d1, j1)
                    && spec_path(field, d1)[j1] == x.spec_to();
            if d1 == d && j1 == k {
                lemma_shift_unique(x, mv, field, to);
            } else {
                assert(in_zone(d1, j1, d, k));
                assert(slide_among(p, field, d, k, x.spec_to()));
            }
        }
    }
}

/// Where the king cannot slide as far as index `k` in direction `d`, the
/// slides of that direction are all in the zone before `k`.
pub proof fn lemma_slide_skip(p: Position, field: Field, d: int, k: int, list: Seq<Move>)
    requires
        0 <= d < 4,
        king_steps_exact(p, field, d, k, list),
        forall|j1: int| j1 >= k ==> !#[trigger] king_step_at(p, field, d, j1),
    ensures
        king_steps_exact(p, field, d + 1, 0, list),
        king_steps_exact(p, field, d, k + 1, list),
{
    assert forall|x: Move|
        slide_among(p, field, d, k, x.spec_to()) <==> #[trigger] slide_among(
            p,
            field,
            d + 1,
            0,
            x.spec_to(),
        ) by {
        if slide_among(p, field, d, k, x.spec_to()) {
            let (d1, j1) = choose|d1: int, j1: int|
                in_zone(d1, j1, d, k) && #[trigger] king_step_at(p, field, d1, j1) && spec_path(
                    field,
                    d1,
                )[j1] == x.spec_to();
            assert(in_zone(d1, j1, d + 1, 0));
        }
        if slide_among(p, field, d + 1, 0, x.spec_to()) {
            let (d1, j1) = choose|d1: int, j1: int|
                in_zone(d1, j1, d + 1, 0) && #[trigger] king_step_at(p, field, d1, j1)
                    && spec_path(field, d1)[j1] == x.spec_to();
            assert(in_zone(d1, j1, d, k));
        }
    }
    assert forall|x: Move|
        slide_among(p, field, d, k, x.spec_to()) <==> #[trigger] slide_among(
            p,
            field,
            d,
            k + 1,
            x.spec_to(),
        ) by {
        if slide_among(p, field, d, k, x.spec_to()) {
            let (d1, j1) = choose|d1: int, j1: int|
                in_zone(d1, j1, d, k) && #[trigger] king_step_at(p, field, d1, j1) && spec_path(
                    field,
                    d1,
                )[j1] == x.spec_to();
            assert(in_zone(d1, j1, d, k + 1));
        }
        if slide_among(p, field, d, k + 1, x.spec_to()) {
            let (d1, j1) = choose|d1: int, j1: int|
                in_zone(d1, j1, d, k + 1) && #[trigger] king_step_at(p, field, d1, j1)
                    && spec_path(field, d1)[j1] == x.spec_to();
            assert(in_zone(d1, j1, d, k));
        }
    }
    assert forall|x: Move| #[trigger]
        list.contains(x) <==> ((step(p, x) && x.spec_from() < field) || (is_shift(
            x,
            field,
            x.spec_to(),
        ) && slide_among(p, field, d + 1, 0, x.spec_to()))) by {}
    assert forall|x: Move| #[trigger]
        list.contains(x) <==> ((step(p, x) && x.spec_from() < field) || (is_shift(
            x,
            field,
            x.spec_to(),
        ) && slide_among(p, field, d, k + 1, x.spec_to()))) by {}
}


/// A list that is complete for the longer captures stays so when it grows.
pub proof fn lemma_beyond_grows(h: Hunt, s: Seq<Jump>, a: Seq<Move>, b: Seq<Move>)
    requires
        a.is_prefix_of(b),
        complete_beyond(h, s, a),
    ensures
        complete_beyond(h, s, b),
{
    assert forall|t: Seq<Jump>| #[trigger]
        terminal_extension(h, s, t) && t.len() > s.len() implies has_move(b, h.from, t) by {
        lemma_has_move_grows(a, b, h.from, t);
    }
}

/// The fields of a jump are fields of the board.
pub proof fn lemma_jump_fields(h: Hunt, cur: Field, over: Field, to: Field)
    requires
        cur < 50,
        jump(h, cur, over, to),
    ensures
        over < 50,
        to < 50,
{
    if h.king {
        let (d, i, j) = choose|d: int, i: int, j: int| #[trigger]
            king_jump_at(h.board, h.prey, cur, d, i, j) && spec_path(cur, d)[i] == over
                && spec_path(cur, d)[j] == to;
        lemma_path(cur, d);
        assert(spec_path(cur, d)[i] < 50);
        assert(spec_path(cur, d)[j] < 50);
    } else {
        let d = choose|d: int|
            0 <= d < 4 && #[trigger] man_jump_along(h.board, h.prey, spec_path(cur, d), over, to);
        lemma_path(cur, d);
        assert(spec_path(cur, d)[0] < 50);
        assert(spec_path(cur, d)[1] < 50);
    }
}

/// The fields of an allowed capture are fields of the board.
pub proof fn lemma_valid_fields(h: Hunt, s: Seq<Jump>)
    requires
        h.from < 50,
        valid(h, s),
    ensures
        landing(h.from, s) < 50,
        forall|x: Field| #[trigger] overs(s).contains(x) ==> x < 50,
    decreases s.len(),
{
    if s.len() > 0 {
        let init = s.drop_last();
        lemma_valid_fields(h, init);
        lemma_jump_fields(h, landing(h.from, init), s.last().0, s.last().1);
        assert(s =~= init.push(s.last()));
        lemma_overs_push(init, s.last());
    } else {
        assert forall|x: Field| #[trigger] overs(s).contains(x) implies x < 50 by {}
    }
}

/// A legal move goes from a field of the board to a field of the board and
/// captures on fields of the board.
pub proof fn lemma_legal_fields(p: Position, mv: Move)
    requires
        legal(p, mv),
    ensures
        mv.wf(),
        mv.spec_from() < 50,
        mv.spec_to() < 50,
        forall|x: Field| #[trigger] mv.captured().contains(x) ==> x < 50,
{
    let from = mv.spec_from();
    if max_capture(p) > 0 {
        let t = choose|t: Seq<Jump>| #[trigger]
            capture_seq(p, from, t) && t.len() == max_capture(p) && move_is(mv, from, t);
        lemma_valid_fields(hunt_of(p, from), t);
    } else {
        mv.lemma_wf();
        assert(mv.captured().len() == 0);
        if is_king(p.spec_piece_at(from)) {
            let (d, j) = choose|d: int, j: int| #[trigger]
                king_step_at(p, from, d, j) && spec_path(from, d)[j] == mv.spec_to();
            lemma_path(from, d);
            assert(spec_path(from, d)[j] < 50);
        } else {
            let side = p.spec_side_to_move();
            let d = choose|d: int|
                forward(side) <= d < forward(side) + 2 && (#[trigger] spec_path(from, d)).len() > 0
                    && spec_path(from, d)[0] == mv.spec_to() && p.spec_piece_at(mv.spec_to())
                    == EMPTY;
            lemma_path(from, d);
            assert(spec_path(from, d)[0] < 50);
        }
    }
}

/// The move generator; it holds the tables of the board's geometry.
pub struct Generator {
    steps: Steps,
}

impl Generator {
    /// The invariant of the generator: its tables are those of the board.
    pub closed spec fn wf(&self) -> bool {
        self.steps.wf()
    }

    /// The generator, with its tables filled.
    pub fn create() -> (result: Generator)
        ensures
            result.wf(),
    {
        Generator { steps: Steps::create() }
    }

    /// Whether `list` holds `mv`.
    fn holds(list: &Vec<Move>, mv: &Move) -> (result: bool)
        ensures
            result == list@.contains(*mv),
    {
        let mut i: usize = 0;
        while i < list.len()
            invariant
                i <= list@.len(),
                forall|k: int| 0 <= k < i ==> list@[k] != *mv,
            decreases list@.len() - i,
        {
            if list[i] == *mv {
                return true;
            }
            i += 1;
        }
        false
    }

    /// Keeps of `list` the moves that take the greatest number of pieces,
    /// each once; a list without captures stays as it is.
    fn trim_list(list: &mut Vec<Move>)
        ensures
            max_taken(old(list)@) == 0 ==> final(list)@ == old(list)@,
            max_taken(old(list)@) > 0 ==> final(list)@.no_duplicates(),
            max_taken(old(list)@) > 0 ==> forall|mv: Move| #[trigger]
                final(list)@.contains(mv) <==> (old(list)@.contains(mv) && mv.spec_num_taken()
                    == max_taken(old(list)@)),
    {
        let mut num_taken: u8 = 0;
        let mut i: usize = 0;
        while i < list.len()
            invariant
                i <= list@.len(),
                list@ == old(list)@,
                num_taken == max_taken(list@.subrange(0, i as int)),
            decreases list@.len() - i,
        {
            proof {
                assert(list@.subrange(0, i + 1).drop_last() =~= list@.subrange(0, i as int));
            }
            if list[i].num_taken() > num_taken {
                num_taken = list[i].num_taken();
            }
            i += 1;
        }
        assert(list@.subrange(0, i as int) =~= list@);
        if num_taken == 0 {
            return ;
        }
        let mut kept: Vec<Move> = Vec::new();
        let mut i: usize = 0;
        while i < list.len()
            invariant
                i <= list@.len(),
                list@ == old(list)@,
                kept@.no_duplicates(),
                forall|mv: Move| #[trigger]
                    kept@.contains(mv) <==> (list@.subrange(0, i as int).contains(mv)
                        && mv.spec_num_taken() == num_taken),
            decreases list@.len() - i,
        {
            let mv = list[i];
            let ghost before = kept@;
            let ghost s0 = list@.subrange(0, i as int);
            let ghost s1 = list@.subrange(0, i + 1);
            proof {
                assert(s1 =~= s0.push(mv));
                lemma_push_contains(s0, mv);
                lemma_push_contains(before, mv);
            }
            if mv.num_taken() == num_taken && !Self::holds(&kept, &mv) {
                kept.push(mv);
            }
            i += 1;
        }
        assert(list@.subrange(0, i as int) =~= list@);
        *list = kept;
    }

    /// Prolongs the capture `mv` of a man by every jump that the board
    /// allows, and adds to `list` the moves of the captures that cannot be
    /// prolonged.
    fn explode_jump(
        &self,
        position: &Position,
        mv: Move,
        color_to_capture: &Color,
        list: &mut Vec<Move>,
        Ghost(h): Ghost<Hunt>,
        Ghost(s): Ghost<Seq<Jump>>,
    )
        requires
            self.wf(),
            h.board == position.board(),
            h.prey == *color_to_capture,
            !h.king,
            1 <= s.len() <= 12,
            valid(h, s),
            move_is(mv, h.from, s),
            mv.spec_to() < 50,
        ensures
            grown(old(list)@, final(list)@),
            forall|i: int|
                old(list)@.len() <= i < final(list)@.len() ==> sound_move(
                    h,
                    s,
                    #[trigger] final(list)@[i],
                ),
            complete(h, s, final(list)@),
        decreases 12 - s.len(),
    {
        let ghost start = list@;
        let ghost cur = mv.spec_to();
        let mut exploded = false;
        let ghost mut wit: Jump = (0, 0);
        if mv.num_taken() < 12 {
            let jumps = self.steps.short_jumps(mv.to());
            proof {
                lemma_jumps_table(cur, 4);
            }
            let mut n: usize = 0;
            while n < jumps.len()
                invariant
                    n <= jumps@.len(),
                    jumps@ == spec_short_jumps(cur),
                    forall|idx: int|
                        0 <= idx < jumps@.len() ==> (#[trigger] jumps@[idx]).0 < 50
                            && jumps@[idx].1 < 50,
                    self.wf(),
                    h.board == position.board(),
                    h.prey == *color_to_capture,
                    !h.king,
                    1 <= s.len() < 12,
                    valid(h, s),
                    move_is(mv, h.from, s),
                    cur == mv.spec_to(),
                    cur < 50,
                    start.is_prefix_of(list@),
                    exploded ==> list@.len() > start.len(),
                    !exploded ==> list@ == start,
                    exploded ==> next_jump(h, s, wit.0, wit.1),
                    !exploded ==> forall|idx: int|
                        0 <= idx < n ==> !man_enabled(h, s, #[trigger] jumps@[idx]),
                    forall|i: int|
                        start.len() <= i < list@.len() ==> sound_move(h, s, #[trigger] list@[i]),
                    forall|idx: int|
                        0 <= idx < n && man_enabled(h, s, #[trigger] jumps@[idx]) ==> complete(
                            h,
                            s.push(jumps@[idx]),
                            list@,
                        ),
                decreases jumps@.len() - n,
            {
                let (over, to) = jumps[n];
                let ghost j: Jump = (over, to);
                assert(jumps@[n as int] == j);
                if piece_is(position.piece_at(over), color_to_capture) && position.is_empty(to)
                    && !mv.goes_via(over) {
                    proof {
                        assert(man_enabled(h, s, jumps@[n as int]));
                        lemma_man_enabled(h, s, cur, n as int);
                    }
                    let next = mv.take_more(over, to);
                    proof {
                        lemma_move_push(mv, next, h.from, s, over, to);
                    }
                    let ghost before = list@;
                    self.explode_jump(
                        position,
                        next,
                        color_to_capture,
                        list,
                        Ghost(h),
                        Ghost(s.push(j)),
                    );
                    proof {
                        assert forall|i: int| start.len() <= i < list@.len() implies sound_move(
                            h,
                            s,
                            #[trigger] list@[i],
                        ) by {
                            if i < before.len() {
                                assert(list@[i] == before[i]);
                            } else {
                                lemma_sound_shorter(h, s, j, list@[i]);
                            }
                        }
                        assert forall|idx: int|
                            0 <= idx < n + 1 && man_enabled(
                                h,
                                s,
                                #[trigger] jumps@[idx],
                            ) implies complete(h, s.push(jumps@[idx]), list@) by {
                            if idx < n {
                                lemma_complete_grows(h, s.push(jumps@[idx]), before, list@);
                            }
                        }
                        wit = j;
                    }
                    exploded = true;
                }
                n += 1;
            }
            proof {
                lemma_man_jumps_done(h, s, list@, cur);
                lemma_complete_beyond(h, s, list@);
            }
        } else {
            proof {
                assert forall|t: Seq<Jump>| #[trigger]
                    terminal_extension(h, s, t) && t.len() > s.len() implies has_move(
                    list@,
                    h.from,
                    t,
                ) by {}
            }
        }
        if !exploded {
            proof {
                lemma_push_contains(list@, mv);
                lemma_beyond_grows(h, s, list@, list@.push(mv));
            }
            list.push(mv);
            proof {
                assert(list@[start.len() as int] == mv);
                assert(s.is_prefix_of(s));
                assert(extension(h, s, s));
            }
        }
        proof {
            lemma_complete(h, s, list@);
        }
    }

    /// Adds to `list` the moves of the captures of the man on `field` that
    /// cannot be prolonged, and tells whether it has a capture.
    fn add_short_jumps(
        &self,
        position: &Position,
        field: Field,
        list: &mut Vec<Move>,
        color_to_capture: &Color,
    ) -> (captures: bool)
        requires
            self.wf(),
            field < 50,
            spec_color(position.spec_piece_at(field)) == Some(position.spec_side_to_move()),
            !is_king(position.spec_piece_at(field)),
            *color_to_capture == position.spec_side_to_move().opponent(),
            all_sound(*position, old(list)@),
        ensures
            old(list)@.is_prefix_of(final(list)@),
            all_sound(*position, final(list)@),
            field_complete(*position, field, final(list)@),
            captures == captures_from(*position, field),
            !captures ==> final(list)@ == old(list)@,
    {
        let ghost p = *position;
        let ghost h = hunt_of(p, field);
        let ghost e = Seq::<Jump>::empty();
        let ghost start = list@;
        let without_man = position.put_piece(field, EMPTY);
        proof {
            lemma_lifted(p, field, without_man);
            lemma_jumps_table(field, 4);
        }
        let jumps = self.steps.short_jumps(field);
        let mut captures = false;
        let ghost mut wit: Jump = (0, 0);
        let mut n: usize = 0;
        while n < jumps.len()
            invariant
                n <= jumps@.len(),
                jumps@ == spec_short_jumps(field),
                forall|idx: int|
                    0 <= idx < jumps@.len() ==> (#[trigger] jumps@[idx]).0 < 50 && jumps@[idx].1
                        < 50,
                self.wf(),
                field < 50,
                p == *position,
                h == hunt_of(p, field),
                e == Seq::<Jump>::empty(),
                without_man.board() == h.board,
                *color_to_capture == h.prey,
                !h.king,
                spec_color(p.spec_piece_at(field)) == Some(p.spec_side_to_move()),
                start.is_prefix_of(list@),
                all_sound(p, list@),
                !captures ==> list@ == start,
                captures ==> next_jump(h, e, wit.0, wit.1),
                !captures ==> forall|idx: int|
                    0 <= idx < n ==> !man_enabled(h, e, #[trigger] jumps@[idx]),
                forall|idx: int|
                    0 <= idx < n && man_enabled(h, e, #[trigger] jumps@[idx]) ==> complete(
                        h,
                        e.push(jumps@[idx]),
                        list@,
                    ),
            decreases jumps@.len() - n,
        {
            let (over, to) = jumps[n];
            let ghost j: Jump = (over, to);
            assert(jumps@[n as int] == j);
            proof {
                assert(overs(e) =~= Seq::<Field>::empty());
            }
            if without_man.is_empty(to) && piece_is(without_man.piece_at(over), color_to_capture) {
                proof {
                    assert(man_enabled(h, e, jumps@[n as int]));
                    lemma_man_enabled(h, e, field, n as int);
                }
                let first = Move::take_one(field, to, over);
                proof {
                    lemma_move_first(first, field, over, to);
                }
                let ghost before = list@;
                self.explode_jump(
                    &without_man,
                    first,
                    color_to_capture,
                    list,
                    Ghost(h),
                    Ghost(e.push(j)),
                );
                proof {
                    assert forall|i: int| 0 <= i < list@.len() implies sound_entry(
                        p,
                        #[trigger] list@[i],
                    ) by {
                        if i < before.len() {
                            assert(list@[i] == before[i]);
                        } else {
                            lemma_sound_capture(p, h, e.push(j), list@[i]);
                        }
                    }
                    assert forall|idx: int|
                        0 <= idx < n + 1 && man_enabled(
                            h,
                            e,
                            #[trigger] jumps@[idx],
                        ) implies complete(h, e.push(jumps@[idx]), list@) by {
                        if idx < n {
                            lemma_complete_grows(h, e.push(jumps@[idx]), before, list@);
                        }
                    }
                    wit = j;
                }
                captures = true;
            }
            n += 1;
        }
        proof {
            lemma_man_jumps_done(h, e, list@, field);
            lemma_field_complete(p, field, list@);
            if captures {
                let s1 = e.push(wit);
                lemma_overs_push(e, wit);
                assert(valid(h, e));
                assert(s1.last() == wit);
                assert(valid(h, s1));
                assert(capture_seq(p, field, s1));
            } else {
                assert forall|s: Seq<Jump>| !#[trigger] capture_seq(p, field, s) by {
                    if capture_seq(p, field, s) {
                        assert(e.is_prefix_of(s));
                        lemma_valid_next(h, e, s);
                    }
                }
            }
        }
        captures
    }

    /// Prolongs the capture `mv` of a king by every jump that the board
    /// allows, and adds to `moves` the moves of the captures that cannot be
    /// prolonged.
    fn explode_long_jump(
        &self,
        position: &Position,
        mv: Move,
        color_to_capture: &Color,
        moves: &mut Vec<Move>,
        Ghost(h): Ghost<Hunt>,
        Ghost(s): Ghost<Seq<Jump>>,
    )
        requires
            self.wf(),
            h.board == position.board(),
            h.prey == *color_to_capture,
            h.king,
            1 <= s.len() <= 12,
            valid(h, s),
            move_is(mv, h.from, s),
            mv.spec_to() < 50,
        ensures
            grown(old(moves)@, final(moves)@),
            forall|i: int|
                old(moves)@.len() <= i < final(moves)@.len() ==> sound_move(
                    h,
                    s,
                    #[trigger] final(moves)@[i],
                ),
            complete(h, s, final(moves)@),
        decreases 12 - s.len(),
    {
        let ghost start = moves@;
        let ghost cur = mv.spec_to();
        let mut exploded = false;
        let ghost mut wit: Jump = (0, 0);
        if mv.num_taken() < 12 {
            let paths = self.steps.paths(mv.to());
            let mut d: usize = 0;
            while d < 4
                invariant
                    d <= 4,
                    paths@.len() == 4,
                    forall|e: int| 0 <= e < 4 ==> (#[trigger] paths@[e])@ == spec_path(cur, e),
                    self.wf(),
                    h.board == position.board(),
                    h.prey == *color_to_capture,
                    h.king,
                    1 <= s.len() < 12,
                    valid(h, s),
                    move_is(mv, h.from, s),
                    cur == mv.spec_to(),
                    cur < 50,
                    start.is_prefix_of(moves@),
                    exploded ==> moves@.len() > start.len(),
                    !exploded ==> moves@ == start,
                    exploded ==> next_jump(h, s, wit.0, wit.1),
                    !exploded ==> king_zone_idle(h, s, cur, d as int, 0),
                    king_zone_complete(h, s, moves@, cur, d as int, 0),
                    forall|i: int|
                        start.len() <= i < moves@.len() ==> sound_move(h, s, #[trigger] moves@[i]),
                decreases 4 - d,
            {
                let path = &paths[d];
                let len = path.len();
                proof {
                    lemma_path(cur, d as int);
                }
                let mut over: Option<Field> = None;
                let ghost mut gi: int = 0;
                let mut blocked = false;
                let mut k: usize = 0;
                while k < len && !blocked
                    invariant
                        d < 4,
                        k <= len,
                        len == path@.len(),
                        path@ == spec_path(cur, d as int),
                        forall|m: int| 0 <= m < len ==> #[trigger] path@[m] < 50,
                        self.wf(),
                        h.board == position.board(),
                        h.prey == *color_to_capture,
                        h.king,
                        1 <= s.len() < 12,
                        valid(h, s),
                        move_is(mv, h.from, s),
                        cur == mv.spec_to(),
                        cur < 50,
                        !blocked ==> match over {
                            None => scan_clear(h.board, path@, k as int),
                            Some(v) => scan_over(h.board, h.prey, path@, gi, k as int)
                                && path@[gi] == v && !overs(s).contains(v),
                        },
                        start.is_prefix_of(moves@),
                        exploded ==> moves@.len() > start.len(),
                        !exploded ==> moves@ == start,
                        exploded ==> next_jump(h, s, wit.0, wit.1),
                        !exploded && !blocked ==> king_zone_idle(h, s, cur, d as int, k as int),
                        !exploded && blocked ==> king_zone_idle(h, s, cur, d + 1, 0),
                        !blocked ==> king_zone_complete(h, s, moves@, cur, d as int, k as int),
                        blocked ==> king_zone_complete(h, s, moves@, cur, d + 1, 0),
                        forall|i: int|
                            start.len() <= i < moves@.len() ==> sound_move(
                                h,
                                s,
                                #[trigger] moves@[i],
                            ),
                    decreases len - k + (if blocked {
                        0int
                    } else {
                        1int
                    }),
                {
                    let to = path[k];
                    proof {
                        position.lemma_piece_range(to);
                        assert(h.board[to as int] == position.spec_piece_at(to));
                        assert(path@[k as int] == to);
                    }
                    let own = piece_own(position.piece_at(to), color_to_capture);
                    match own {
                        Some(is_prey) => {
                            if is_prey && over.is_none() && !mv.goes_via(to) {
                                proof {
                                    assert forall|i1: int| #[trigger]
                                        king_jump_at(
                                            h.board,
                                            h.prey,
                                            cur,
                                            d as int,
                                            i1,
                                            k as int,
                                        ) implies overs(s).contains(spec_path(cur, d as int)[i1]) by {
                                        assert(h.board[path@[k as int] as int] == EMPTY);
                                    }
                                    lemma_zone_advance(h, s, moves@, cur, d as int, k as int);
                                    if !exploded {
                                        lemma_idle_advance(h, s, cur, d as int, k as int);
                                    }
                                    gi = k as int;
                                }
                                over = Some(to);
                                k += 1;
                            } else {
                                proof {
                                    assert forall|i1: int, j1: int|
                                        j1 >= k && #[trigger] king_jump_at(
                                            h.board,
                                            h.prey,
                                            cur,
                                            d as int,
                                            i1,
                                            j1,
                                        ) implies overs(s).contains(spec_path(cur, d as int)[i1]) by {
                                        Self::lemma_scan_blocked(
                                            h.board,
                                            h.prey,
                                            path@,
                                            over,
                                            gi,
                                            k as int,
                                            i1,
                                            j1,
                                        );
                                    }
                                    lemma_zone_skip(h, s, moves@, cur, d as int, k as int);
                                    if !exploded {
                                        lemma_idle_skip(h, s, cur, d as int, k as int);
                                    }
                                }
                                blocked = true;
                            }
                        },
                        None => {
                            match over {
                                Some(v) => {
                                    let ghost j: Jump = (v, to);
                                    proof {
                                        assert(king_jump_at(
                                            h.board,
                                            h.prey,
                                            cur,
                                            d as int,
                                            gi,
                                            k as int,
                                        ));
                                        assert(next_jump(h, s, v, to));
                                        lemma_overs_push(s, j);
                                        assert(valid(h, s.push(j)));
                                    }
                                    let next = mv.take_more(v, to);
                                    proof {
                                        lemma_move_push(mv, next, h.from, s, v, to);
                                    }
                                    let ghost before = moves@;
                                    self.explode_long_jump(
                                        position,
                                        next,
                                        color_to_capture,
                                        moves,
                                        Ghost(h),
                                        Ghost(s.push(j)),
                                    );
                                    proof {
                                        assert forall|i: int|
                                            start.len() <= i < moves@.len() implies sound_move(
                                            h,
                                            s,
                                            #[trigger] moves@[i],
                                        ) by {
                                            if i < before.len() {
                                                assert(moves@[i] == before[i]);
                                            } else {
                                                lemma_sound_shorter(h, s, j, moves@[i]);
                                            }
                                        }
                                        lemma_zone_grows(
                                            h,
                                            s,
                                            before,
                                            moves@,
                                            cur,
                                            d as int,
                                            k as int,
                                        );
                                        assert forall|i1: int| #[trigger]
                                            king_jump_at(
                                                h.board,
                                                h.prey,
                                                cur,
                                                d as int,
                                                i1,
                                                k as int,
                                            ) implies i1 == gi by {
                                            Self::lemma_scan_first(
                                                h.board,
                                                h.prey,
                                                path@,
                                                gi,
                                                k as int,
                                                i1,
                                                k as int,
                                            );
                                        }
                                        lemma_zone_advance(h, s, moves@, cur, d as int, k as int);
                                        wit = j;
                                    }
                                    exploded = true;
                                },
                                None => {
                                    proof {
                                        assert forall|i1: int| #[trigger]
                                            king_jump_at(
                                                h.board,
                                                h.prey,
                                                cur,
                                                d as int,
                                                i1,
                                                k as int,
                                            ) implies overs(s).contains(
                                            spec_path(cur, d as int)[i1],
                                        ) by {
                                            assert(h.board[path@[i1] as int] == EMPTY);
                                        }
                                        lemma_zone_advance(h, s, moves@, cur, d as int, k as int);
                                        if !exploded {
                                            lemma_idle_advance(h, s, cur, d as int, k as int);
                                        }
                                    }
                                },
                            }
                            k += 1;
                        },
                    }
                }
                proof {
                    if !blocked {
                        lemma_zone_skip(h, s, moves@, cur, d as int, k as int);
                        if !exploded {
                            lemma_idle_skip(h, s, cur, d as int, k as int);
                        }
                    }
                }
                d += 1;
            }
            proof {
                lemma_king_jumps_done(h, s, moves@, cur);
                lemma_complete_beyond(h, s, moves@);
            }
        } else {
            proof {
                assert forall|t: Seq<Jump>| #[trigger]
                    terminal_extension(h, s, t) && t.len() > s.len() implies has_move(
                    moves@,
                    h.from,
                    t,
                ) by {}
            }
        }
        if !exploded {
            proof {
                lemma_push_contains(moves@, mv);
                lemma_beyond_grows(h, s, moves@, moves@.push(mv));
            }
            moves.push(mv);
            proof {
                assert(moves@[start.len() as int] == mv);
                assert(s.is_prefix_of(s));
                assert(extension(h, s, s));
            }
        }
        proof {
            lemma_complete(h, s, moves@);
        }
    }

    /// Adds to `list` the moves of the captures of the king on `field` that
    /// cannot be prolonged and, as long as no capture was found, its
    /// slides; sets `captures` once the king has a capture.
    fn add_king_moves(
        &self,
        position: &Position,
        field: Field,
        list: &mut Vec<Move>,
        captures: &mut bool,
        color_to_capture: &Color,
    )
        requires
            self.wf(),
            field < 50,
            spec_color(position.spec_piece_at(field)) == Some(position.spec_side_to_move()),
            is_king(position.spec_piece_at(field)),
            *color_to_capture == position.spec_side_to_move().opponent(),
            all_sound(*position, old(list)@),
            !*old(captures) ==> steps_exact(*position, field as int, old(list)@),
        ensures
            old(list)@.is_prefix_of(final(list)@),
            all_sound(*position, final(list)@),
            field_complete(*position, field, final(list)@),
            *final(captures) == (*old(captures) || captures_from(*position, field)),
            !*final(captures) ==> steps_exact(*position, field + 1, final(list)@),
    {
        let ghost p = *position;
        let ghost h = hunt_of(p, field);
        let ghost e = Seq::<Jump>::empty();
        let ghost start = list@;
        let ghost c0 = *captures;
        let without_king = position.put_piece(field, EMPTY);
        proof {
            lemma_lifted(p, field, without_king);
            lemma_king_steps_bounds(p, field, list@);
            assert(overs(e) =~= Seq::<Field>::empty());
        }
        let paths = self.steps.paths(field);
        let ghost mut found = false;
        let ghost mut wit: Jump = (0, 0);
        let mut d: usize = 0;
        while d < 4
            invariant
                d <= 4,
                paths@.len() == 4,
                forall|x: int| 0 <= x < 4 ==> (#[trigger] paths@[x])@ == spec_path(field, x),
                self.wf(),
                field < 50,
                p == *position,
                h == hunt_of(p, field),
                e == Seq::<Jump>::empty(),
                overs(e) == Seq::<Field>::empty(),
                without_king.board() == h.board,
                *color_to_capture == h.prey,
                h.king,
                spec_color(p.spec_piece_at(field)) == Some(p.spec_side_to_move()),
                is_king(p.spec_piece_at(field)),
                *captures == (c0 || found),
                found ==> next_jump(h, e, wit.0, wit.1),
                !found ==> king_zone_idle(h, e, field, d as int, 0),
                king_zone_complete(h, e, list@, field, d as int, 0),
                start.is_prefix_of(list@),
                all_sound(p, list@),
                !*captures ==> king_steps_exact(p, field, d as int, 0, list@),
            decreases 4 - d,
        {
            let path = &paths[d];
            let len = path.len();
            proof {
                lemma_path(field, d as int);
            }
            let mut over: Option<Field> = None;
            let ghost mut gi: int = 0;
            let mut blocked = false;
            let mut k: usize = 0;
            while k < len && !blocked
                invariant
                    d < 4,
                    k <= len,
                    len == path@.len(),
                    path@ == spec_path(field, d as int),
                    forall|m: int| 0 <= m < len ==> #[trigger] path@[m] < 50 && path@[m] != field,
                    self.wf(),
                    field < 50,
                    p == *position,
                    h == hunt_of(p, field),
                    e == Seq::<Jump>::empty(),
                    overs(e) == Seq::<Field>::empty(),
                    without_king.board() == h.board,
                    *color_to_capture == h.prey,
                    h.king,
                    spec_color(p.spec_piece_at(field)) == Some(p.spec_side_to_move()),
                    is_king(p.spec_piece_at(field)),
                    !blocked ==> match over {
                        None => scan_clear(h.board, path@, k as int),
                        Some(v) => scan_over(h.board, h.prey, path@, gi, k as int) && path@[gi] == v,
                    },
                    *captures == (c0 || found),
                    found ==> next_jump(h, e, wit.0, wit.1),
                    !found && !blocked ==> king_zone_idle(h, e, field, d as int, k as int),
                    !found && blocked ==> king_zone_idle(h, e, field, d + 1, 0),
                    !blocked ==> king_zone_complete(h, e, list@, field, d as int, k as int),
                    blocked ==> king_zone_complete(h, e, list@, field, d + 1, 0),
                    start.is_prefix_of(list@),
                    all_sound(p, list@),
                    !*captures && !blocked ==> king_steps_exact(
                        p,
                        field,
                        d as int,
                        k as int,
                        list@,
                    ),
                    !*captures && blocked ==> king_steps_exact(p, field, d + 1, 0, list@),
                decreases len - k + (if blocked {
                    0int
                } else {
                    1int
                }),
            {
                let to = path[k];
                proof {
                    position.lemma_piece_range(to);
                    assert(path@[k as int] == to);
                    assert(h.board[to as int] == p.spec_piece_at(to));
                }
                let own = piece_own(position.piece_at(to), color_to_capture);
                match own {
                    Some(is_prey) => {
                        proof {
                            if !*captures {
                                assert forall|j1: int| j1 >= k implies !#[trigger] king_step_at(
                                    p,
                                    field,
                                    d as int,
                                    j1,
                                ) by {
                                    if king_step_at(p, field, d as int, j1) {
                                        assert(p.spec_piece_at(spec_path(field, d as int)[k as int])
                                            == EMPTY);
                                    }
                                }
                                lemma_slide_skip(p, field, d as int, k as int, list@);
                            }
                        }
                        if is_prey && over.is_none() {
                            proof {
                                assert forall|i1: int| #[trigger]
                                    king_jump_at(
                                        h.board,
                                        h.prey,
                                        field,
                                        d as int,
                                        i1,
                                        k as int,
                                    ) implies overs(e).contains(spec_path(field, d as int)[i1]) by {
                                    assert(h.board[path@[k as int] as int] == EMPTY);
                                }
                                lemma_zone_advance(h, e, list@, field, d as int, k as int);
                                if !found {
                                    lemma_idle_advance(h, e, field, d as int, k as int);
                                }
                                gi = k as int;
                            }
                            over = Some(to);
                            k += 1;
                        } else {
                            proof {
                                assert forall|i1: int, j1: int|
                                    j1 >= k && #[trigger] king_jump_at(
                                        h.board,
                                        h.prey,
                                        field,
                                        d as int,
                                        i1,
                                        j1,
                                    ) implies overs(e).contains(spec_path(field, d as int)[i1]) by {
                                    Self::lemma_scan_blocked(
                                        h.board,
                                        h.prey,
                                        path@,
                                        over,
                                        gi,
                                        k as int,
                                        i1,
                                        j1,
                                    );
                                }
                                lemma_zone_skip(h, e, list@, field, d as int, k as int);
                                if !found {
                                    lemma_idle_skip(h, e, field, d as int, k as int);
                                }
                            }
                            blocked = true;
                        }
                    },
                    None => {
                        match over {
                            Some(v) => {
                                let ghost j: Jump = (v, to);
                                proof {
                                    assert(king_jump_at(
                                        h.board,
                                        h.prey,
                                        field,
                                        d as int,
                                        gi,
                                        k as int,
                                    ));
                                    assert(next_jump(h, e, v, to));
                                    lemma_overs_push(e, j);
                                    assert(valid(h, e));
                                    assert(valid(h, e.push(j)));
                                }
                                let first = Move::take_one(field, to, v);
                                proof {
                                    lemma_move_first(first, field, v, to);
                                }
                                let ghost before = list@;
                                self.explode_long_jump(
                                    &without_king,
                                    first,
                                    color_to_capture,
                                    list,
                                    Ghost(h),
                                    Ghost(e.push(j)),
                                );
                                proof {
                                    assert forall|i: int| 0 <= i < list@.len() implies sound_entry(
                                        p,
                                        #[trigger] list@[i],
                                    ) by {
                                        if i < before.len() {
                                            assert(list@[i] == before[i]);
                                        } else {
                                            lemma_sound_capture(p, h, e.push(j), list@[i]);
                                        }
                                    }
                                    lemma_zone_grows(
                                        h,
                                        e,
                                        before,
                                        list@,
                                        field,
                                        d as int,
                                        k as int,
                                    );
                                    assert forall|i1: int| #[trigger]
                                        king_jump_at(
                                            h.board,
                                            h.prey,
                                            field,
                                            d as int,
                                            i1,
                                            k as int,
                                        ) implies i1 == gi by {
                                        Self::lemma_scan_first(
                                            h.board,
                                            h.prey,
                                            path@,
                                            gi,
                                            k as int,
                                            i1,
                                            k as int,
                                        );
                                    }
                                    lemma_zone_advance(h, e, list@, field, d as int, k as int);
                                    wit = j;
                                    found = true;
                                }
                                *captures = true;
                            },
                            None => {
                                let ghost before = list@;
                                if !*captures {
                                    let mv = Move::shift(field, to);
                                    proof {
                                        assert(king_step_at(p, field, d as int, k as int)) by {
                                            assert forall|m: int| 0 <= m <= k implies p.spec_piece_at(
                                                #[trigger] spec_path(field, d as int)[m],
                                            ) == EMPTY by {
                                                assert(h.board[path@[m] as int] == EMPTY);
                                                assert(path@[m] != field);
                                            }
                                        }
                                        lemma_slide_push(p, field, d as int, k as int, before, mv);
                                        lemma_push_contains(before, mv);
                                        assert(king_step(p, field, to));
                                        assert(step(p, mv));
                                    }
                                    list.push(mv);
                                    proof {
                                        assert forall|i: int|
                                            0 <= i < list@.len() implies sound_entry(
                                            p,
                                            #[trigger] list@[i],
                                        ) by {
                                            if i < before.len() {
                                                assert(list@[i] == before[i]);
                                            }
                                        }
                                        lemma_zone_grows(
                                            h,
                                            e,
                                            before,
                                            list@,
                                            field,
                                            d as int,
                                            k as int,
                                        );
                                    }
                                }
                                proof {
                                    assert forall|i1: int| #[trigger]
                                        king_jump_at(
                                            h.board,
                                            h.prey,
                                            field,
                                            d as int,
                                            i1,
                                            k as int,
                                        ) implies overs(e).contains(
                                        spec_path(field, d as int)[i1],
                                    ) by {
                                        assert(h.board[path@[i1] as int] == EMPTY);
                                    }
                                    lemma_zone_advance(h, e, list@, field, d as int, k as int);
                                    if !found {
                                        lemma_idle_advance(h, e, field, d as int, k as int);
                                    }
                                }
                            },
                        }
                        k += 1;
                    },
                }
            }
            proof {
                if !blocked {
                    lemma_zone_skip(h, e, list@, field, d as int, k as int);
                    if !found {
                        lemma_idle_skip(h, e, field, d as int, k as int);
                    }
                    if !*captures {
                        lemma_slide_skip(p, field, d as int, k as int, list@);
                    }
                }
            }
            d += 1;
        }
        proof {
            lemma_king_jumps_done(h, e, list@, field);
            lemma_field_complete(p, field, list@);
            lemma_king_steps_bounds(p, field, list@);
            if found {
                let s1 = e.push(wit);
                lemma_overs_push(e, wit);
                assert(valid(h, e));
                assert(s1.last() == wit);
                assert(valid(h, s1));
                assert(capture_seq(p, field, s1));
            } else {
                assert forall|s: Seq<Jump>| !#[trigger] capture_seq(p, field, s) by {
                    if capture_seq(p, field, s) {
                        assert(e.is_prefix_of(s));
                        lemma_valid_next(h, e, s);
                    }
                }
            }
        }
    }

    /// Fills the empty `list` with the legal moves of `position`.
    fn generate(&self, position: &Position, list: &mut Vec<Move>)
        requires
            self.wf(),
            old(list)@.len() == 0,
        ensures
            is_legal_list(*position, final(list)@),
    {
        let ghost p = *position;
        let mut captures = false;
        let white = position.side_to_move() == Color::White;
        let own_man = if white {
            WHITE_MAN
        } else {
            BLACK_MAN
        };
        let own_king = if white {
            WHITE_KING
        } else {
            BLACK_KING
        };
        let prey = if white {
            Color::Black
        } else {
            Color::White
        };
        let ghost lo = forward(p.spec_side_to_move());
        let mut field: usize = 0;
        while field < 50
            invariant
                field <= 50,
                self.wf(),
                p == *position,
                white == (p.spec_side_to_move() == Color::White),
                own_man == (if white {
                    WHITE_MAN
                } else {
                    BLACK_MAN
                }),
                own_king == (if white {
                    WHITE_KING
                } else {
                    BLACK_KING
                }),
                prey == p.spec_side_to_move().opponent(),
                lo == forward(p.spec_side_to_move()),
                all_sound(p, list@),
                captures_complete(p, field as int, list@),
                captures == captures_below(p, field as int),
                !captures ==> steps_exact(p, field as int, list@),
            decreases 50 - field,
        {
            let piece = position.piece_at(field);
            let ghost before = list@;
            proof {
                position.lemma_piece_range(field);
            }
            if piece == own_man {
                let found = self.add_short_jumps(position, field, list, &prey);
                if found {
                    captures = true;
                }
                let ghost jumped = list@;
                if !captures {
                    let steps = if white {
                        self.steps.white_steps(field)
                    } else {
                        self.steps.black_steps(field)
                    };
                    proof {
                        lemma_man_steps_bounds(p, field, list@);
                        lemma_steps_table(field, lo, lo + 2);
                    }
                    let mut n: usize = 0;
                    while n < steps.len()
                        invariant
                            n <= steps@.len(),
                            steps@ == spec_steps(field, lo, lo + 2),
                            forall|idx: int| 0 <= idx < steps@.len() ==> #[trigger] steps@[idx] < 50,
                            forall|idx: int|
                                0 <= idx < steps@.len() ==> step_listed(
                                    field,
                                    lo,
                                    lo + 2,
                                    #[trigger] steps@[idx],
                                ),
                            field < 50,
                            p == *position,
                            lo == forward(p.spec_side_to_move()),
                            piece == p.spec_piece_at(field),
                            spec_color(piece) == Some(p.spec_side_to_move()),
                            !is_king(piece),
                            jumped.is_prefix_of(list@),
                            all_sound(p, list@),
                            man_steps_exact(p, field, steps@, n as int, list@),
                        decreases steps@.len() - n,
                    {
                        let step = steps[n];
                        let mv = Move::shift(field, step);
                        let ghost l0 = list@;
                        proof {
                            lemma_man_step_push(p, field, lo, n as int, l0, mv);
                            lemma_push_contains(l0, mv);
                        }
                        if position.is_empty(step) {
                            list.push(mv);
                            proof {
                                assert(step_listed(field, lo, lo + 2, steps@[n as int]));
                                let d = choose|d: int| #[trigger]
                                    step_in(field, lo, lo + 2, d, steps@[n as int]);
                                assert(spec_path(field, d).len() > 0);
                                assert(man_step(p, p.spec_side_to_move(), field, step));
                                assert(super::rules::step(p, mv));
                                assert forall|i: int| 0 <= i < list@.len() implies sound_entry(
                                    p,
                                    #[trigger] list@[i],
                                ) by {
                                    if i < l0.len() {
                                        assert(list@[i] == l0[i]);
                                    }
                                }
                            }
                        }
                        n += 1;
                    }
                    proof {
                        lemma_man_steps_bounds(p, field, list@);
                    }
                }
                proof {
                    lemma_field_complete_grows(p, field as int, before, list@);
                    assert(field_complete(p, field, list@)) by {
                        assert forall|s: Seq<Jump>| #[trigger]
                            capture_seq(p, field, s) && terminal(
                                hunt_of(p, field),
                                s,
                            ) implies has_move(list@, field, s) by {
                            lemma_has_move_grows(jumped, list@, field, s);
                        }
                    }
                }
            } else if piece == own_king {
                self.add_king_moves(position, field, list, &mut captures, &prey);
                proof {
                    lemma_field_complete_grows(p, field as int, before, list@);
                }
            } else {
                proof {
                    lemma_no_piece(p, field, list@);
                    if !captures {
                        assert forall|mv: Move| #[trigger]
                            list@.contains(mv) <==> (super::rules::step(p, mv) && mv.spec_from()
                                < field + 1) by {}
                    }
                }
            }
            proof {
                Self::lemma_captures_below(p, field as int);
                assert forall|from: Field| from < field + 1 implies #[trigger] field_complete(
                    p,
                    from,
                    list@,
                ) by {}
            }
            field += 1;
        }
        let ghost all = list@;
        Self::trim_list(list);
        proof {
            lemma_trimmed_legal(p, all, list@, captures);
        }
    }

    /// A capture below `f + 1` is one below `f` or one from `f`.
    proof fn lemma_captures_below(p: Position, f: int)
        requires
            0 <= f < 50,
        ensures
            captures_below(p, f + 1) == (captures_below(p, f) || captures_from(p, f as Field)),
    {
        if captures_below(p, f + 1) {
            let from = choose|from: Field| from < f + 1 && #[trigger] captures_from(p, from);
            if from < f {
                assert(captures_below(p, f));
            }
        }
        if captures_below(p, f) {
            let from = choose|from: Field| from < f && #[trigger] captures_from(p, from);
            assert(from < f + 1);
        }
        if captures_from(p, f as Field) {
            assert((f as Field) < f + 1);
        }
    }

    /// The legal moves of `position`, each once, in no particular order:
    /// where the side to move can capture, the captures of the greatest
    /// number of pieces; where it cannot, the steps. The list is empty where
    /// the side to move has lost.
    pub fn legal_moves(&self, position: &Position) -> (list: Vec<Move>)
        requires
            self.wf(),
        ensures
            is_legal_list(*position, list@),
            forall|i: int|
                0 <= i < list@.len() ==> (#[trigger] list@[i]).spec_num_taken() == max_capture(
                    *position,
                ),
            forall|i: int|
                0 <= i < list@.len() ==> (#[trigger] list@[i]).wf() && list@[i].spec_from() < 50
                    && list@[i].spec_to() < 50,
    {
        let mut list: Vec<Move> = Vec::with_capacity(31);
        self.generate(position, &mut list);
        proof {
            assert forall|i: int| 0 <= i < list@.len() implies (#[trigger] list@[i]).spec_num_taken()
                == max_capture(*position) && list@[i].wf() && list@[i].spec_from() < 50
                && list@[i].spec_to() < 50 by {
                assert(list@.contains(list@[i]));
                super::rules::lemma_capture_maximality(*position, list@[i]);
                lemma_legal_fields(*position, list@[i]);
            }
        }
        list
    }

    /// As `legal_moves`, into a list that the caller owns.
    pub fn legal_moves2(&self, position: &Position, list: &mut Vec<Move>)
        requires
            self.wf(),
        ensures
            is_legal_list(*position, final(list)@),
            forall|i: int|
                0 <= i < final(list)@.len() ==> (#[trigger] final(list)@[i]).spec_num_taken()
                    == max_capture(*position),
            forall|i: int|
                0 <= i < final(list)@.len() ==> (#[trigger] final(list)@[i]).wf()
                    && final(list)@[i].spec_from() < 50 && final(list)@[i].spec_to() < 50,
    {
        list.clear();
        self.generate(position, list);
        proof {
            assert forall|i: int| 0 <= i < list@.len() implies (#[trigger] list@[i]).spec_num_taken()
                == max_capture(*position) && list@[i].wf() && list@[i].spec_from() < 50
                && list@[i].spec_to() < 50 by {
                assert(list@.contains(list@[i]));
                super::rules::lemma_capture_maximality(*position, list@[i]);
                lemma_legal_fields(*position, list@[i]);
            }
        }
    }

    /// The shortest notation that tells `mv` apart among the legal moves of
    /// `position`.
    pub fn to_short_string(&self, position: &Position, mv: &Move) -> (result: String)
        requires
            self.wf(),
            mv.wf(),
            mv.spec_from() < usize::MAX,
            mv.spec_to() < usize::MAX,
            forall|i: int| 0 <= i < mv.captured().len() ==> mv.captured()[i] < usize::MAX,
        ensures
            forall|all: Seq<Move>| #[trigger]
                is_legal_list(*position, all) ==> result@ == spec_short_string(all, *mv),
    {
        let all = self.legal_moves(position);
        proof {
            assert forall|other: Seq<Move>| #[trigger]
                is_legal_list(*position, other) implies spec_short_string(all@, *mv)
                == spec_short_string(other, *mv) by {
                super::rules::lemma_legal_moves_deterministic(*position, all@, other);
                lemma_short_string_same(all@, other, *mv);
            }
        }
        short_string(&all, mv)
    }

    /// On a path whose first piece before index `k` is the prey at index
    /// `gi`, every jump goes over that prey.
    proof fn lemma_scan_first(
        b: Seq<Piece>,
        prey: Color,
        path: Seq<Field>,
        gi: int,
        k: int,
        i1: int,
        j1: int,
    )
        requires
            scan_over(b, prey, path, gi, k),
            king_jump_along(b, prey, path, i1, j1),
        ensures
            i1 == gi,
    {
        if i1 < gi {
            assert(b[path[i1] as int] == EMPTY);
        }
        if i1 > gi {
            assert(b[path[gi] as int] == EMPTY);
        }
    }

    /// Where the square at index `k` of a path holds a piece over which no
    /// jump can go on, no jump lands at or behind it, but one over a prey
    /// that was captured before.
    proof fn lemma_scan_blocked(
        b: Seq<Piece>,
        prey: Color,
        path: Seq<Field>,
        over: Option<Field>,
        gi: int,
        k: int,
        i1: int,
        j1: int,
    )
        requires
            0 <= k < path.len(),
            b[path[k] as int] != EMPTY,
            match over {
                None => scan_clear(b, path, k),
                Some(v) => scan_over(b, prey, path, gi, k),
            },
            j1 >= k,
            king_jump_along(b, prey, path, i1, j1),
        ensures
            over is None && i1 == k && spec_color(b[path[k] as int]) == Some(prey),
    {
        match over {
            None => {
                if i1 < k {
                    assert(b[path[i1] as int] == EMPTY);
                }
                if i1 > k {
                    assert(b[path[k] as int] == EMPTY);
                }
            },
            Some(v) => {
                Self::lemma_scan_first(b, prey, path, gi, k, i1, j1);
                assert(b[path[k] as int] == EMPTY);
            },
        }
    }
}

} // verus!

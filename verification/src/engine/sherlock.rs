//! Sherlock: material, development, balance, the structure read from the
//! stars of the board, and a memory of what was searched; searched with
//! best-node search.

use super::{Deepening, Engine, EngineResult};
use super::scoring::{
    clamp_eval, div_toward_zero, dot, magnitude, to_eval, toward_zero, weigh, BALANCE, CENTER, ROW,
};
use super::table::{
    bumped, deep_enough, lemma_merged, merged, retained, taken_over, HashEval, SmallField, Table,
};
use crate::algorithm::alphabeta::{find_first, first_with};
use crate::algorithm::bns::{best_node_search, replies_taught};
use crate::algorithm::judge::{
    is_eval, same_judgement, Eval, Judge, Judgement, PositionMemory, MAX_EVAL, MIN_EVAL,
};
use crate::algorithm::logarithmic::LogarithmicScope;
use crate::algorithm::meta::Nodes;
use crate::algorithm::scope::Depth;
use crate::algorithm::search::SearchResult;
use crate::board::generator::Generator;
use crate::board::mv::Move;
use crate::board::piece::{Color, Piece, BLACK_KING, BLACK_MAN, WHITE_KING, WHITE_MAN};
use crate::board::position::{Field, Position};
use crate::board::rules::{is_legal_list, legal};
use crate::board::stars::{spec_stars, Stars};
use crate::board::stats::{Count, PositionStats};
use vstd::prelude::*;

verus! {

/// What a man is worth that is locked by two men of the other side.
pub const LOCKED: i32 = -300;

/// What a man is worth that one man of the other side stands in front of.
pub const SEMI_LOCKED: i32 = -49;

/// What a man is worth that hangs on two men in front of it.
pub const HANGING: i32 = -25;

/// What a man is worth that stands alone.
pub const ISOLATED: i32 = -50;

/// What a man is worth with one man behind it and two in front.
pub const SEMI_HANGING: i32 = -5;

/// What a man is worth with two men behind it and none in front.
pub const BIRDY: i32 = 19;

/// What a man is worth with two men behind it, before what stands in front
/// of it is counted.
pub const TAIL: i32 = 23;

/// What each man around a man adds.
pub const EXTRA: i32 = 8;

/// The least depth of a search whose outcome is looked up.
pub const HASH_DEPTH: Depth = 2;

/// The greatest depth after which Sherlock makes a step.
pub const SHERLOCK_MAX_DEPTH: Depth = 27;

/// The least number of men with which the structure counts.
pub const STRUCTURE_MEN: i32 = 8;

/// What a man is worth for how it stands among its neighbours: how many
/// men of its own stand behind it (supporters) and in front of it
/// (blockers), and how many of the other side stand in front of it
/// (lockers).
pub open spec fn spec_pattern(supporters: int, blockers: int, lockers: int) -> int {
    if supporters == 2 && lockers == 2 {
        LOCKED as int
    } else if lockers == 1 {
        SEMI_LOCKED as int
    } else if supporters == 0 && blockers == 2 && lockers == 0 {
        HANGING as int
    } else if supporters == 0 && blockers == 0 {
        ISOLATED as int
    } else if supporters == 1 && blockers == 2 && lockers == 0 {
        SEMI_HANGING as int
    } else if supporters == 2 && blockers == 0 && lockers == 0 {
        BIRDY as int
    } else if supporters == 2 && lockers == 0 {
        TAIL + EXTRA * blockers
    } else if lockers == 0 {
        EXTRA * (supporters + blockers)
    } else {
        0
    }
}

/// One if `a` is `b`, else zero.
pub open spec fn one_if(a: int, b: int) -> int {
    if a == b {
        1
    } else {
        0
    }
}

/// What the star with the given code is worth, from white's side. The code
/// holds, in base three, what stands on the five fields of the star: upper
/// left, upper right, middle, lower left, lower right; nothing, a white
/// man or a black man. A star without a man in the middle is worth
/// nothing.
pub open spec fn spec_star_eval(code: int) -> int {
    let tl = code % 3;
    let tr = code / 3 % 3;
    let mm = code / 9 % 3;
    let bl = code / 27 % 3;
    let br = code / 81 % 3;
    if mm == 1 {
        spec_pattern(
            one_if(1, bl) + one_if(1, br),
            one_if(1, tl) + one_if(1, tr),
            one_if(2, tl) + one_if(2, tr),
        )
    } else if mm == 2 {
        -spec_pattern(
            one_if(2, tl) + one_if(2, tr),
            one_if(2, bl) + one_if(2, br),
            one_if(1, bl) + one_if(1, br),
        )
    } else {
        0
    }
}

/// What stands on a field of a star: one for a white man, two for a black
/// man, zero else.
pub open spec fn tern(piece: Piece) -> int {
    if piece == WHITE_MAN {
        1
    } else if piece == BLACK_MAN {
        2
    } else {
        0
    }
}

/// The code of `star` in `p`.
pub open spec fn star_code(p: Position, star: Seq<Field>) -> int {
    tern(p.spec_piece_at(star[0])) + 3 * tern(p.spec_piece_at(star[1])) + 9 * tern(
        p.spec_piece_at(star[2]),
    ) + 27 * tern(p.spec_piece_at(star[3])) + 81 * tern(p.spec_piece_at(star[4]))
}

/// What the first `n` of `stars` are worth together in `p`.
pub open spec fn structure_upto(p: Position, stars: Seq<Seq<Field>>, n: int) -> int
    decreases n,
{
    if n <= 0 {
        0
    } else {
        structure_upto(p, stars, n - 1) + spec_star_eval(star_code(p, stars[n - 1]))
    }
}

/// What the structure of `p` is worth, from white's side.
pub open spec fn spec_structure(p: Position) -> int {
    structure_upto(p, spec_stars(50), spec_stars(50).len() as int)
}

/// `v` divided by four `k` times over, rounded down each time.
pub open spec fn quartered(v: int, k: int) -> int
    decreases k,
{
    if k <= 0 {
        v
    } else {
        quartered(v / 4, k - 1)
    }
}

/// The score of a position with the counts `stats` and a structure worth
/// `structure`, from white's side: material; the structure, where there
/// are men enough; development, which weighs the more the fewer men there
/// are; balance between the wings; hold of the centre.
pub open spec fn spec_score(stats: PositionStats, structure: int) -> int {
    let count = stats.piece_count@;
    let beans = 500 * count[1] + 1475 * count[2] - 500 * count[3] - 1475 * count[4];
    let men = count[1] + count[3];
    let development = dot(ROW as int, stats.voffset_white@, 10) - dot(
        ROW as int,
        stats.voffset_black@,
        10,
    );
    let balance = magnitude(dot(BALANCE as int, stats.hoffset_black@, 10)) - magnitude(
        dot(BALANCE as int, stats.hoffset_white@, 10),
    );
    let center = dot(CENTER as int, stats.hoffset_white@, 10) - dot(
        CENTER as int,
        stats.hoffset_black@,
        10,
    );
    beans + (if men < STRUCTURE_MEN {
        0
    } else {
        structure
    }) + toward_zero((32 - men) * development, 2) + balance + center
}

/// Whether a position with the counts `stats` tends to a draw: each side
/// has a king and no more than three pieces.
pub open spec fn spec_drawish(stats: PositionStats) -> bool {
    let count = stats.piece_count@;
    count[2] > 0 && count[4] > 0 && count[1] + count[2] <= 3 && count[3] + count[4] <= 3
}

/// The score scaled for the endgame: a hundredth where the position tends
/// to a draw, else quartered once for each king of the side that has the
/// fewer.
pub open spec fn spec_scaled(stats: PositionStats, score: int) -> int {
    let count = stats.piece_count@;
    if spec_drawish(stats) {
        toward_zero(score, 100)
    } else {
        quartered(
            score,
            if count[2] < count[4] {
                count[2] as int
            } else {
                count[4] as int
            },
        )
    }
}

/// The value of `p` for the side to move.
pub open spec fn spec_sherlock_evaluate(p: Position) -> Eval {
    let stats = PositionStats::of(p);
    let scaled = spec_scaled(stats, spec_score(stats, spec_structure(p)));
    to_eval(
        if p.spec_side_to_move() == Color::White {
            scaled
        } else {
            -scaled
        },
    )
}

/// Whether `mv` is quiet in `p`: no capture, and no step of a man onto one
/// of the two rows before the far side.
pub open spec fn spec_sherlock_quiet(p: Position, mv: Move) -> bool {
    mv.spec_num_taken() == 0 && if p.spec_side_to_move() == Color::White {
        mv.spec_to() >= 10 || p.spec_piece_at(mv.spec_from()) != WHITE_MAN
    } else {
        mv.spec_to() <= 39 || p.spec_piece_at(mv.spec_from()) != BLACK_MAN
    }
}

/// There are no more stars than fields.
pub proof fn lemma_stars_len(n: int)
    requires
        0 <= n,
    ensures
        spec_stars(n).len() <= n,
    decreases n,
{
    if n > 0 {
        lemma_stars_len(n - 1);
    }
}

/// What a star is worth lies within the greatest pattern value.
pub proof fn lemma_star_eval_bound(code: int)
    ensures
        -300 <= spec_star_eval(code) <= 300,
{
}

/// What a man is worth for how it stands among its neighbours.
fn pattern(supporters: i32, blockers: i32, lockers: i32) -> (result: i32)
    requires
        0 <= supporters <= 2,
        0 <= blockers <= 2,
        0 <= lockers <= 2,
    ensures
        result == spec_pattern(supporters as int, blockers as int, lockers as int),
        -300 <= result <= 300,
{
    if supporters == 2 && lockers == 2 {
        LOCKED
    } else if lockers == 1 {
        SEMI_LOCKED
    } else if supporters == 0 && blockers == 2 && lockers == 0 {
        HANGING
    } else if supporters == 0 && blockers == 0 {
        ISOLATED
    } else if supporters == 1 && blockers == 2 && lockers == 0 {
        SEMI_HANGING
    } else if supporters == 2 && blockers == 0 && lockers == 0 {
        BIRDY
    } else if supporters == 2 && lockers == 0 {
        TAIL + EXTRA * blockers
    } else if lockers == 0 {
        EXTRA * (supporters + blockers)
    } else {
        0
    }
}

fn same(a: usize, b: usize) -> (result: i32)
    ensures
        result == one_if(a as int, b as int),
{
    if a == b {
        1
    } else {
        0
    }
}

/// What the star with the given code is worth, from white's side.
pub fn star_eval(code: usize) -> (result: Eval)
    requires
        code < 243,
    ensures
        result == spec_star_eval(code as int),
{
    let tl = code % 3;
    let tr = code / 3 % 3;
    let mm = code / 9 % 3;
    let bl = code / 27 % 3;
    let br = code / 81 % 3;
    if mm == 1 {
        pattern(same(1, bl) + same(1, br), same(1, tl) + same(1, tr), same(2, tl) + same(2, tr))
            as Eval
    } else if mm == 2 {
        (-pattern(same(2, tl) + same(2, tr), same(2, bl) + same(2, br), same(1, bl) + same(1, br)))
            as Eval
    } else {
        0
    }
}

/// The judge of Sherlock.
pub struct SherlockJudge {
    generator: Generator,
    stars: Stars,
    evals: [Eval; 243],
    private_hash: Table,
    shared_hash: Table,
    generation: u8,
}

impl SherlockJudge {
    /// The entries that this judge has written since it last consolidated.
    pub closed spec fn own(&self) -> Table {
        self.private_hash
    }

    /// The entries that were consolidated.
    pub closed spec fn shared(&self) -> Table {
        self.shared_hash
    }

    /// The generation in which this judge writes.
    pub closed spec fn spec_generation(&self) -> u8 {
        self.generation
    }

    /// The invariant of the parts that never change: the generator, the
    /// stars and the table of what the stars are worth.
    pub closed spec fn fixed_inv(&self) -> bool {
        &&& self.generator.wf()
        &&& self.stars.wf()
        &&& forall|code: int| 0 <= code < 243 ==> #[trigger] self.evals@[code] == spec_star_eval(code)
    }

    /// Whether every entry of `table` has evaluations for bounds.
    pub open spec fn all_ranged(table: Table) -> bool {
        forall|p: Position| (#[trigger] table.spec_get(p)) is Some ==> table.spec_get(p)->Some_0.ranged()
    }

    /// The judge, with empty memory, in the first generation.
    pub fn create(generator: Generator) -> (result: SherlockJudge)
        requires
            generator.wf(),
        ensures
            result.inv(),
            result.spec_generation() == 0,
            forall|p: Position| #[trigger] result.own().spec_get(p) is None,
            forall|p: Position| #[trigger] result.shared().spec_get(p) is None,
    {
        let mut evals: [Eval; 243] = [0;243];
        let mut code: usize = 0;
        while code < 243
            invariant
                code <= 243,
                forall|k: int| 0 <= k < code ==> #[trigger] evals@[k] == spec_star_eval(k),
            decreases 243 - code,
        {
            evals[code] = star_eval(code);
            code += 1;
        }
        SherlockJudge {
            generator,
            evals,
            stars: Stars::create(),
            private_hash: Table::create(),
            shared_hash: Table::create(),
            generation: 0,
        }
    }

    /// A judge for a worker: it judges as this one and writes in the same
    /// generation, and starts with an empty memory of its own.
    pub fn fork(&self) -> (result: SherlockJudge)
        requires
            self.inv(),
        ensures
            result.inv(),
            result.spec_generation() == self.spec_generation(),
            forall|p: Position| #[trigger] result.own().spec_get(p) is None,
            forall|p: Position| #[trigger] result.shared().spec_get(p) is None,
    {
        SherlockJudge {
            generator: Generator::create(),
            evals: self.evals,
            stars: Stars::create(),
            private_hash: Table::create(),
            shared_hash: Table::create(),
            generation: self.generation,
        }
    }

    /// Whether the position tends to a draw.
    fn drawish(&self, stats: &PositionStats) -> (result: bool)
        requires
            forall|k: int| 0 <= k < 5 ==> 0 <= #[trigger] stats.piece_count@[k] <= 50,
        ensures
            result == spec_drawish(*stats),
    {
        let whites = stats.piece_count[WHITE_MAN as usize] + stats.piece_count[WHITE_KING as usize];
        let blacks = stats.piece_count[BLACK_MAN as usize] + stats.piece_count[BLACK_KING as usize];
        stats.piece_count[WHITE_KING as usize] > 0 && stats.piece_count[BLACK_KING as usize] > 0
            && whites <= 3 && blacks <= 3
    }

    /// Drops what was not written in the generation at hand from the
    /// shared memory, and begins the next generation.
    pub fn reset(&mut self)
        requires
            old(self).inv(),
        ensures
            final(self).inv(),
            final(self).own() == old(self).own(),
            final(self).spec_generation() == bumped(old(self).spec_generation()),
            forall|q: Position| #[trigger]
                final(self).shared().spec_get(q) == retained(
                    old(self).shared().spec_get(q),
                    old(self).spec_generation(),
                ),
    {
        let generation = self.generation;
        self.shared_hash.retain(generation);
        self.generation = if generation == 255 {
            0
        } else {
            generation + 1
        };
    }

    /// How the wings balance: the less, the heavier one wing.
    fn balance(&self, hoffset: &[Count; 10]) -> (result: i32)
        requires
            forall|i: int| 0 <= i < 10 ==> 0 <= #[trigger] hoffset@[i] <= 50,
        ensures
            result == -magnitude(dot(BALANCE as int, hoffset@, 10)),
            -27000 <= result <= 0,
    {
        let sum = weigh(BALANCE, hoffset);
        if sum < 0 {
            sum
        } else {
            -sum
        }
    }

    /// How the centre is held.
    fn center(&self, hoffset: &[Count; 10]) -> (result: i32)
        requires
            forall|i: int| 0 <= i < 10 ==> 0 <= #[trigger] hoffset@[i] <= 50,
        ensures
            result == dot(CENTER as int, hoffset@, 10),
            -27000 <= result <= 27000,
    {
        weigh(CENTER, hoffset)
    }

    /// What stands on `field`, as a digit of a star's code.
    fn digit(position: &Position, field: Field) -> (result: usize)
        requires
            field < 50,
        ensures
            result == tern(position.spec_piece_at(field)),
            result <= 2,
    {
        let piece = position.piece_at(field);
        if piece == WHITE_MAN {
            1
        } else if piece == BLACK_MAN {
            2
        } else {
            0
        }
    }

    /// What the structure of `position` is worth, from white's side.
    fn structure(&self, position: &Position) -> (result: i32)
        requires
            self.fixed_inv(),
        ensures
            result == spec_structure(*position),
            -15000 <= result <= 15000,
    {
        proof {
            lemma_stars_len(50);
        }
        let ghost seqs = self.stars.star_seqs();
        let mut sum: i32 = 0;
        let mut s: usize = 0;
        while s < self.stars.stars.len()
            invariant
                s <= self.stars.stars@.len() <= 50,
                self.fixed_inv(),
                seqs == self.stars.star_seqs(),
                seqs == spec_stars(50),
                sum == structure_upto(*position, seqs, s as int),
                -300 * s <= sum <= 300 * s,
            decreases self.stars.stars@.len() - s,
        {
            let star = &self.stars.stars[s];
            proof {
                assert(seqs[s as int] == star@);
                Self::lemma_star_fields(s as int);
                lemma_star_eval_bound(star_code(*position, star@));
            }
            let code = Self::digit(position, star[0]) + 3 * Self::digit(position, star[1]) + 9
                * Self::digit(position, star[2]) + 27 * Self::digit(position, star[3]) + 81
                * Self::digit(position, star[4]);
            sum = sum + self.evals[code] as i32;
            s += 1;
        }
        sum
    }

    /// The fields of a star are fields of the board.
    proof fn lemma_star_fields(s: int)
        requires
            0 <= s < spec_stars(50).len(),
        ensures
            spec_stars(50)[s].len() == 5,
            forall|i: int| 0 <= i < 5 ==> #[trigger] spec_stars(50)[s][i] < 50,
    {
        Self::lemma_star_fields_upto(50, s);
    }

    proof fn lemma_star_fields_upto(n: int, s: int)
        requires
            0 <= n <= 50,
            0 <= s < spec_stars(n).len(),
        ensures
            spec_stars(n)[s].len() == 5,
            forall|i: int| 0 <= i < 5 ==> #[trigger] spec_stars(n)[s][i] < 50,
        decreases n,
    {
        if n > 0 {
            let f = (n - 1) as Field;
            if crate::board::stars::spec_inner(f) {
                if s < spec_stars(n - 1).len() {
                    Self::lemma_star_fields_upto(n - 1, s);
                } else {
                    Self::lemma_inner_star(f);
                }
            } else {
                Self::lemma_star_fields_upto(n - 1, s);
            }
        }
    }

    /// The star of an inner field lies on the board.
    proof fn lemma_inner_star(f: Field)
        requires
            f < 50,
            crate::board::stars::spec_inner(f),
        ensures
            crate::board::stars::spec_star(f).len() == 5,
            forall|i: int| 0 <= i < 5 ==> #[trigger] crate::board::stars::spec_star(f)[i] < 50,
    {
        let x = crate::board::coords::spec_x(f as int);
        let y = crate::board::coords::spec_y(f as int);
        crate::board::coords::lemma_field_coords(f as int);
        crate::board::coords::lemma_coords_field(x, y + 1);
        crate::board::coords::lemma_coords_field(x + 1, y);
        crate::board::coords::lemma_coords_field(x, y);
        crate::board::coords::lemma_coords_field(x - 1, y);
        crate::board::coords::lemma_coords_field(x, y - 1);
    }

    /// The score quartered `k` times.
    fn quarter(score: i32, k: Count) -> (result: i32)
        requires
            -10_000_000 <= score <= 10_000_000,
            0 <= k,
        ensures
            result == quartered(score as int, k as int),
            -10_000_000 <= result <= 10_000_000,
    {
        let mut value = score;
        let mut i: Count = 0;
        while i < k
            invariant
                0 <= i <= k,
                -10_000_000 <= value <= 10_000_000,
                quartered(score as int, k as int) == quartered(value as int, k - i),
            decreases k - i,
        {
            value = if value >= 0 {
                value / 4
            } else {
                -((-value + 3) / 4)
            };
            i += 1;
        }
        value
    }
}

impl Judgement for SherlockJudge {
    open spec fn inv(&self) -> bool {
        &&& self.fixed_inv()
        &&& self.own().wf()
        &&& self.shared().wf()
        &&& Self::all_ranged(self.own())
        &&& Self::all_ranged(self.shared())
    }

    open spec fn spec_evaluate(&self, position: Position) -> Eval {
        spec_sherlock_evaluate(position)
    }

    open spec fn spec_quiet_move(&self, position: Position, mv: Move) -> bool {
        spec_sherlock_quiet(position, mv)
    }

    open spec fn spec_quiet_position(&self, position: Position, moves: Seq<Move>) -> bool {
        moves.len() > 1 && spec_sherlock_quiet(position, moves[0])
    }

    open spec fn spec_recall(&self, position: Position, depth: Depth) -> PositionMemory {
        if depth < HASH_DEPTH {
            PositionMemory::spec_empty()
        } else if deep_enough(self.own().spec_get(position), depth) {
            self.own().spec_get(position)->Some_0.spec_answer()
        } else if deep_enough(self.shared().spec_get(position), depth) {
            self.shared().spec_get(position)->Some_0.spec_answer()
        } else {
            PositionMemory::spec_empty()
        }
    }

    open spec fn keeps_memory(&self) -> bool {
        true
    }

    open spec fn spec_remembered(
        &self,
        before: SherlockJudge,
        position: Position,
        depth: Depth,
        evaluation: Eval,
        mv: Option<Move>,
        low: bool,
    ) -> bool {
        &&& self.shared() == before.shared()
        &&& self.spec_generation() == before.spec_generation()
        &&& self.own().spec_get(position) == Some(
            merged(
                before.own().spec_get(position),
                spec_entry(depth, evaluation, mv, low, before.spec_generation()),
            ),
        )
        &&& forall|q: Position|
            q != position ==> #[trigger] self.own().spec_get(q) == before.own().spec_get(q)
    }

    open spec fn spec_consolidated(&self, before: SherlockJudge) -> bool {
        &&& self.spec_generation() == before.spec_generation()
        &&& forall|q: Position| #[trigger] self.own().spec_get(q) is None
        &&& forall|q: Position| #[trigger]
            self.shared().spec_get(q) == taken_over(
                before.shared().spec_get(q),
                before.own().spec_get(q),
            )
    }

    open spec fn spec_learnt(&self, before: SherlockJudge, other: SherlockJudge) -> bool {
        &&& self.spec_generation() == before.spec_generation()
        &&& self.own() == before.own()
        &&& forall|q: Position| #[trigger]
            self.shared().spec_get(q) == taken_over(
                before.shared().spec_get(q),
                other.shared().spec_get(q),
            )
    }

    open spec fn spec_display_name(&self) -> Seq<char> {
        "Sherlock"@
    }
}

/// Whether `mv` is the move that `memory` names.
pub open spec fn fits(memory: PositionMemory, mv: Move) -> bool {
    mv.spec_from() == memory.from && mv.spec_to() == memory.to
}

/// `moves` with the first move that `memory` names and the first move of
/// all in each other's place; `moves` itself where `memory` names no move,
/// or none that `moves` holds.
pub open spec fn spec_hint_first(moves: Seq<Move>, memory: PositionMemory) -> Seq<Move> {
    let found = first_with(moves, memory.from, memory.to, 0);
    if memory.spec_has_move() && 0 < found < moves.len() {
        moves.update(0, moves[found]).update(found, moves[0])
    } else {
        moves
    }
}

/// Puts the move that `memory` names in the first place, and the move that
/// stood there in its place. The moves stay the same moves, and the move
/// that `memory` names is the first where `moves` holds it.
pub fn hint_first(moves: &mut Vec<Move>, memory: &PositionMemory)
    ensures
        final(moves)@ == spec_hint_first(old(moves)@, *memory),
        final(moves)@.len() == old(moves)@.len(),
        forall|mv: Move| #[trigger] final(moves)@.contains(mv) <==> old(moves)@.contains(mv),
        old(moves)@.no_duplicates() ==> final(moves)@.no_duplicates(),
        hinted(*memory, final(moves)@),
{
    if memory.has_move() {
        let found = find_first(moves, memory.from, memory.to);
        if 0 < found && found < moves.len() {
            let ghost before = moves@;
            let first = moves[0];
            let hint = moves[found];
            moves[0] = hint;
            moves[found] = first;
            proof {
                let after = moves@;
                assert forall|mv: Move| #[trigger] after.contains(mv) <==> before.contains(mv) by {
                    if after.contains(mv) {
                        let k = choose|k: int| 0 <= k < after.len() && after[k] == mv;
                        if k == 0 {
                            assert(before[found as int] == mv);
                        } else if k == found {
                            assert(before[0] == mv);
                        } else {
                            assert(before[k] == mv);
                        }
                    }
                    if before.contains(mv) {
                        let k = choose|k: int| 0 <= k < before.len() && before[k] == mv;
                        if k == 0 {
                            assert(after[found as int] == mv);
                        } else if k == found {
                            assert(after[0] == mv);
                        } else {
                            assert(after[k] == mv);
                        }
                    }
                }
                if before.no_duplicates() {
                    assert forall|a: int, b: int|
                        0 <= a < after.len() && 0 <= b < after.len() && a != b implies after[a]
                        != after[b] by {
                        let a0 = if a == 0 {
                            found as int
                        } else if a == found {
                            0
                        } else {
                            a
                        };
                        let b0 = if b == 0 {
                            found as int
                        } else if b == found {
                            0
                        } else {
                            b
                        };
                        assert(after[a] == before[a0] && after[b] == before[b0]);
                    }
                }
            }
        }
    }
}

/// Whether the move that `memory` names is the first of `list`, if
/// `memory` names a move and `list` holds it.
pub open spec fn hinted(memory: PositionMemory, list: Seq<Move>) -> bool {
    memory.spec_has_move() && (exists|k: int| 0 <= k < list.len() && fits(memory, #[trigger] list[k]))
        ==> fits(memory, list[0])
}

/// The entry that records the outcome of a search: `evaluation` is an
/// upper bound where `low` is set, a lower bound where it is not; the move
/// is held by origin and landing field, cut to a byte each, both zero where
/// there is none.
pub open spec fn spec_entry(
    depth: Depth,
    evaluation: Eval,
    mv: Option<Move>,
    low: bool,
    generation: u8,
) -> HashEval {
    HashEval {
        depth,
        lower: if low {
            MIN_EVAL
        } else {
            evaluation
        },
        upper: if low {
            evaluation
        } else {
            MAX_EVAL
        },
        from: match mv {
            Some(mv) => mv.spec_from() as SmallField,
            None => 0,
        },
        to: match mv {
            Some(mv) => mv.spec_to() as SmallField,
            None => 0,
        },
        generation,
    }
}

impl SherlockJudge {
    /// What one judge has consolidated, another holds once it has learnt
    /// from the first: where `other` shares an entry for `position` from a
    /// search of at least `depth`, the judge that learnt from `other`
    /// shares one too, and recalls bounds from a search of at least `depth`
    /// unless the bounds that it holds cross.
    pub proof fn lemma_learnt_is_recalled(
        judge: SherlockJudge,
        before: SherlockJudge,
        other: SherlockJudge,
        position: Position,
        depth: Depth,
    )
        requires
            judge.spec_learnt(before, other),
            depth >= HASH_DEPTH,
            deep_enough(other.shared().spec_get(position), depth),
        ensures
            deep_enough(judge.shared().spec_get(position), depth),
            judge.spec_recall(position, depth).depth >= depth || (deep_enough(
                judge.own().spec_get(position),
                depth,
            ) && judge.own().spec_get(position)->Some_0.spec_crossed()) || judge.shared().spec_get(
                position,
            )->Some_0.spec_crossed(),
    {
        assert(judge.shared().spec_get(position) == taken_over(
            before.shared().spec_get(position),
            other.shared().spec_get(position),
        ));
    }

    /// What a judge has learnt by itself, it shares once it has
    /// consolidated: an entry of its own for `position` from a search of at
    /// least `depth` gives a shared entry from a search of at least `depth`.
    pub proof fn lemma_consolidated_is_shared(
        judge: SherlockJudge,
        before: SherlockJudge,
        position: Position,
        depth: Depth,
    )
        requires
            judge.spec_consolidated(before),
            deep_enough(before.own().spec_get(position), depth),
        ensures
            deep_enough(judge.shared().spec_get(position), depth),
    {
        assert(judge.shared().spec_get(position) == taken_over(
            before.shared().spec_get(position),
            before.own().spec_get(position),
        ));
    }
}

impl Judge for SherlockJudge {
    fn recall(&self, position: &Position, depth: Depth) -> (memory: PositionMemory) {
        if depth < HASH_DEPTH {
            return PositionMemory::empty();
        }
        if let Some(found) = self.private_hash.get(position) {
            if found.depth >= depth {
                return found.answer();
            }
        }
        if let Some(found) = self.shared_hash.get(position) {
            if found.depth >= depth {
                return found.answer();
            }
        }
        PositionMemory::empty()
    }

    fn remember(
        &mut self,
        position: &Position,
        depth: Depth,
        evaluation: Eval,
        mv: Option<Move>,
        low: bool,
    )
        ensures
            final(self).shared() == old(self).shared(),
            final(self).spec_generation() == old(self).spec_generation(),
            final(self).own().spec_get(*position) == Some(
                merged(
                    old(self).own().spec_get(*position),
                    spec_entry(depth, evaluation, mv, low, old(self).spec_generation()),
                ),
            ),
            forall|q: Position|
                q != *position ==> #[trigger] final(self).own().spec_get(q) == old(
                    self,
                ).own().spec_get(q),
    {
        let (from, to) = match mv {
            Some(mv) => (
                #[verifier::truncate]
                (mv.from() as SmallField),
                #[verifier::truncate]
                (mv.to() as SmallField),
            ),
            None => (0, 0),
        };
        let hash_eval = HashEval {
            depth,
            lower: if low {
                MIN_EVAL
            } else {
                evaluation
            },
            upper: if low {
                evaluation
            } else {
                MAX_EVAL
            },
            from,
            to,
            generation: self.generation,
        };
        proof {
            lemma_merged(self.private_hash.spec_get(*position), hash_eval);
        }
        self.private_hash.upsert(position, hash_eval);
    }

    fn consolidate(&mut self)
        ensures
            final(self).spec_generation() == old(self).spec_generation(),
            forall|q: Position| #[trigger] final(self).own().spec_get(q) is None,
            forall|q: Position| #[trigger]
                final(self).shared().spec_get(q) == taken_over(
                    old(self).shared().spec_get(q),
                    old(self).own().spec_get(q),
                ),
    {
        proof {
            assert forall|q: Position|
                old(self).own().spec_get(q) is Some implies #[trigger] merged(
                old(self).shared().spec_get(q),
                old(self).own().spec_get(q)->Some_0,
            ).ranged() by {
                lemma_merged(
                    old(self).shared().spec_get(q),
                    old(self).own().spec_get(q)->Some_0,
                );
            }
        }
        self.shared_hash.absorb(&mut self.private_hash);
    }

    fn learn(&mut self, other: &Self)
        ensures
            final(self).spec_generation() == old(self).spec_generation(),
            final(self).own() == old(self).own(),
            forall|q: Position| #[trigger]
                final(self).shared().spec_get(q) == taken_over(
                    old(self).shared().spec_get(q),
                    other.shared().spec_get(q),
                ),
    {
        proof {
            assert forall|q: Position|
                other.shared().spec_get(q) is Some implies #[trigger] merged(
                old(self).shared().spec_get(q),
                other.shared().spec_get(q)->Some_0,
            ).ranged() by {
                lemma_merged(
                    old(self).shared().spec_get(q),
                    other.shared().spec_get(q)->Some_0,
                );
            }
        }
        self.shared_hash.merge(&other.shared_hash);
    }

    fn evaluate(&self, position: &Position) -> (eval: Eval) {
        let stats = PositionStats::for_position(position);
        let white_men = stats.piece_count[WHITE_MAN as usize] as i32;
        let white_kings = stats.piece_count[WHITE_KING as usize] as i32;
        let black_men = stats.piece_count[BLACK_MAN as usize] as i32;
        let black_kings = stats.piece_count[BLACK_KING as usize] as i32;
        let beans = 500 * white_men + 1475 * white_kings - 500 * black_men - 1475 * black_kings;
        let men = white_men + black_men;
        let development = weigh(ROW, &stats.voffset_white) - weigh(ROW, &stats.voffset_black);
        let balance_score = self.balance(&stats.hoffset_white) - self.balance(&stats.hoffset_black);
        let center_score = self.center(&stats.hoffset_white) - self.center(&stats.hoffset_black);
        let structure = if men < STRUCTURE_MEN {
            0
        } else {
            self.structure(position)
        };
        let spread = 32 - men;
        proof {
            assert(-68 * 54000 <= spread * development <= 68 * 54000) by (nonlinear_arith)
                requires
                    -68 <= spread <= 32,
                    -54000 <= development <= 54000,
            ;
        }
        let score = beans + structure + div_toward_zero(spread * development, 2) + balance_score
            + center_score;
        let scaled = if self.drawish(&stats) {
            div_toward_zero(score, 100)
        } else {
            let min_kings = if stats.piece_count[WHITE_KING as usize]
                < stats.piece_count[BLACK_KING as usize] {
                stats.piece_count[WHITE_KING as usize]
            } else {
                stats.piece_count[BLACK_KING as usize]
            };
            Self::quarter(score, min_kings)
        };
        clamp_eval(
            if position.side_to_move() == Color::White {
                scaled
            } else {
                -scaled
            },
        )
    }

    fn moves(&self, position: &Position, depth: Depth) -> (list: Vec<Move>)
        ensures
            hinted(self.spec_recall(*position, depth), list@),
            exists|generated: Seq<Move>|
                is_legal_list(*position, generated) && list@ == #[trigger] spec_hint_first(
                    generated,
                    self.spec_recall(*position, depth),
                ),
    {
        let mut moves = self.generator.legal_moves(position);
        let memory = self.recall(position, depth);
        let ghost generated = moves@;
        hint_first(&mut moves, &memory);
        proof {
            assert(moves@ == spec_hint_first(generated, self.spec_recall(*position, depth)));
        }
        moves
    }

    fn quiet_move(&self, position: &Position, mv: &Move) -> (quiet: bool) {
        mv.num_taken() == 0 && if position.side_to_move() == Color::White {
            mv.to() >= 10 || position.piece_at(mv.from()) != WHITE_MAN
        } else {
            mv.to() <= 39 || position.piece_at(mv.from()) != BLACK_MAN
        }
    }

    fn quiet_position(&self, position: &Position, moves: &[Move]) -> (quiet: bool) {
        moves.len() > 1 && self.quiet_move(position, &moves[0])
    }

    fn display_name(&self) -> (name: &str) {
        "Sherlock"
    }
}

/// The Sherlock engine.
pub struct Sherlock {
    max_nodes: Nodes,
    judge: SherlockJudge,
    previous: EngineResult,
    position: Option<Position>,
    fresh: bool,
}

impl Sherlock {
    /// The judge of the engine.
    pub closed spec fn spec_judge(&self) -> SherlockJudge {
        self.judge
    }

    /// The engine with the given budget of nodes, without a position.
    pub fn create(max_nodes: Nodes) -> (result: Sherlock)
        ensures
            result.inv(),
            result.state().position is None,
            result.state().previous.is_empty(),
            result.state().fresh,
            result.state().max_nodes == max_nodes,
            result.state().max_depth == SHERLOCK_MAX_DEPTH,
    {
        Sherlock {
            max_nodes,
            judge: SherlockJudge::create(Generator::create()),
            previous: EngineResult::empty(),
            position: None,
            fresh: true,
        }
    }
}

impl Engine for Sherlock {
    closed spec fn inv(&self) -> bool {
        self.judge.inv() && (self.fresh ==> self.previous.is_empty()) && is_eval(
            self.previous.evaluation as int,
        )
    }

    closed spec fn state(&self) -> Deepening {
        Deepening {
            position: self.position,
            previous: self.previous,
            fresh: self.fresh,
            max_nodes: self.max_nodes,
            max_depth: SHERLOCK_MAX_DEPTH,
        }
    }

    open spec fn spec_display_name(&self) -> Seq<char> {
        "Sherlock"@
    }

    fn display_name(&self) -> (name: &str) {
        "Sherlock"
    }

    fn set_position(&mut self, position: &Position)
        ensures
            final(self).spec_judge().spec_generation() == bumped(
                old(self).spec_judge().spec_generation(),
            ),
            forall|q: Position| #[trigger] final(self).spec_judge().own().spec_get(q) is None,
            forall|q: Position| #[trigger]
                final(self).spec_judge().shared().spec_get(q) == taken_over(
                    retained(
                        old(self).spec_judge().shared().spec_get(q),
                        old(self).spec_judge().spec_generation(),
                    ),
                    old(self).spec_judge().own().spec_get(q),
                ),
    {
        self.judge.reset();
        self.judge.consolidate();
        self.position = Some(*position);
        self.previous = EngineResult::empty();
        self.fresh = true;
    }

    fn next(&mut self) -> (result: Option<EngineResult>)
        ensures
            result is None ==> final(self).spec_judge() == old(self).spec_judge(),
            result is Some ==> same_judgement(&final(self).spec_judge(), &old(self).spec_judge()),
            result is Some && old(self).state().position->Some_0.wf() ==> replies_taught::<
                SherlockJudge,
                LogarithmicScope,
            >(
                old(self).spec_judge(),
                final(self).spec_judge(),
                old(self).state().position->Some_0,
                result->Some_0.meta.spec_depth(),
            ),
            result is Some && result->Some_0.mv.is_null() ==> result->Some_0.evaluation == MIN_EVAL,
            result is Some && (forall|mv: Move| !legal(old(self).state().position->Some_0, mv))
                ==> result->Some_0.mv.is_null() && result->Some_0.meta.spec_nodes() == old(
                self,
            ).state().previous.meta.spec_nodes(),
    {
        let position = match self.position {
            Some(position) => position,
            None => {
                return None;
            },
        };
        if self.previous.exhausted(self.max_nodes, SHERLOCK_MAX_DEPTH) {
            return None;
        }
        let mut meta = self.previous.meta;
        let search_result = if self.fresh {
            SearchResult::evaluation(self.previous.evaluation)
        } else {
            SearchResult::with_move(self.previous.mv, self.previous.evaluation)
        };
        let depth = if self.fresh {
            0
        } else {
            meta.get_depth() + 1
        };
        meta.put_depth(depth);
        let bns = best_node_search::<SherlockJudge, LogarithmicScope>(
            &mut self.judge,
            &position,
            depth,
            &search_result,
        );
        meta.add_nodes(bns.meta.get_nodes());
        self.previous = EngineResult::create(bns.mv, bns.lower, meta);
        self.fresh = false;
        Some(self.previous)
    }
}

} // verus!

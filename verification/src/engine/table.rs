//! The transposition table: what searches have found out about positions.

use crate::algorithm::judge::{is_eval, Eval, PositionMemory};
use crate::algorithm::scope::Depth;
use crate::board::position::{Field, Position};
use vstd::prelude::*;

verus! {

/// A field, or the field of no move, in a byte.
pub type SmallField = u8;

/// The greater of two evaluations.
pub open spec fn greater(a: Eval, b: Eval) -> Eval {
    if a >= b {
        a
    } else {
        b
    }
}

/// The lesser of two evaluations.
pub open spec fn lesser(a: Eval, b: Eval) -> Eval {
    if a <= b {
        a
    } else {
        b
    }
}

/// An entry of the table: bounds on the value of a position from a search
/// of the given depth, the best move as origin and landing field (both
/// zero where none is known), and the generation in which it was written.
#[derive(Clone, Copy, Debug, PartialEq, Eq, Structural)]
pub struct HashEval {
    pub lower: Eval,
    pub upper: Eval,
    pub depth: Depth,
    pub from: SmallField,
    pub to: SmallField,
    pub generation: u8,
}

impl HashEval {
    /// Whether the bounds are evaluations. They may cross: two searches of
    /// one depth that contradict each other leave a lower bound above the
    /// upper bound.
    pub open spec fn ranged(&self) -> bool {
        is_eval(self.lower as int) && is_eval(self.upper as int)
    }

    /// Whether the bounds cross: no value meets both.
    pub open spec fn spec_crossed(&self) -> bool {
        self.lower > self.upper
    }

    /// Whether the bounds cross.
    #[verifier::when_used_as_spec(spec_crossed)]
    pub fn crossed(&self) -> (result: bool)
        ensures
            result == self.spec_crossed(),
    {
        self.lower > self.upper
    }

    /// What the entry tells a search: the entry as the search sees it, but
    /// the memory that knows nothing where the bounds cross.
    pub open spec fn spec_answer(&self) -> PositionMemory {
        if self.spec_crossed() {
            PositionMemory::spec_empty()
        } else {
            self.spec_as_memory()
        }
    }

    /// What the entry tells a search.
    pub fn answer(&self) -> (result: PositionMemory)
        ensures
            result == self.spec_answer(),
            self.ranged() ==> result.bounded(),
            result.depth == self.depth || result == PositionMemory::spec_empty(),
    {
        if self.crossed() {
            PositionMemory::empty()
        } else {
            self.as_memory()
        }
    }

    /// The entry as the search sees it.
    pub open spec fn spec_as_memory(&self) -> PositionMemory {
        PositionMemory {
            depth: self.depth,
            lower: self.lower,
            upper: self.upper,
            from: self.from as Field,
            to: self.to as Field,
        }
    }

    /// The entry as the search sees it.
    #[verifier::when_used_as_spec(spec_as_memory)]
    pub fn as_memory(&self) -> (result: PositionMemory)
        ensures
            result == self.spec_as_memory(),
    {
        PositionMemory::create(
            self.depth,
            self.lower,
            self.upper,
            self.from as Field,
            self.to as Field,
        )
    }

    /// This entry merged with a newer one for the same position: the
    /// deeper one wins; at equal depth the bounds are tightened to the
    /// greater lower and the lesser upper bound, a known best move is kept
    /// and an unknown one filled in, and the generation is the newer one.
    pub open spec fn spec_update(self, other: HashEval) -> HashEval {
        if self.depth > other.depth {
            self
        } else if self.depth == other.depth {
            HashEval {
                lower: greater(self.lower, other.lower),
                upper: lesser(self.upper, other.upper),
                depth: self.depth,
                from: if self.from == 0 && self.to == 0 {
                    other.from
                } else {
                    self.from
                },
                to: if self.from == 0 && self.to == 0 {
                    other.to
                } else {
                    self.to
                },
                generation: other.generation,
            }
        } else {
            other
        }
    }

    /// Merges the newer entry `other` into this one.
    pub fn update(&mut self, other: &HashEval)
        ensures
            *final(self) == old(self).spec_update(*other),
            final(self).depth >= old(self).depth,
            final(self).depth >= other.depth,
            old(self).depth == other.depth ==> final(self).lower == greater(
                old(self).lower,
                other.lower,
            ),
            old(self).depth == other.depth ==> final(self).upper == lesser(
                old(self).upper,
                other.upper,
            ),
            old(self).ranged() && other.ranged() ==> final(self).ranged(),
    {
        if self.depth > other.depth {
        } else if self.depth == other.depth {
            if other.lower > self.lower {
                self.lower = other.lower;
            }
            if other.upper < self.upper {
                self.upper = other.upper;
            }
            self.generation = other.generation;
            if self.from == 0 && self.to == 0 {
                self.from = other.from;
                self.to = other.to;
            }
        } else {
            self.depth = other.depth;
            self.lower = other.lower;
            self.upper = other.upper;
            self.from = other.from;
            self.to = other.to;
            self.generation = other.generation;
        }
    }
}

/// The entry that `entry` and what the table knew before make together.
pub open spec fn merged(known: Option<HashEval>, entry: HashEval) -> HashEval {
    match known {
        Some(found) => found.spec_update(entry),
        None => entry,
    }
}

/// What is left of `known` once only the entries of `generation` are kept.
pub open spec fn retained(known: Option<HashEval>, generation: u8) -> Option<HashEval> {
    match known {
        Some(found) => if found.generation == generation {
            Some(found)
        } else {
            None
        },
        None => None,
    }
}

/// What a table knows of a position once it has taken over what another
/// table knows of it.
pub open spec fn taken_over(known: Option<HashEval>, other: Option<HashEval>) -> Option<HashEval> {
    match other {
        Some(entry) => Some(merged(known, entry)),
        None => known,
    }
}

/// Whether `known` is an entry from a search of at least the given depth.
pub open spec fn deep_enough(known: Option<HashEval>, depth: Depth) -> bool {
    known is Some && known->Some_0.depth >= depth
}

/// Merging entries whose bounds are evaluations gives an entry whose bounds
/// are evaluations; and where neither is deeper, its lower bound is the
/// greater of the two lower bounds and its upper bound the lesser of the
/// two upper bounds, whether or not they cross.
pub proof fn lemma_merged(known: Option<HashEval>, entry: HashEval)
    ensures
        entry.ranged() && (known is Some ==> known->Some_0.ranged()) ==> merged(
            known,
            entry,
        ).ranged(),
        known is Some && known->Some_0.depth == entry.depth ==> merged(known, entry).depth
            == entry.depth && merged(known, entry).lower == greater(
            known->Some_0.lower,
            entry.lower,
        ) && merged(known, entry).upper == lesser(known->Some_0.upper, entry.upper),
        known is Some && known->Some_0.depth > entry.depth ==> merged(known, entry) == known->Some_0,
        known is None || known->Some_0.depth < entry.depth ==> merged(known, entry) == entry,
{
}

/// The generation after `generation`.
pub open spec fn bumped(generation: u8) -> u8 {
    if generation == 255 {
        0
    } else {
        (generation + 1) as u8
    }
}

/// The number of buckets of a table.
pub const BUCKETS: usize = 65_536;

/// The bucket of `p`.
pub open spec fn bucket_of(p: Position) -> int {
    (p.spec_key() % 65_536) as int
}

/// The index of the first entry of `bucket`, at or after `i`, that is for
/// `p`; the length of `bucket` where there is none.
pub open spec fn place(bucket: Seq<(Position, HashEval)>, p: Position, i: int) -> int
    decreases bucket.len() - i,
{
    if i < 0 || i >= bucket.len() {
        bucket.len() as int
    } else if bucket[i].0 == p {
        i
    } else {
        place(bucket, p, i + 1)
    }
}

/// Where the first entry for `p` stands: no entry in front of it is for `p`.
pub proof fn lemma_place(bucket: Seq<(Position, HashEval)>, p: Position, i: int)
    requires
        0 <= i <= bucket.len(),
    ensures
        i <= place(bucket, p, i) <= bucket.len(),
        place(bucket, p, i) < bucket.len() ==> bucket[place(bucket, p, i)].0 == p,
        forall|k: int| i <= k < place(bucket, p, i) ==> (#[trigger] bucket[k]).0 != p,
    decreases bucket.len() - i,
{
    if i < bucket.len() && bucket[i].0 != p {
        lemma_place(bucket, p, i + 1);
    }
}

/// What `bucket` holds for `p`.
pub open spec fn found_in(bucket: Seq<(Position, HashEval)>, p: Position) -> Option<HashEval> {
    if place(bucket, p, 0) < bucket.len() {
        Some(bucket[place(bucket, p, 0)].1)
    } else {
        None
    }
}

/// Whether `bucket` is a bucket in order: its entries belong there and are
/// for different positions.
pub open spec fn bucket_wf(bucket: Seq<(Position, HashEval)>, b: int) -> bool {
    &&& forall|i: int| 0 <= i < bucket.len() ==> bucket_of((#[trigger] bucket[i]).0) == b
    &&& forall|i: int, j: int|
        0 <= i < j < bucket.len() ==> (#[trigger] bucket[i]).0 != (#[trigger] bucket[j]).0
}

/// A map from positions to entries, as a hash table with chaining.
pub struct Table {
    buckets: Vec<Vec<(Position, HashEval)>>,
}

impl Table {
    /// The invariant of the table.
    pub closed spec fn wf(&self) -> bool {
        &&& self.buckets@.len() == BUCKETS
        &&& forall|b: int| 0 <= b < BUCKETS ==> bucket_wf((#[trigger] self.buckets@[b])@, b)
    }

    /// What the table holds for `p`.
    pub closed spec fn spec_get(&self, p: Position) -> Option<HashEval> {
        found_in(self.buckets@[bucket_of(p)]@, p)
    }

    /// The index of the bucket of `position`.
    fn index(position: &Position) -> (result: usize)
        ensures
            result == bucket_of(*position),
            result < BUCKETS,
    {
        (position.key() % 65_536) as usize
    }

    /// The index of the entry for `position` in `bucket`; the length of
    /// `bucket` where there is none.
    fn locate(bucket: &Vec<(Position, HashEval)>, position: &Position) -> (result: usize)
        ensures
            result == place(bucket@, *position, 0),
            result <= bucket@.len(),
    {
        let mut i: usize = 0;
        while i < bucket.len()
            invariant
                i <= bucket@.len(),
                place(bucket@, *position, 0) == place(bucket@, *position, i as int),
            decreases bucket@.len() - i,
        {
            if bucket[i].0 == *position {
                return i;
            }
            i += 1;
        }
        i
    }

    /// The empty table.
    pub fn create() -> (result: Table)
        ensures
            result.wf(),
            forall|p: Position| #[trigger] result.spec_get(p) is None,
    {
        let mut buckets: Vec<Vec<(Position, HashEval)>> = Vec::new();
        let mut b: usize = 0;
        while b < BUCKETS
            invariant
                b <= BUCKETS,
                buckets@.len() == b,
                forall|k: int| 0 <= k < b ==> (#[trigger] buckets@[k])@.len() == 0,
            decreases BUCKETS - b,
        {
            buckets.push(Vec::new());
            b += 1;
        }
        Table { buckets }
    }

    /// What the table holds for `position`.
    pub fn get(&self, position: &Position) -> (result: Option<HashEval>)
        requires
            self.wf(),
        ensures
            result == self.spec_get(*position),
    {
        let bucket = &self.buckets[Self::index(position)];
        let i = Self::locate(bucket, position);
        if i < bucket.len() {
            Some(bucket[i].1)
        } else {
            None
        }
    }

    /// Adds `entry` for `position`, merged with what the table holds for
    /// it.
    pub fn upsert(&mut self, position: &Position, entry: HashEval)
        requires
            old(self).wf(),
        ensures
            final(self).wf(),
            final(self).spec_get(*position) == Some(merged(old(self).spec_get(*position), entry)),
            forall|q: Position|
                q != *position ==> #[trigger] final(self).spec_get(q) == old(self).spec_get(q),
    {
        let b = Self::index(position);
        let i = Self::locate(&self.buckets[b], position);
        let ghost before = self.buckets@[b as int]@;
        proof {
            lemma_place(before, *position, 0);
        }
        if i < self.buckets[b].len() {
            let mut found = self.buckets[b][i].1;
            found.update(&entry);
            self.buckets[b][i] = (*position, found);
        } else {
            self.buckets[b].push((*position, entry));
        }
        proof {
            let after = self.buckets@[b as int]@;
            assert forall|q: Position| q != *position implies #[trigger] self.spec_get(q) == old(
                self,
            ).spec_get(q) by {
                if bucket_of(q) == b {
                    Self::lemma_other(before, after, *position, q, i as int);
                }
            }
            assert forall|m: int| 0 <= m < i implies (#[trigger] after[m]).0 != *position by {
                assert(after[m] == before[m]);
            }
            Self::lemma_place_at(after, *position, i as int, 0);
        }
    }

    /// Changing or adding the entry for `p` leaves the entry for `q`.
    proof fn lemma_other(
        before: Seq<(Position, HashEval)>,
        after: Seq<(Position, HashEval)>,
        p: Position,
        q: Position,
        i: int,
    )
        requires
            p != q,
            0 <= i <= before.len(),
            i < before.len() ==> after.len() == before.len() && after[i].0 == p && before[i].0 == p
                && forall|k: int| 0 <= k < before.len() && k != i ==> after[k] == before[k],
            i == before.len() ==> after.len() == before.len() + 1 && after[i].0 == p && forall|
                k: int,
            | 0 <= k < before.len() ==> after[k] == before[k],
        ensures
            found_in(after, q) == found_in(before, q),
    {
        Self::lemma_other_from(before, after, p, q, i, 0);
        lemma_place(before, q, 0);
        let j = place(before, q, 0);
        if j < before.len() {
            assert(before[j].0 == q);
            assert(j != i);
            assert(after[j] == before[j]);
        }
    }

    proof fn lemma_other_from(
        before: Seq<(Position, HashEval)>,
        after: Seq<(Position, HashEval)>,
        p: Position,
        q: Position,
        i: int,
        k: int,
    )
        requires
            p != q,
            0 <= i <= before.len(),
            0 <= k <= before.len(),
            i < before.len() ==> after.len() == before.len() && after[i].0 == p && before[i].0 == p
                && forall|k: int| 0 <= k < before.len() && k != i ==> after[k] == before[k],
            i == before.len() ==> after.len() == before.len() + 1 && after[i].0 == p && forall|
                k: int,
            | 0 <= k < before.len() ==> after[k] == before[k],
        ensures
            place(before, q, k) < before.len() ==> place(after, q, k) == place(before, q, k),
            place(before, q, k) == before.len() ==> place(after, q, k) == after.len(),
        decreases before.len() - k,
    {
        if k < before.len() {
            if before[k].0 != q {
                assert(after[k].0 != q);
                Self::lemma_other_from(before, after, p, q, i, k + 1);
            } else {
                assert(after[k] == before[k]);
            }
        } else if i == before.len() {
            assert(after[k].0 != q);
            assert(place(after, q, k + 1) == after.len());
        }
    }

    /// The first entry for `p` is where no entry in front of it is for
    /// `p`.
    proof fn lemma_place_at(bucket: Seq<(Position, HashEval)>, p: Position, i: int, k: int)
        requires
            0 <= k <= i < bucket.len(),
            bucket[i].0 == p,
            forall|m: int| 0 <= m < i ==> (#[trigger] bucket[m]).0 != p,
        ensures
            place(bucket, p, k) == i,
        decreases i - k,
    {
        if k < i {
            Self::lemma_place_at(bucket, p, i, k + 1);
        }
    }

    /// Drops every entry.
    pub fn clear(&mut self)
        requires
            old(self).wf(),
        ensures
            final(self).wf(),
            forall|q: Position| #[trigger] final(self).spec_get(q) is None,
    {
        let mut b: usize = 0;
        while b < BUCKETS
            invariant
                b <= BUCKETS,
                self.buckets@.len() == BUCKETS,
                forall|k: int| 0 <= k < BUCKETS ==> bucket_wf((#[trigger] self.buckets@[k])@, k),
                forall|k: int| 0 <= k < b ==> (#[trigger] self.buckets@[k])@.len() == 0,
            decreases BUCKETS - b,
        {
            self.buckets[b] = Vec::new();
            b += 1;
        }
    }

    /// Keeps the entries of the given generation and drops the others.
    pub fn retain(&mut self, generation: u8)
        requires
            old(self).wf(),
        ensures
            final(self).wf(),
            forall|q: Position| #[trigger]
                final(self).spec_get(q) == (match old(self).spec_get(q) {
                    Some(found) => if found.generation == generation {
                        Some(found)
                    } else {
                        None
                    },
                    None => None,
                }),
    {
        let mut b: usize = 0;
        while b < BUCKETS
            invariant
                b <= BUCKETS,
                self.buckets@.len() == BUCKETS,
                old(self).wf(),
                forall|k: int| 0 <= k < BUCKETS ==> bucket_wf((#[trigger] self.buckets@[k])@, k),
                forall|k: int| b <= k < BUCKETS ==> #[trigger] self.buckets@[k] == old(self).buckets@[k],
                forall|k: int|
                    0 <= k < b ==> Self::kept_of(
                        old(self).buckets@[k]@,
                        (#[trigger] self.buckets@[k])@,
                        generation,
                    ),
            decreases BUCKETS - b,
        {
            let mut kept: Vec<(Position, HashEval)> = Vec::new();
            let len = self.buckets[b].len();
            let ghost source = self.buckets@[b as int]@;
            let mut i: usize = 0;
            while i < len
                invariant
                    i <= len,
                    b < BUCKETS,
                    self.buckets@.len() == BUCKETS,
                    source == self.buckets@[b as int]@,
                    len == source.len(),
                    bucket_wf(source, b as int),
                    bucket_wf(kept@, b as int),
                    Self::kept_of(source.subrange(0, i as int), kept@, generation),
                decreases len - i,
            {
                let entry = self.buckets[b][i];
                proof {
                    Self::lemma_keep(source, kept@, generation, i as int);
                }
                if entry.1.generation == generation {
                    kept.push(entry);
                }
                i += 1;
            }
            proof {
                assert(source.subrange(0, len as int) =~= source);
            }
            self.buckets[b] = kept;
            b += 1;
        }
        proof {
            assert forall|q: Position| #[trigger]
                self.spec_get(q) == (match old(self).spec_get(q) {
                    Some(found) => if found.generation == generation {
                        Some(found)
                    } else {
                        None
                    },
                    None => None,
                }) by {
                let k = bucket_of(q);
                assert(Self::kept_of(old(self).buckets@[k]@, self.buckets@[k]@, generation));
                Self::lemma_kept_found(old(self).buckets@[k]@, self.buckets@[k]@, generation, q);
            }
        }
    }

    /// Whether `kept` holds the entries of `source` that are of the given
    /// generation, and nothing else.
    pub open spec fn kept_of(
        source: Seq<(Position, HashEval)>,
        kept: Seq<(Position, HashEval)>,
        generation: u8,
    ) -> bool {
        &&& forall|i: int|
            0 <= i < kept.len() ==> source.contains(#[trigger] kept[i]) && kept[i].1.generation
                == generation
        &&& forall|i: int|
            0 <= i < source.len() && (#[trigger] source[i]).1.generation == generation
                ==> kept.contains(source[i])
    }

    /// One more entry of the source looked at: kept if it is of the
    /// generation, left out if not.
    proof fn lemma_keep(
        source: Seq<(Position, HashEval)>,
        kept: Seq<(Position, HashEval)>,
        generation: u8,
        i: int,
    )
        requires
            0 <= i < source.len(),
            bucket_wf(source, bucket_of(source[i].0)),
            bucket_wf(kept, bucket_of(source[i].0)),
            Self::kept_of(source.subrange(0, i), kept, generation),
        ensures
            source[i].1.generation == generation ==> Self::kept_of(
                source.subrange(0, i + 1),
                kept.push(source[i]),
                generation,
            ) && bucket_wf(kept.push(source[i]), bucket_of(source[i].0)),
            source[i].1.generation != generation ==> Self::kept_of(
                source.subrange(0, i + 1),
                kept,
                generation,
            ),
    {
        let s0 = source.subrange(0, i);
        let s1 = source.subrange(0, i + 1);
        let e = source[i];
        assert(s1 =~= s0.push(e));
        assert forall|k: int| 0 <= k < kept.len() implies s1.contains(#[trigger] kept[k]) by {
            assert(s0.contains(kept[k]));
            let m = choose|m: int| 0 <= m < s0.len() && s0[m] == kept[k];
            assert(s1[m] == kept[k]);
        }
        if e.1.generation == generation {
            let k1 = kept.push(e);
            assert forall|k: int| 0 <= k < k1.len() implies s1.contains(#[trigger] k1[k])
                && k1[k].1.generation == generation by {
                if k < kept.len() {
                    assert(k1[k] == kept[k]);
                } else {
                    assert(s1[i] == e);
                }
            }
            assert forall|m: int|
                0 <= m < s1.len() && (#[trigger] s1[m]).1.generation == generation implies k1.contains(
                s1[m],
            ) by {
                if m < i {
                    assert(s0[m] == s1[m]);
                    assert(kept.contains(s0[m]));
                    let k = choose|k: int| 0 <= k < kept.len() && kept[k] == s0[m];
                    assert(k1[k] == s1[m]);
                } else {
                    assert(k1[kept.len() as int] == e);
                }
            }
            assert forall|a: int, b: int| 0 <= a < b < k1.len() implies (#[trigger] k1[a]).0 != (
            #[trigger] k1[b]).0 by {
                if b == kept.len() {
                    assert(s0.contains(kept[a]));
                    let m = choose|m: int| 0 <= m < s0.len() && s0[m] == kept[a];
                    assert(source[m] == kept[a]);
                    assert(source[m].0 != source[i].0);
                }
            }
        } else {
            assert forall|m: int|
                0 <= m < s1.len() && (#[trigger] s1[m]).1.generation == generation implies kept.contains(
                s1[m],
            ) by {
                assert(m < i);
                assert(s0[m] == s1[m]);
            }
        }
    }

    /// What a bucket holds for `q` once only the entries of one generation
    /// are kept.
    proof fn lemma_kept_found(
        source: Seq<(Position, HashEval)>,
        kept: Seq<(Position, HashEval)>,
        generation: u8,
        q: Position,
    )
        requires
            bucket_wf(source, bucket_of(q)),
            bucket_wf(kept, bucket_of(q)),
            Self::kept_of(source, kept, generation),
        ensures
            found_in(kept, q) == (match found_in(source, q) {
                Some(found) => if found.generation == generation {
                    Some(found)
                } else {
                    None
                },
                None => None,
            }),
    {
        lemma_place(source, q, 0);
        lemma_place(kept, q, 0);
        let i = place(source, q, 0);
        let j = place(kept, q, 0);
        if j < kept.len() {
            assert(source.contains(kept[j]));
            let m = choose|m: int| 0 <= m < source.len() && source[m] == kept[j];
            assert(source[m].0 == q);
            assert(i < source.len());
            assert(m == i);
        } else if i < source.len() && source[i].1.generation == generation {
            assert(kept.contains(source[i]));
            let m = choose|m: int| 0 <= m < kept.len() && kept[m] == source[i];
            assert(kept[m].0 == q);
        }
    }

    /// Moves every entry of `other` into this table, merged with what this
    /// table holds for its position, and leaves `other` empty.
    pub fn absorb(&mut self, other: &mut Table)
        requires
            old(self).wf(),
            old(other).wf(),
        ensures
            final(self).wf(),
            final(other).wf(),
            forall|q: Position| #[trigger] final(other).spec_get(q) is None,
            forall|q: Position| #[trigger]
                final(self).spec_get(q) == (match old(other).spec_get(q) {
                    Some(entry) => Some(merged(old(self).spec_get(q), entry)),
                    None => old(self).spec_get(q),
                }),
    {
        let mut b: usize = 0;
        while b < BUCKETS
            invariant
                b <= BUCKETS,
                self.wf(),
                other.buckets@.len() == BUCKETS,
                old(other).wf(),
                forall|k: int| 0 <= k < b ==> (#[trigger] other.buckets@[k])@.len() == 0,
                forall|k: int| b <= k < BUCKETS ==> #[trigger] other.buckets@[k] == old(
                    other,
                ).buckets@[k],
                forall|q: Position| #[trigger]
                    self.spec_get(q) == (if bucket_of(q) < b {
                        match old(other).spec_get(q) {
                            Some(entry) => Some(merged(old(self).spec_get(q), entry)),
                            None => old(self).spec_get(q),
                        }
                    } else {
                        old(self).spec_get(q)
                    }),
            decreases BUCKETS - b,
        {
            let len = other.buckets[b].len();
            let ghost source = other.buckets@[b as int]@;
            let ghost start = *self;
            let mut i: usize = 0;
            proof {
                assert forall|q: Position| #[trigger]
                    self.spec_get(q) == (if place(source, q, 0) < 0 {
                        Some(merged(start.spec_get(q), source[place(source, q, 0)].1))
                    } else {
                        start.spec_get(q)
                    }) by {
                    lemma_place(source, q, 0);
                }
            }
            while i < len
                invariant
                    i <= len,
                    b < BUCKETS,
                    self.wf(),
                    other.buckets@.len() == BUCKETS,
                    source == other.buckets@[b as int]@,
                    len == source.len(),
                    bucket_wf(source, b as int),
                    forall|q: Position| #[trigger]
                        self.spec_get(q) == (if place(source, q, 0) < i {
                            Some(merged(start.spec_get(q), source[place(source, q, 0)].1))
                        } else {
                            start.spec_get(q)
                        }),
                decreases len - i,
            {
                let entry = other.buckets[b][i];
                let ghost before = *self;
                self.upsert(&entry.0, entry.1);
                proof {
                    assert forall|q: Position| #[trigger]
                        self.spec_get(q) == (if place(source, q, 0) < i + 1 {
                            Some(merged(start.spec_get(q), source[place(source, q, 0)].1))
                        } else {
                            start.spec_get(q)
                        }) by {
                        lemma_place(source, q, 0);
                        if q == entry.0 {
                            Self::lemma_place_at(source, q, i as int, 0);
                        } else {
                            assert(before.spec_get(q) == self.spec_get(q));
                            if place(source, q, 0) == i {
                                assert(source[i as int].0 == q);
                            }
                        }
                    }
                }
                i += 1;
            }
            other.buckets[b] = Vec::new();
            proof {
                assert forall|q: Position| #[trigger]
                    self.spec_get(q) == (if bucket_of(q) < b + 1 {
                        match old(other).spec_get(q) {
                            Some(entry) => Some(merged(old(self).spec_get(q), entry)),
                            None => old(self).spec_get(q),
                        }
                    } else {
                        old(self).spec_get(q)
                    }) by {
                    lemma_place(source, q, 0);
                    if bucket_of(q) != b {
                        if place(source, q, 0) < source.len() {
                            assert(bucket_of(source[place(source, q, 0)].0) == b);
                        }
                    }
                }
            }
            b += 1;
        }
    }

    /// Takes over every entry of `other`, merged with what this table
    /// holds for its position; `other` stays as it is.
    pub fn merge(&mut self, other: &Table)
        requires
            old(self).wf(),
            other.wf(),
        ensures
            final(self).wf(),
            forall|q: Position| #[trigger]
                final(self).spec_get(q) == taken_over(old(self).spec_get(q), other.spec_get(q)),
    {
        let mut b: usize = 0;
        while b < BUCKETS
            invariant
                b <= BUCKETS,
                self.wf(),
                other.buckets@.len() == BUCKETS,
                other.wf(),
                forall|q: Position| #[trigger]
                    self.spec_get(q) == (if bucket_of(q) < b {
                        match other.spec_get(q) {
                            Some(entry) => Some(merged(old(self).spec_get(q), entry)),
                            None => old(self).spec_get(q),
                        }
                    } else {
                        old(self).spec_get(q)
                    }),
            decreases BUCKETS - b,
        {
            let len = other.buckets[b].len();
            let ghost source = other.buckets@[b as int]@;
            let ghost start = *self;
            let mut i: usize = 0;
            proof {
                assert forall|q: Position| #[trigger]
                    self.spec_get(q) == (if place(source, q, 0) < 0 {
                        Some(merged(start.spec_get(q), source[place(source, q, 0)].1))
                    } else {
                        start.spec_get(q)
                    }) by {
                    lemma_place(source, q, 0);
                }
            }
            while i < len
                invariant
                    i <= len,
                    b < BUCKETS,
                    self.wf(),
                    other.buckets@.len() == BUCKETS,
                    source == other.buckets@[b as int]@,
                    len == source.len(),
                    bucket_wf(source, b as int),
                    forall|q: Position| #[trigger]
                        self.spec_get(q) == (if place(source, q, 0) < i {
                            Some(merged(start.spec_get(q), source[place(source, q, 0)].1))
                        } else {
                            start.spec_get(q)
                        }),
                decreases len - i,
            {
                let entry = other.buckets[b][i];
                let ghost before = *self;
                self.upsert(&entry.0, entry.1);
                proof {
                    assert forall|q: Position| #[trigger]
                        self.spec_get(q) == (if place(source, q, 0) < i + 1 {
                            Some(merged(start.spec_get(q), source[place(source, q, 0)].1))
                        } else {
                            start.spec_get(q)
                        }) by {
                        lemma_place(source, q, 0);
                        if q == entry.0 {
                            Self::lemma_place_at(source, q, i as int, 0);
                        } else {
                            assert(before.spec_get(q) == self.spec_get(q));
                            if place(source, q, 0) == i {
                                assert(source[i as int].0 == q);
                            }
                        }
                    }
                }
                i += 1;
            }
            proof {
                assert forall|q: Position| #[trigger]
                    self.spec_get(q) == (if bucket_of(q) < b + 1 {
                        match other.spec_get(q) {
                            Some(entry) => Some(merged(old(self).spec_get(q), entry)),
                            None => old(self).spec_get(q),
                        }
                    } else {
                        old(self).spec_get(q)
                    }) by {
                    lemma_place(source, q, 0);
                    if bucket_of(q) != b {
                        if place(source, q, 0) < source.len() {
                            assert(bucket_of(source[place(source, q, 0)].0) == b);
                        }
                    }
                }
            }
            b += 1;
        }
    }
}

} // verus!

//! Moves: origin, landing field and the set of captured fields.

use super::position::Field;
use super::text::push_decimal;
use vstd::prelude::*;
use vstd::string::*;

verus! {

/// A number of captures.
pub type Captures = u8;

/// The field value that stands for "no field".
pub const NULL_FIELD: Field = 50;

/// The largest number of captures that one move can hold.
pub const MAX_TAKEN: usize = 12;

/// Whether `s` is in ascending (non-strict) order.
pub open spec fn ascending(s: Seq<Field>) -> bool {
    forall|i: int, j: int| 0 <= i < j < s.len() ==> s[i] <= s[j]
}

/// Whether `s` is in strictly ascending order, hence without repetition.
pub open spec fn strictly_ascending(s: Seq<Field>) -> bool {
    forall|i: int, j: int| 0 <= i < j < s.len() ==> s[i] < s[j]
}

/// The index of the first element of `s` at or after `i` that exceeds `v`,
/// or the length of `s` if there is none.
pub open spec fn first_greater(s: Seq<Field>, v: Field, i: int) -> int
    decreases s.len() - i,
{
    if i < 0 || i >= s.len() {
        s.len() as int
    } else if s[i] > v {
        i
    } else {
        first_greater(s, v, i + 1)
    }
}

/// `s` with `v` inserted in front of the first element that exceeds it.
pub open spec fn insert_ascending(s: Seq<Field>, v: Field) -> Seq<Field> {
    s.insert(first_greater(s, v, 0), v)
}

/// Where the first element that exceeds `v` stands: none in front of it
/// exceeds `v`.
pub proof fn lemma_first_greater(s: Seq<Field>, v: Field, i: int)
    requires
        0 <= i <= s.len(),
    ensures
        i <= first_greater(s, v, i) <= s.len(),
        forall|k: int| i <= k < first_greater(s, v, i) ==> s[k] <= v,
        first_greater(s, v, i) < s.len() ==> s[first_greater(s, v, i)] > v,
    decreases s.len() - i,
{
    if i < s.len() && s[i] <= v {
        lemma_first_greater(s, v, i + 1);
    }
}

/// What inserting does to the elements: those in front of the place stay,
/// the new one stands at the place, those behind move up by one.
pub proof fn lemma_insert_index(s: Seq<Field>, p: int, v: Field)
    requires
        0 <= p <= s.len(),
    ensures
        s.insert(p, v).len() == s.len() + 1,
        forall|k: int| 0 <= k < p ==> #[trigger] s.insert(p, v)[k] == s[k],
        s.insert(p, v)[p] == v,
        forall|k: int| p < k <= s.len() ==> #[trigger] s.insert(p, v)[k] == s[k - 1],
{
}

/// Inserting adds exactly the new element.
pub proof fn lemma_insert_contains(s: Seq<Field>, p: int, v: Field)
    requires
        0 <= p <= s.len(),
    ensures
        forall|x: Field| #[trigger] s.insert(p, v).contains(x) <==> (x == v || s.contains(x)),
{
    let r = s.insert(p, v);
    lemma_insert_index(s, p, v);
    assert forall|x: Field| #[trigger] r.contains(x) <==> (x == v || s.contains(x)) by {
        if r.contains(x) {
            let k = choose|k: int| 0 <= k < r.len() && r[k] == x;
            if k < p {
                assert(s[k] == x);
            } else if k > p {
                assert(s[k - 1] == x);
            }
        }
        if s.contains(x) {
            let k = choose|k: int| 0 <= k < s.len() && s[k] == x;
            if k < p {
                assert(r[k] == x);
            } else {
                assert(r[k + 1] == x);
            }
        }
        if x == v {
            assert(r[p] == x);
        }
    }
}

/// Inserting into an ascending sequence, in front of the first element that
/// exceeds the new one, keeps it ascending.
pub proof fn lemma_insert_sorted(s: Seq<Field>, v: Field)
    requires
        ascending(s),
    ensures
        ascending(insert_ascending(s, v)),
{
    let p = first_greater(s, v, 0);
    let r = insert_ascending(s, v);
    lemma_first_greater(s, v, 0);
    lemma_insert_index(s, p, v);
    assert forall|i: int, j: int| 0 <= i < j < r.len() implies r[i] <= r[j] by {
        if j < p {
            assert(r[i] == s[i] && r[j] == s[j]);
        } else if j == p {
            assert(r[i] == s[i]);
        } else if i < p {
            assert(r[i] == s[i] && r[j] == s[j - 1]);
        } else if i == p {
            assert(r[j] == s[j - 1]);
            assert(s[p] <= s[j - 1] || j - 1 == p);
        } else {
            assert(r[i] == s[i - 1] && r[j] == s[j - 1]);
        }
    }
}

/// Inserting a new element into a strictly ascending sequence keeps it
/// strictly ascending.
pub proof fn lemma_insert_strict(s: Seq<Field>, v: Field)
    requires
        strictly_ascending(s),
        !s.contains(v),
    ensures
        strictly_ascending(insert_ascending(s, v)),
{
    let p = first_greater(s, v, 0);
    let r = insert_ascending(s, v);
    lemma_first_greater(s, v, 0);
    lemma_insert_index(s, p, v);
    assert forall|i: int, j: int| 0 <= i < j < r.len() implies r[i] < r[j] by {
        if j < p {
            assert(r[i] == s[i] && r[j] == s[j]);
        } else if j == p {
            assert(r[i] == s[i]);
            assert(s.contains(s[i]));
        } else if i < p {
            assert(r[i] == s[i] && r[j] == s[j - 1]);
        } else if i == p {
            assert(r[j] == s[j - 1]);
            assert(s.contains(s[j - 1]));
            assert(s[p] <= s[j - 1] || j - 1 == p);
        } else {
            assert(r[i] == s[i - 1] && r[j] == s[j - 1]);
        }
    }
}

/// Inserting into an ascending sequence keeps it ascending and adds exactly
/// the new element.
pub proof fn lemma_insert_ascending(s: Seq<Field>, v: Field)
    requires
        ascending(s),
    ensures
        ascending(insert_ascending(s, v)),
        insert_ascending(s, v).len() == s.len() + 1,
        insert_ascending(s, v).to_multiset() == s.to_multiset().insert(v),
        forall|x: Field| #[trigger]
            insert_ascending(s, v).contains(x) <==> (x == v || s.contains(x)),
        strictly_ascending(s) && !s.contains(v) ==> strictly_ascending(insert_ascending(s, v)),
{
    let p = first_greater(s, v, 0);
    lemma_first_greater(s, v, 0);
    lemma_insert_index(s, p, v);
    vstd::seq_lib::to_multiset_insert(s, p, v);
    lemma_insert_sorted(s, v);
    lemma_insert_contains(s, p, v);
    if strictly_ascending(s) && !s.contains(v) {
        assert(ascending(s));
        lemma_insert_strict(s, v);
    }
}

/// Two strictly ascending sequences with the same elements are the same
/// sequence.
pub proof fn lemma_strictly_ascending_unique(a: Seq<Field>, b: Seq<Field>)
    requires
        strictly_ascending(a),
        strictly_ascending(b),
        forall|x: Field| a.contains(x) <==> b.contains(x),
    ensures
        a == b,
    decreases a.len(),
{
    if a.len() == 0 {
        if b.len() > 0 {
            assert(b.contains(b[0]));
        }
        assert(a =~= b);
    } else {
        assert(a.contains(a[0]));
        assert(b.len() > 0);
        assert(b.contains(b[0]));
        // The least elements coincide.
        let i = choose|i: int| 0 <= i < b.len() && b[i] == a[0];
        let j = choose|j: int| 0 <= j < a.len() && a[j] == b[0];
        assert(a[0] == b[0]);
        let a1 = a.drop_first();
        let b1 = b.drop_first();
        assert forall|x: Field| a1.contains(x) <==> b1.contains(x) by {
            if a1.contains(x) {
                let k = choose|k: int| 0 <= k < a1.len() && a1[k] == x;
                assert(a[k + 1] == x);
                assert(a.contains(x));
                let m = choose|m: int| 0 <= m < b.len() && b[m] == x;
                assert(m != 0);
                assert(b1[m - 1] == x);
            }
            if b1.contains(x) {
                let k = choose|k: int| 0 <= k < b1.len() && b1[k] == x;
                assert(b[k + 1] == x);
                assert(b.contains(x));
                let m = choose|m: int| 0 <= m < a.len() && a[m] == x;
                assert(m != 0);
                assert(a1[m - 1] == x);
            }
        }
        assert(strictly_ascending(a1)) by {
            assert forall|i: int, j: int| 0 <= i < j < a1.len() implies a1[i] < a1[j] by {
                assert(a1[i] == a[i + 1] && a1[j] == a[j + 1]);
            }
        }
        assert(strictly_ascending(b1)) by {
            assert forall|i: int, j: int| 0 <= i < j < b1.len() implies b1[i] < b1[j] by {
                assert(b1[i] == b[i + 1] && b1[j] == b[j + 1]);
            }
        }
        lemma_strictly_ascending_unique(a1, b1);
        assert(a =~= seq![a[0]] + a1);
        assert(b =~= seq![b[0]] + b1);
    }
}

/// A move: the piece on `from` lands on `to` and captures the pieces on the
/// fields in `taken`, which are kept in ascending order so that two moves are
/// equal exactly when origin, landing field and captured fields coincide.
#[derive(Clone, Copy, Debug, Eq, PartialOrd, Ord)]
pub struct Move {
    from: Field,
    to: Field,
    num_taken: Captures,
    taken: [Field; 12],
}

impl PartialEq for Move {
    fn eq(&self, other: &Move) -> (result: bool) {
        if self.from != other.from || self.to != other.to || self.num_taken != other.num_taken {
            return false;
        }
        let mut i: usize = 0;
        while i < 12
            invariant
                i <= 12,
                self.from == other.from,
                self.to == other.to,
                self.num_taken == other.num_taken,
                forall|k: int| 0 <= k < i ==> self.taken@[k] == other.taken@[k],
            decreases 12 - i,
        {
            if self.taken[i] != other.taken[i] {
                return false;
            }
            i += 1;
        }
        assert(self.taken =~= other.taken);
        true
    }
}

impl vstd::std_specs::cmp::PartialEqSpecImpl for Move {
    open spec fn obeys_eq_spec() -> bool {
        true
    }

    open spec fn eq_spec(&self, other: &Move) -> bool {
        *self == *other
    }
}

impl Move {
    /// The invariant of a move: at most twelve captures, held in ascending
    /// order in the front of the array, the rest of which is padding.
    pub closed spec fn wf(&self) -> bool {
        &&& self.num_taken <= 12
        &&& self.taken@.len() == 12
        &&& forall|i: int| self.num_taken <= i < 12 ==> self.taken@[i] == NULL_FIELD
        &&& ascending(self.taken@.subrange(0, self.num_taken as int))
    }

    /// The field that the piece leaves.
    pub closed spec fn spec_from(&self) -> Field {
        self.from
    }

    /// The field on which the piece lands.
    pub closed spec fn spec_to(&self) -> Field {
        self.to
    }

    /// The number of captured fields.
    pub closed spec fn spec_num_taken(&self) -> Captures {
        self.num_taken
    }

    /// The captured fields in ascending order.
    pub closed spec fn captured(&self) -> Seq<Field> {
        self.taken@.subrange(0, self.num_taken as int)
    }

    /// Whether this is the move that is no move: from nowhere to nowhere.
    pub open spec fn is_null(&self) -> bool {
        self.wf() && self.spec_from() == NULL_FIELD && self.spec_to() == NULL_FIELD
            && self.spec_num_taken() == 0
    }

    /// Whether no field is captured twice.
    pub open spec fn distinct(&self) -> bool {
        strictly_ascending(self.captured())
    }

    /// What the invariant says of the captured fields.
    pub proof fn lemma_wf(&self)
        requires
            self.wf(),
        ensures
            self.captured().len() == self.spec_num_taken(),
            self.spec_num_taken() <= MAX_TAKEN,
            ascending(self.captured()),
    {
    }

    /// Moves are equal exactly when origin, landing field and captured
    /// fields coincide.
    pub proof fn lemma_eq(a: Move, b: Move)
        requires
            a.wf(),
            b.wf(),
            a.spec_from() == b.spec_from(),
            a.spec_to() == b.spec_to(),
            a.captured() == b.captured(),
        ensures
            a == b,
    {
        assert(a.num_taken == b.num_taken);
        assert forall|i: int| 0 <= i < 12 implies a.taken@[i] == b.taken@[i] by {
            if i < a.num_taken {
                assert(a.captured().len() == a.num_taken);
                assert(a.captured()[i] == a.taken@[i]);
                assert(b.captured()[i] == b.taken@[i]);
                assert(a.captured()[i] == b.captured()[i]);
            } else {
                assert(a.taken@[i] == NULL_FIELD);
                assert(b.taken@[i] == NULL_FIELD);
            }
        }
        assert(a.taken =~= b.taken);
    }

    /// Moves without a repeated capture are equal exactly when origin,
    /// landing field and the set of captured fields coincide.
    pub proof fn lemma_eq_by_set(a: Move, b: Move)
        requires
            a.wf(),
            b.wf(),
            a.distinct(),
            b.distinct(),
            a.spec_from() == b.spec_from(),
            a.spec_to() == b.spec_to(),
            forall|x: Field| a.captured().contains(x) <==> b.captured().contains(x),
        ensures
            a == b,
    {
        lemma_strictly_ascending_unique(a.captured(), b.captured());
        Self::lemma_eq(a, b);
    }

    /// A move without captures.
    pub fn shift(from: Field, to: Field) -> (result: Move)
        ensures
            result.wf(),
            result.spec_from() == from,
            result.spec_to() == to,
            result.spec_num_taken() == 0,
            result.captured() == Seq::<Field>::empty(),
    {
        let result = Move { from, to, num_taken: 0, taken: [NULL_FIELD;12] };
        assert(result.captured() =~= Seq::<Field>::empty());
        result
    }

    /// A move that captures the piece on `over`.
    pub fn take_one(from: Field, to: Field, over: Field) -> (result: Move)
        ensures
            result.wf(),
            result.spec_from() == from,
            result.spec_to() == to,
            result.spec_num_taken() == 1,
            result.captured() == seq![over],
    {
        let mut taken = [NULL_FIELD;12];
        taken[0] = over;
        let result = Move { from, to, num_taken: 1, taken };
        assert(result.captured() =~= seq![over]);
        result
    }

    /// A move that captures the pieces on the fields of `over`, given in any
    /// order.
    pub fn take(from: Field, to: Field, over: &[Field]) -> (result: Move)
        requires
            over@.len() <= MAX_TAKEN,
        ensures
            result.wf(),
            result.spec_from() == from,
            result.spec_to() == to,
            result.spec_num_taken() == over@.len(),
            ascending(result.captured()),
            result.captured().to_multiset() == over@.to_multiset(),
    {
        let mut result = Move::shift(from, to);
        let mut i: usize = 0;
        assert(over@.subrange(0, 0) =~= Seq::<Field>::empty());
        while i < over.len()
            invariant
                i <= over@.len() <= MAX_TAKEN,
                result.wf(),
                result.spec_from() == from,
                result.spec_to() == to,
                result.spec_num_taken() == i,
                result.captured().to_multiset() == over@.subrange(0, i as int).to_multiset(),
            decreases over@.len() - i,
        {
            proof {
                vstd::seq_lib::to_multiset_build(over@.subrange(0, i as int), over@[i as int]);
                assert(over@.subrange(0, i as int).push(over@[i as int]) =~= over@.subrange(
                    0,
                    i + 1,
                ));
            }
            result = result.take_more(over[i], to);
            i += 1;
        }
        assert(over@.subrange(0, i as int) =~= over@);
        result
    }

    /// This move prolonged by one capture: the piece jumps on over `over` and
    /// lands on `to`.
    pub fn take_more(&self, over: Field, to: Field) -> (result: Move)
        requires
            self.wf(),
            self.spec_num_taken() < MAX_TAKEN,
        ensures
            result.wf(),
            result.spec_from() == self.spec_from(),
            result.spec_to() == to,
            result.spec_num_taken() == self.spec_num_taken() + 1,
            result.captured() == insert_ascending(self.captured(), over),
            result.captured().to_multiset() == self.captured().to_multiset().insert(over),
            forall|x: Field| #[trigger]
                result.captured().contains(x) <==> (x == over || self.captured().contains(x)),
            self.distinct() && !self.captured().contains(over) ==> result.distinct(),
    {
        let n: usize = self.num_taken as usize;
        let ghost s = self.captured();
        let mut p: usize = 0;
        while p < n && self.taken[p] <= over
            invariant
                p <= n == s.len() <= 11,
                s == self.captured(),
                self.wf(),
                first_greater(s, over, 0) == first_greater(s, over, p as int),
            decreases n - p,
        {
            p += 1;
        }
        proof {
            lemma_first_greater(s, over, 0);
            assert(first_greater(s, over, 0) == p);
            lemma_insert_ascending(s, over);
        }
        let mut taken = self.taken;
        let mut j: usize = n;
        while j > p
            invariant
                p <= j <= n == s.len() <= 11,
                s == self.captured(),
                forall|k: int| 0 <= k <= j ==> taken@[k] == self.taken@[k],
                forall|k: int| j < k <= n ==> taken@[k] == self.taken@[k - 1],
                forall|k: int| n < k < 12 ==> taken@[k] == self.taken@[k],
            decreases j,
        {
            taken[j] = taken[j - 1];
            j -= 1;
        }
        taken[p] = over;
        let result = Move { from: self.from, to, num_taken: self.num_taken + 1, taken };
        proof {
            assert(result.captured() =~= s.insert(p as int, over));
            assert(result.captured() == insert_ascending(s, over));
            lemma_insert_ascending(s, over);
            assert forall|x: Field|
                result.captured().contains(x) <==> (x == over || self.captured().contains(
                    x,
                )) by {
                assert(insert_ascending(s, over).contains(x) <==> (x == over || s.contains(x)));
            }
        }
        result
    }

    /// The move that is no move: from nowhere to nowhere.
    pub fn null() -> (result: Move)
        ensures
            result.is_null(),
            result.wf(),
            result.spec_from() == NULL_FIELD,
            result.spec_to() == NULL_FIELD,
            result.spec_num_taken() == 0,
            result.captured() == Seq::<Field>::empty(),
    {
        Move::shift(NULL_FIELD, NULL_FIELD)
    }

    /// The field that the piece leaves.
    #[verifier::when_used_as_spec(spec_from)]
    pub fn from(&self) -> (result: Field)
        ensures
            result == self.spec_from(),
    {
        self.from
    }

    /// The field on which the piece lands.
    #[verifier::when_used_as_spec(spec_to)]
    pub fn to(&self) -> (result: Field)
        ensures
            result == self.spec_to(),
    {
        self.to
    }

    /// The number of captured fields.
    #[verifier::when_used_as_spec(spec_num_taken)]
    pub fn num_taken(&self) -> (result: Captures)
        ensures
            result == self.spec_num_taken(),
    {
        self.num_taken
    }

    /// The captured fields in ascending order.
    pub fn taken(&self) -> (result: &[Field])
        requires
            self.wf(),
        ensures
            result@ == self.captured(),
    {
        let all = self.taken.as_slice();
        let n: usize = self.num_taken as usize;
        &all[0..n]
    }

    /// Whether the piece on `over` is captured by this move.
    pub fn goes_via(&self, over: Field) -> (result: bool)
        requires
            self.wf(),
        ensures
            result == self.captured().contains(over),
    {
        let n: usize = self.num_taken as usize;
        let mut i: usize = 0;
        while i < n
            invariant
                self.wf(),
                i <= n == self.captured().len() <= 12,
                forall|k: int| 0 <= k < i ==> self.captured()[k] != over,
            decreases n - i,
        {
            if self.taken[i] == over {
                assert(self.captured()[i as int] == over);
                return true;
            }
            i += 1;
        }
        false
    }

    /// The notation of origin and landing field: `-` between them for a
    /// step, `x` for a capture; fields are counted from one.
    pub open spec fn spec_string(&self) -> Seq<char> {
        super::text::decimal((self.spec_from() + 1) as nat).push(
            if self.spec_num_taken() == 0 {
                '-'
            } else {
                'x'
            },
        ) + super::text::decimal((self.spec_to() + 1) as nat)
    }

    /// The notation of the captured fields from index `i` on: each as `x`
    /// and its number, counted from one.
    pub open spec fn spec_captures_string(s: Seq<Field>, i: int) -> Seq<char>
        decreases s.len() - i,
    {
        if i < 0 || i >= s.len() {
            Seq::<char>::empty()
        } else {
            seq!['x'] + super::text::decimal((s[i] + 1) as nat) + Self::spec_captures_string(
                s,
                i + 1,
            )
        }
    }

    /// The full notation: origin and landing field, then every captured
    /// field.
    pub open spec fn spec_full_string(&self) -> Seq<char> {
        self.spec_string() + Self::spec_captures_string(self.captured(), 0)
    }

    /// The notation of origin and landing field.
    pub fn as_string(&self) -> (result: String)
        requires
            self.spec_from() < usize::MAX,
            self.spec_to() < usize::MAX,
        ensures
            result@ == self.spec_string(),
    {
        let mut result = String::new();
        push_decimal(&mut result, self.from + 1);
        result.push(if self.num_taken == 0 { '-' } else { 'x' });
        push_decimal(&mut result, self.to + 1);
        assert(result@ =~= self.spec_string());
        result
    }

    /// The full notation: origin and landing field, then every captured field.
    pub fn as_full_string(&self) -> (result: String)
        requires
            self.wf(),
            self.spec_from() < usize::MAX,
            self.spec_to() < usize::MAX,
            forall|i: int| 0 <= i < self.captured().len() ==> self.captured()[i] < usize::MAX,
        ensures
            result@ == self.spec_full_string(),
    {
        let n: usize = self.num_taken as usize;
        let ghost s = self.captured();
        let mut result = self.as_string();
        let mut k: usize = 0;
        while k < n
            invariant
                k <= n == s.len() <= 12,
                s == self.captured(),
                self.wf(),
                forall|i: int| 0 <= i < s.len() ==> s[i] < usize::MAX,
                result@ + Self::spec_captures_string(s, k as int) == self.spec_full_string(),
            decreases n - k,
        {
            let ghost before = result@;
            result.push('x');
            push_decimal(&mut result, self.taken[k] + 1);
            proof {
                assert(self.taken@[k as int] == s[k as int]);
                assert(result@ + Self::spec_captures_string(s, k + 1) =~= before
                    + Self::spec_captures_string(s, k as int));
            }
            k += 1;
        }
        assert(result@ =~= result@ + Self::spec_captures_string(s, k as int));
        result
    }
}

} // verus!

//! Ordered keys, sorted vectors and a sorted map.

use vstd::prelude::*;
use vstd::utf8;

verus! {

/// Lexicographic order on byte sequences.
pub open spec fn bytes_before(a: Seq<u8>, b: Seq<u8>) -> bool
    decreases a.len(),
{
    if b.len() == 0 {
        false
    } else if a.len() == 0 {
        true
    } else {
        a[0] < b[0] || (a[0] == b[0] && bytes_before(a.skip(1), b.skip(1)))
    }
}

pub proof fn lemma_bytes_irreflexive(a: Seq<u8>)
    ensures
        !bytes_before(a, a),
    decreases a.len(),
{
    if a.len() > 0 {
        lemma_bytes_irreflexive(a.skip(1));
    }
}

pub proof fn lemma_bytes_transitive(a: Seq<u8>, b: Seq<u8>, c: Seq<u8>)
    requires
        bytes_before(a, b),
        bytes_before(b, c),
    ensures
        bytes_before(a, c),
    decreases a.len(),
{
    if a.len() > 0 && b.len() > 0 && c.len() > 0 && a[0] == b[0] && b[0] == c[0] {
        lemma_bytes_transitive(a.skip(1), b.skip(1), c.skip(1));
    }
}

pub proof fn lemma_bytes_total(a: Seq<u8>, b: Seq<u8>)
    ensures
        bytes_before(a, b) || a == b || bytes_before(b, a),
    decreases a.len(),
{
    if a.len() > 0 && b.len() > 0 && a[0] == b[0] {
        lemma_bytes_total(a.skip(1), b.skip(1));
        if a.skip(1) == b.skip(1) {
            assert(a =~= b) by {
                assert forall|i: int| 0 <= i < a.len() implies a[i] == b[i] by {
                    if i > 0 {
                        assert(a.skip(1)[i - 1] == b.skip(1)[i - 1]);
                    }
                }
            }
        }
    } else if a.len() == 0 && b.len() == 0 {
        assert(a =~= b);
    }
}

/// Whether `a` comes before `b`.
fn bytes_precede(a: &[u8], b: &[u8]) -> (before: bool)
    ensures
        before == bytes_before(a@, b@),
{
    let mut i: usize = 0;
    assert(a@.skip(0) =~= a@);
    assert(b@.skip(0) =~= b@);
    while i < a.len() && i < b.len() && a[i] == b[i]
        invariant
            i <= a@.len(),
            i <= b@.len(),
            bytes_before(a@, b@) == bytes_before(a@.skip(i as int), b@.skip(i as int)),
        decreases a@.len() - i,
    {
        assert(a@.skip(i as int).skip(1) =~= a@.skip(i + 1));
        assert(b@.skip(i as int).skip(1) =~= b@.skip(i + 1));
        i = i + 1;
    }
    if i == b.len() {
        false
    } else if i == a.len() {
        true
    } else {
        a[i] < b[i]
    }
}

/// A key with a strict total order on its values.
pub trait Key: Sized {
    /// What the key stands for.
    type Value;

    spec fn value(&self) -> Self::Value;

    /// Whether `a` comes before `b`.
    spec fn before(a: Self::Value, b: Self::Value) -> bool;

    proof fn before_irreflexive(a: Self::Value)
        ensures
            !Self::before(a, a),
    ;

    proof fn before_transitive(a: Self::Value, b: Self::Value, c: Self::Value)
        requires
            Self::before(a, b),
            Self::before(b, c),
        ensures
            Self::before(a, c),
    ;

    proof fn before_total(a: Self::Value, b: Self::Value)
        ensures
            Self::before(a, b) || a == b || Self::before(b, a),
    ;

    fn precedes(&self, other: &Self) -> (before: bool)
        ensures
            before == Self::before(self.value(), other.value()),
    ;

    fn duplicate(&self) -> (copy: Self)
        ensures
            copy.value() == self.value(),
    ;
}

impl Key for u32 {
    type Value = u32;

    open spec fn value(&self) -> u32 {
        *self
    }

    open spec fn before(a: u32, b: u32) -> bool {
        a < b
    }

    proof fn before_irreflexive(a: u32) {
    }

    proof fn before_transitive(a: u32, b: u32, c: u32) {
    }

    proof fn before_total(a: u32, b: u32) {
    }

    fn precedes(&self, other: &u32) -> (before: bool) {
        *self < *other
    }

    fn duplicate(&self) -> (copy: u32) {
        *self
    }
}

impl Key for u64 {
    type Value = u64;

    open spec fn value(&self) -> u64 {
        *self
    }

    open spec fn before(a: u64, b: u64) -> bool {
        a < b
    }

    proof fn before_irreflexive(a: u64) {
    }

    proof fn before_transitive(a: u64, b: u64, c: u64) {
    }

    proof fn before_total(a: u64, b: u64) {
    }

    fn precedes(&self, other: &u64) -> (before: bool) {
        *self < *other
    }

    fn duplicate(&self) -> (copy: u64) {
        *self
    }
}

/// Strings are ordered by their UTF-8 bytes.
impl Key for String {
    type Value = Seq<char>;

    open spec fn value(&self) -> Seq<char> {
        self@
    }

    open spec fn before(a: Seq<char>, b: Seq<char>) -> bool {
        bytes_before(utf8::encode_utf8(a), utf8::encode_utf8(b))
    }

    proof fn before_irreflexive(a: Seq<char>) {
        lemma_bytes_irreflexive(utf8::encode_utf8(a));
    }

    proof fn before_transitive(a: Seq<char>, b: Seq<char>, c: Seq<char>) {
        lemma_bytes_transitive(utf8::encode_utf8(a), utf8::encode_utf8(b), utf8::encode_utf8(c));
    }

    proof fn before_total(a: Seq<char>, b: Seq<char>) {
        lemma_bytes_total(utf8::encode_utf8(a), utf8::encode_utf8(b));
        utf8::encode_utf8_decode_utf8(a);
        utf8::encode_utf8_decode_utf8(b);
    }

    fn precedes(&self, other: &String) -> (before: bool) {
        bytes_precede(self.as_str().as_bytes(), other.as_str().as_bytes())
    }

    fn duplicate(&self) -> (copy: String) {
        self.clone()
    }
}

/// Pairs are ordered by their first component, then by their second.
impl<A: Key, B: Key> Key for (A, B) {
    type Value = (A::Value, B::Value);

    open spec fn value(&self) -> (A::Value, B::Value) {
        (self.0.value(), self.1.value())
    }

    open spec fn before(a: (A::Value, B::Value), b: (A::Value, B::Value)) -> bool {
        A::before(a.0, b.0) || (a.0 == b.0 && B::before(a.1, b.1))
    }

    proof fn before_irreflexive(a: (A::Value, B::Value)) {
        A::before_irreflexive(a.0);
        B::before_irreflexive(a.1);
    }

    proof fn before_transitive(
        a: (A::Value, B::Value),
        b: (A::Value, B::Value),
        c: (A::Value, B::Value),
    ) {
        if A::before(a.0, b.0) && A::before(b.0, c.0) {
            A::before_transitive(a.0, b.0, c.0);
        }
        if B::before(a.1, b.1) && B::before(b.1, c.1) {
            B::before_transitive(a.1, b.1, c.1);
        }
    }

    proof fn before_total(a: (A::Value, B::Value), b: (A::Value, B::Value)) {
        A::before_total(a.0, b.0);
        B::before_total(a.1, b.1);
    }

    fn precedes(&self, other: &(A, B)) -> (before: bool) {
        proof {
            A::before_total(self.0.value(), other.0.value());
            A::before_irreflexive(self.0.value());
            if A::before(self.0.value(), other.0.value()) && A::before(
                other.0.value(),
                self.0.value(),
            ) {
                A::before_transitive(self.0.value(), other.0.value(), self.0.value());
            }
        }
        if self.0.precedes(&other.0) {
            true
        } else if other.0.precedes(&self.0) {
            false
        } else {
            self.1.precedes(&other.1)
        }
    }

    fn duplicate(&self) -> (copy: (A, B)) {
        (self.0.duplicate(), self.1.duplicate())
    }
}

/// Two keys of which neither precedes the other stand for the same.
pub fn same_key<K: Key>(a: &K, b: &K) -> (same: bool)
    ensures
        same == (a.value() == b.value()),
{
    proof {
        K::before_total(a.value(), b.value());
        K::before_irreflexive(a.value());
    }
    !a.precedes(b) && !b.precedes(a)
}

/// What the keys stand for, in order.
pub open spec fn values_of<K: Key>(keys: Seq<K>) -> Seq<K::Value> {
    keys.map_values(|key: K| key.value())
}

/// No key comes before an earlier one.
pub open spec fn ascending<K: Key>(values: Seq<K::Value>) -> bool {
    forall|i: int, j: int|
        #![trigger values[i], values[j]]
        0 <= i < j < values.len() ==> !K::before(values[j], values[i])
}

/// Puts `key` where it belongs among ascending keys.
pub fn insert_sorted<K: Key>(keys: &mut Vec<K>, key: K)
    requires
        ascending::<K>(values_of(old(keys)@)),
    ensures
        ascending::<K>(values_of(final(keys)@)),
        values_of(final(keys)@).to_multiset() == values_of(old(keys)@).to_multiset().insert(
            key.value(),
        ),
{
    let ghost before = values_of(keys@);
    let ghost value = key.value();
    let mut at: usize = keys.len();
    while at > 0 && key.precedes(&keys[at - 1])
        invariant
            at <= keys@.len(),
            value == key.value(),
            before == values_of(keys@),
            forall|i: int| at <= i < keys@.len() ==> K::before(value, #[trigger] before[i]),
        decreases at,
    {
        at = at - 1;
        assert(before[at as int] == keys@[at as int].value());
    }
    proof {
        if at > 0 {
            assert(before[at - 1] == keys@[at - 1].value());
        }
        assert forall|i: int| 0 <= i < at implies !K::before(value, #[trigger] before[i]) by {
            let last = before[at - 1];
            if i < at - 1 && K::before(value, before[i]) {
                K::before_total(before[i], last);
                if K::before(before[i], last) {
                    K::before_transitive(value, before[i], last);
                }
            }
        }
    }
    keys.insert(at, key);
    proof {
        let after = values_of(keys@);
        assert(after =~= before.insert(at as int, value));
        vstd::seq_lib::to_multiset_insert(before, at as int, value);
        assert forall|i: int, j: int|
            #![trigger after[i], after[j]]
            0 <= i < j < after.len() implies !K::before(after[j], after[i]) by {
            if i == at {
                assert(K::before(value, before[j - 1]));
                if K::before(after[j], after[i]) {
                    K::before_transitive(value, before[j - 1], value);
                    K::before_irreflexive(value);
                }
            } else if j != at {
                let old_i = if i < at {
                    i
                } else {
                    i - 1
                };
                let old_j = if j < at {
                    j
                } else {
                    j - 1
                };
                assert(!K::before(before[old_j], before[old_i]));
            } else {
                assert(!K::before(value, before[i]));
            }
        }
    }
}

/// Whether no two keys stand for the same.
pub fn all_distinct<K: Key>(keys: &Vec<K>) -> (distinct: bool)
    ensures
        distinct == values_of(keys@).no_duplicates(),
{
    let ghost values = values_of(keys@);
    let mut i: usize = 0;
    while i < keys.len()
        invariant
            i <= keys@.len(),
            values == values_of(keys@),
            forall|a: int, b: int|
                #![trigger values[a], values[b]]
                0 <= a < i && 0 <= b < a ==> values[a] != values[b],
        decreases keys@.len() - i,
    {
        let mut j: usize = 0;
        while j < i
            invariant
                j <= i < keys@.len(),
                values == values_of(keys@),
                forall|b: int| 0 <= b < j ==> #[trigger] values[b] != values[i as int],
            decreases i - j,
        {
            assert(values[i as int] == keys@[i as int].value());
            assert(values[j as int] == keys@[j as int].value());
            if same_key(&keys[i], &keys[j]) {
                return false;
            }
            j = j + 1;
        }
        i = i + 1;
    }
    assert forall|a: int, b: int|
        0 <= a < values.len() && 0 <= b < values.len() && a != b implies values[a] != values[b] by {
        if a < b {
            assert(values[b] != values[a]);
        } else {
            assert(values[a] != values[b]);
        }
    }
    true
}

/// Each comes before the next.
pub open spec fn strictly_ascending<K: Key>(values: Seq<K::Value>) -> bool {
    forall|i: int, j: int|
        #![trigger values[i], values[j]]
        0 <= i < j < values.len() ==> K::before(values[i], values[j])
}

/// Whether `values` is the set in order.
pub open spec fn enumerates<K: Key>(values: Seq<K::Value>, set: Set<K::Value>) -> bool {
    &&& strictly_ascending::<K>(values)
    &&& forall|value: K::Value| #[trigger] set.contains(value) <==> values.contains(value)
}

/// The members of a set in order.
pub open spec fn in_order<K: Key>(set: Set<K::Value>) -> Seq<K::Value> {
    choose|values: Seq<K::Value>| enumerates::<K>(values, set)
}

/// Two strictly ascending sequences of the same values agree up to any length that both have.
proof fn lemma_agree<K: Key>(a: Seq<K::Value>, b: Seq<K::Value>, set: Set<K::Value>, count: int)
    requires
        enumerates::<K>(a, set),
        enumerates::<K>(b, set),
        0 <= count <= a.len(),
    ensures
        count <= b.len(),
        forall|i: int| 0 <= i < count ==> a[i] == b[i],
    decreases count,
{
    if count > 0 {
        let n = count - 1;
        lemma_agree::<K>(a, b, set, n);
        assert(a.contains(a[n]));
        assert(set.contains(a[n]));
        assert(b.contains(a[n]));
        let j = choose|j: int| 0 <= j < b.len() && b[j] == a[n];
        K::before_irreflexive(a[n]);
        if j < n {
            assert(K::before(a[j], a[n]));
        }
        if j > n {
            assert(b.contains(b[n]));
            assert(set.contains(b[n]));
            assert(a.contains(b[n]));
            let k = choose|k: int| 0 <= k < a.len() && a[k] == b[n];
            assert(K::before(b[n], b[j]));
            K::before_irreflexive(b[n]);
            if k < n {
                assert(K::before(b[k], b[n]));
            } else if k > n {
                assert(K::before(a[n], a[k]));
                K::before_transitive(a[n], b[n], a[n]);
            }
        }
    }
}

/// A set is put in order in one way only.
pub proof fn lemma_in_order<K: Key>(values: Seq<K::Value>, set: Set<K::Value>)
    requires
        enumerates::<K>(values, set),
    ensures
        in_order::<K>(set) == values,
{
    let other = in_order::<K>(set);
    lemma_agree::<K>(values, other, set, values.len() as int);
    lemma_agree::<K>(other, values, set, other.len() as int);
    assert(values =~= other);
}

/// Where a value stands among others that do not hold it.
proof fn lemma_rank<K: Key>(values: Seq<K::Value>, value: K::Value) -> (rank: int)
    requires
        strictly_ascending::<K>(values),
        !values.contains(value),
    ensures
        0 <= rank <= values.len(),
        forall|i: int| 0 <= i < rank ==> K::before(#[trigger] values[i], value),
        forall|i: int| rank <= i < values.len() ==> K::before(value, #[trigger] values[i]),
    decreases values.len(),
{
    if values.len() == 0 {
        0
    } else {
        let last = values.last();
        K::before_total(last, value);
        assert(values.contains(last));
        if K::before(last, value) {
            assert forall|i: int| 0 <= i < values.len() implies K::before(
                #[trigger] values[i],
                value,
            ) by {
                if i < values.len() - 1 {
                    K::before_transitive(values[i], last, value);
                }
            }
            values.len() as int
        } else {
            let fewer = values.drop_last();
            assert forall|i: int| 0 <= i < fewer.len() implies #[trigger] fewer[i] != value by {
                assert(values.contains(values[i]));
            }
            let rank = lemma_rank::<K>(fewer, value);
            assert forall|i: int| 0 <= i < rank implies K::before(#[trigger] values[i], value) by {
                assert(fewer[i] == values[i]);
            }
            assert forall|i: int| rank <= i < values.len() implies K::before(
                value,
                #[trigger] values[i],
            ) by {
                if i < fewer.len() {
                    assert(fewer[i] == values[i]);
                }
            }
            rank
        }
    }
}

/// Every finite set can be put in order.
pub proof fn lemma_finite_order<K: Key>(set: Set<K::Value>)
    requires
        set.finite(),
    ensures
        enumerates::<K>(in_order::<K>(set), set),
    decreases set.len(),
{
    if set.len() == 0 {
        let none = Seq::<K::Value>::empty();
        assert forall|value: K::Value| #[trigger] set.contains(value) implies none.contains(
            value,
        ) by {
            assert(set =~= Set::<K::Value>::empty());
        }
        assert(enumerates::<K>(none, set));
    } else {
        let value = set.choose();
        let rest = set.remove(value);
        lemma_finite_order::<K>(rest);
        let others = in_order::<K>(rest);
        assert(!rest.contains(value));
        let rank = lemma_rank::<K>(others, value);
        let all = others.insert(rank, value);
        assert forall|i: int, j: int|
            #![trigger all[i], all[j]]
            0 <= i < j < all.len() implies K::before(all[i], all[j]) by {
            if i != rank && j != rank {
                let a = if i < rank { i } else { i - 1 };
                let b = if j < rank { j } else { j - 1 };
                assert(K::before(others[a], others[b]));
            }
        }
        assert forall|found: K::Value| #[trigger] set.contains(found) <==> all.contains(found) by {
            if set.contains(found) {
                if found == value {
                    assert(all[rank] == found);
                } else {
                    assert(rest.contains(found));
                    let i = choose|i: int| 0 <= i < others.len() && others[i] == found;
                    if i < rank {
                        assert(all[i] == found);
                    } else {
                        assert(all[i + 1] == found);
                    }
                }
            }
            if all.contains(found) {
                let i = choose|i: int| 0 <= i < all.len() && all[i] == found;
                if i != rank {
                    let a = if i < rank { i } else { i - 1 };
                    assert(others[a] == found);
                    assert(others.contains(found));
                    assert(rest.contains(found));
                }
            }
        }
        assert(enumerates::<K>(all, set));
    }
}

/// A set has as many members as its order.
pub proof fn lemma_order_len<K: Key>(values: Seq<K::Value>, set: Set<K::Value>)
    requires
        enumerates::<K>(values, set),
    ensures
        set.finite(),
        set.len() == values.len(),
{
    assert forall|i: int, j: int| 0 <= i < values.len() && 0 <= j < values.len() && i != j implies values[i]
        != values[j] by {
        K::before_irreflexive(values[i]);
        if i < j {
            assert(K::before(values[i], values[j]));
        } else {
            assert(K::before(values[j], values[i]));
        }
    }
    assert(values.no_duplicates());
    assert(values.to_set() =~= set);
    values.unique_seq_to_set();
}

/// A map with its keys in order.
pub struct SortedMap<K: Key, V> {
    pub keys: Vec<K>,
    pub values: Vec<V>,
}

impl<K: Key, V> View for SortedMap<K, V> {
    type V = Map<K::Value, V>;

    open spec fn view(&self) -> Map<K::Value, V> {
        Map::new(
            |key: K::Value| self.key_values().contains(key),
            |key: K::Value| self.values@[self.key_values().index_of(key)],
        )
    }
}

impl<K: Key, V> SortedMap<K, V> {
    /// The keys in order.
    pub open spec fn key_values(self) -> Seq<K::Value> {
        self.keys@.map_values(|key: K| key.value())
    }

    /// The keys are strictly ascending and there is a value for each.
    pub open spec fn wf(self) -> bool {
        &&& self.keys@.len() == self.values@.len()
        &&& forall|i: int, j: int|
            #![trigger self.keys@[i], self.keys@[j]]
            0 <= i < j < self.keys@.len() ==> K::before(
                self.keys@[i].value(),
                self.keys@[j].value(),
            )
    }

    /// Each key stands at one place, and the map gives its value there.
    pub proof fn lemma_at(self, i: int)
        requires
            self.wf(),
            0 <= i < self.keys@.len(),
        ensures
            self.key_values()[i] == self.keys@[i].value(),
            self@.dom().contains(self.keys@[i].value()),
            self@[self.keys@[i].value()] == self.values@[i],
    {
        let key = self.keys@[i].value();
        let found = self.key_values().index_of(key);
        assert(self.key_values()[i] == key);
        assert(self.key_values().contains(key));
        assert(self.key_values()[found] == key);
        if found != i {
            K::before_irreflexive(key);
            if found < i {
                assert(K::before(self.keys@[found].value(), self.keys@[i].value()));
            } else {
                assert(K::before(self.keys@[i].value(), self.keys@[found].value()));
            }
        }
    }

    /// A key of the map stands at some place.
    pub proof fn lemma_place(self, key: K::Value) -> (i: int)
        requires
            self@.dom().contains(key),
        ensures
            0 <= i < self.keys@.len(),
            self.keys@[i].value() == key,
    {
        let i = self.key_values().index_of(key);
        assert(self.key_values()[i] == key);
        i
    }

    /// No key stands at two places.
    pub proof fn lemma_distinct(self)
        requires
            self.wf(),
        ensures
            forall|i: int, j: int|
                #![trigger self.keys@[i], self.keys@[j]]
                0 <= i < self.keys@.len() && 0 <= j < self.keys@.len() && self.keys@[i].value()
                    == self.keys@[j].value() ==> i == j,
    {
        assert forall|i: int, j: int|
            #![trigger self.keys@[i], self.keys@[j]]
            0 <= i < self.keys@.len() && 0 <= j < self.keys@.len() && self.keys@[i].value()
                == self.keys@[j].value() implies i == j by {
            K::before_irreflexive(self.keys@[i].value());
            if i < j {
                assert(K::before(self.keys@[i].value(), self.keys@[j].value()));
            } else if j < i {
                assert(K::before(self.keys@[j].value(), self.keys@[i].value()));
            }
        }
    }

    /// The keys of the map, in order.
    pub proof fn lemma_ordered(self)
        requires
            self.wf(),
        ensures
            enumerates::<K>(self.key_values(), self@.dom()),
            in_order::<K>(self@.dom()) == self.key_values(),
            self@.dom().finite(),
            self@.dom().len() == self.keys@.len(),
    {
        let keys = self.key_values();
        assert forall|i: int, j: int|
            #![trigger keys[i], keys[j]]
            0 <= i < j < keys.len() implies K::before(keys[i], keys[j]) by {
            assert(K::before(self.keys@[i].value(), self.keys@[j].value()));
        }
        lemma_in_order::<K>(keys, self@.dom());
        lemma_order_len::<K>(keys, self@.dom());
    }

    pub fn new() -> (map: Self)
        ensures
            map.wf(),
            map@ == Map::<K::Value, V>::empty(),
            map.keys@.len() == 0,
    {
        let map = SortedMap { keys: Vec::new(), values: Vec::new() };
        assert(map@ =~= Map::<K::Value, V>::empty());
        map
    }

    pub fn len(&self) -> (len: usize)
        ensures
            len == self.keys@.len(),
    {
        self.keys.len()
    }

    /// The place of the first key that does not precede `key`.
    fn lower_bound(&self, key: &K) -> (at: usize)
        requires
            self.wf(),
        ensures
            at <= self.keys@.len(),
            forall|i: int|
                0 <= i < at ==> K::before(#[trigger] self.keys@[i].value(), key.value()),
            forall|i: int|
                at <= i < self.keys@.len() ==> !K::before(
                    #[trigger] self.keys@[i].value(),
                    key.value(),
                ),
    {
        let mut at: usize = 0;
        while at < self.keys.len() && self.keys[at].precedes(key)
            invariant
                at <= self.keys@.len(),
                forall|i: int|
                    0 <= i < at ==> K::before(#[trigger] self.keys@[i].value(), key.value()),
            decreases self.keys@.len() - at,
        {
            at = at + 1;
        }
        proof {
            assert forall|i: int| at <= i < self.keys@.len() implies !K::before(
                #[trigger] self.keys@[i].value(),
                key.value(),
            ) by {
                if i > at && K::before(self.keys@[i].value(), key.value()) {
                    assert(K::before(self.keys@[at as int].value(), self.keys@[i].value()));
                    K::before_transitive(
                        self.keys@[at as int].value(),
                        self.keys@[i].value(),
                        key.value(),
                    );
                }
            }
        }
        at
    }

    /// The place of `key`, where the map has it.
    pub fn find(&self, key: &K) -> (place: Option<usize>)
        requires
            self.wf(),
        ensures
            match place {
                Some(i) => {
                    &&& i < self.keys@.len()
                    &&& self.keys@[i as int].value() == key.value()
                    &&& self@.dom().contains(key.value())
                    &&& self@[key.value()] == self.values@[i as int]
                },
                None => !self@.dom().contains(key.value()),
            },
    {
        let at: usize = self.lower_bound(key);
        if at < self.keys.len() && !key.precedes(&self.keys[at]) {
            proof {
                K::before_total(self.keys@[at as int].value(), key.value());
                self.lemma_at(at as int);
            }
            Some(at)
        } else {
            proof {
                if self@.dom().contains(key.value()) {
                    let i = self.lemma_place(key.value());
                    K::before_irreflexive(key.value());
                    if i > at {
                        assert(K::before(self.keys@[at as int].value(), self.keys@[i].value()));
                    }
                }
            }
            None
        }
    }

    pub fn get(&self, key: &K) -> (value: Option<&V>)
        requires
            self.wf(),
        ensures
            match value {
                Some(found) => self@.dom().contains(key.value()) && *found == self@[key.value()],
                None => !self@.dom().contains(key.value()),
            },
    {
        match self.find(key) {
            Some(i) => Some(&self.values[i]),
            None => None,
        }
    }

    pub fn contains_key(&self, key: &K) -> (contained: bool)
        requires
            self.wf(),
        ensures
            contained == self@.dom().contains(key.value()),
    {
        self.find(key).is_some()
    }

    /// Sets the value of `key`.
    pub fn insert(&mut self, key: K, value: V)
        requires
            old(self).wf(),
        ensures
            final(self).wf(),
            final(self)@ == old(self)@.insert(key.value(), value),
    {
        let at: usize = self.lower_bound(&key);
        let ghost before = *self;
        let ghost k = key.value();
        if at < self.keys.len() && !key.precedes(&self.keys[at]) {
            proof {
                K::before_total(self.keys@[at as int].value(), k);
            }
            self.values.set(at, value);
            proof {
                assert(self.key_values() == before.key_values());
                before.lemma_at(at as int);
                self.lemma_at(at as int);
                assert forall|other: K::Value| #[trigger]
                    before@.dom().contains(other) && other != k implies self@[other]
                    == before@[other] by {
                    let i = before.lemma_place(other);
                    before.lemma_at(i);
                    self.lemma_at(i);
                }
                assert(self@.dom() =~= before@.dom().insert(k));
                assert(self@ =~= before@.insert(k, value));
            }
        } else {
            self.keys.insert(at, key);
            self.values.insert(at, value);
            proof {
                assert forall|i: int, j: int|
                    #![trigger self.keys@[i], self.keys@[j]]
                    0 <= i < j < self.keys@.len() implies K::before(
                    self.keys@[i].value(),
                    self.keys@[j].value(),
                ) by {
                    let old_i = if i < at {
                        i
                    } else {
                        i - 1
                    };
                    let old_j = if j < at {
                        j
                    } else {
                        j - 1
                    };
                    if i != at && j != at {
                        assert(K::before(
                            before.keys@[old_i].value(),
                            before.keys@[old_j].value(),
                        ));
                    } else if i == at {
                        K::before_total(k, before.keys@[old_j].value());
                        if old_j > at {
                            assert(K::before(
                                before.keys@[at as int].value(),
                                before.keys@[old_j].value(),
                            ));
                            K::before_transitive(
                                k,
                                before.keys@[at as int].value(),
                                before.keys@[old_j].value(),
                            );
                        }
                    }
                }
                assert(self.wf());
                self.lemma_at(at as int);
                assert forall|other: K::Value| self@.dom().contains(other) <==> (other == k
                    || before@.dom().contains(other)) by {
                    if self@.dom().contains(other) {
                        let i = self.lemma_place(other);
                        if i < at {
                            before.lemma_at(i);
                        } else if i > at {
                            before.lemma_at(i - 1);
                        }
                    }
                    if before@.dom().contains(other) {
                        let i = before.lemma_place(other);
                        if i < at {
                            self.lemma_at(i);
                        } else {
                            self.lemma_at(i + 1);
                        }
                    }
                }
                assert forall|other: K::Value| #[trigger]
                    before@.dom().contains(other) && other != k implies self@[other]
                    == before@[other] by {
                    let i = before.lemma_place(other);
                    before.lemma_at(i);
                    if i < at {
                        self.lemma_at(i);
                    } else {
                        self.lemma_at(i + 1);
                    }
                }
                assert(self@[k] == value);
                assert(self@.dom() =~= before@.dom().insert(k));
                assert forall|other: K::Value| #[trigger]
                    self@.dom().contains(other) implies self@[other] == before@.insert(
                    k,
                    value,
                )[other] by {
                    if other != k {
                        assert(before@.dom().contains(other));
                    }
                }
                assert(self@ =~= before@.insert(k, value));
            }
        }
    }

    /// Puts `value` at a place, and gives the value that was there.
    pub fn take_value(&mut self, place: usize, value: V) -> (taken: V)
        requires
            old(self).wf(),
            place < old(self).keys@.len(),
        ensures
            final(self).wf(),
            final(self).keys == old(self).keys,
            final(self).values@ == old(self).values@.update(place as int, value),
            taken == old(self).values@[place as int],
    {
        let mut other = value;
        std::mem::swap(&mut self.values[place], &mut other);
        other
    }

    /// Takes `key` and its value out.
    pub fn remove(&mut self, key: &K) -> (value: Option<V>)
        requires
            old(self).wf(),
        ensures
            final(self).wf(),
            final(self)@ == old(self)@.remove(key.value()),
            match value {
                Some(taken) => old(self)@.dom().contains(key.value()) && taken
                    == old(self)@[key.value()],
                None => !old(self)@.dom().contains(key.value()),
            },
    {
        let ghost before = *self;
        let ghost k = key.value();
        match self.find(key) {
            None => {
                assert(self@ =~= before@.remove(k));
                None
            },
            Some(at) => {
                let _ = self.keys.remove(at);
                let taken = self.values.remove(at);
                proof {
                    assert forall|i: int, j: int|
                        #![trigger self.keys@[i], self.keys@[j]]
                        0 <= i < j < self.keys@.len() implies K::before(
                        self.keys@[i].value(),
                        self.keys@[j].value(),
                    ) by {
                        let old_i = if i < at {
                            i
                        } else {
                            i + 1
                        };
                        let old_j = if j < at {
                            j
                        } else {
                            j + 1
                        };
                        assert(K::before(
                            before.keys@[old_i].value(),
                            before.keys@[old_j].value(),
                        ));
                    }
                    assert(self.wf());
                    assert forall|other: K::Value| self@.dom().contains(other) <==> (other != k
                        && before@.dom().contains(other)) by {
                        if self@.dom().contains(other) {
                            let i = self.lemma_place(other);
                            K::before_irreflexive(k);
                            if i < at {
                                before.lemma_at(i);
                                assert(K::before(
                                    before.keys@[i].value(),
                                    before.keys@[at as int].value(),
                                ));
                            } else {
                                before.lemma_at(i + 1);
                                assert(K::before(
                                    before.keys@[at as int].value(),
                                    before.keys@[i + 1].value(),
                                ));
                            }
                        }
                        if other != k && before@.dom().contains(other) {
                            let i = before.lemma_place(other);
                            if i < at {
                                self.lemma_at(i);
                            } else {
                                self.lemma_at(i - 1);
                            }
                        }
                    }
                    assert forall|other: K::Value| #[trigger]
                        before@.dom().contains(other) && other != k implies self@[other]
                        == before@[other] by {
                        let i = before.lemma_place(other);
                        before.lemma_at(i);
                        if i < at {
                            self.lemma_at(i);
                        } else {
                            self.lemma_at(i - 1);
                        }
                    }
                    assert(self@.dom() =~= before@.dom().remove(k));
                    assert forall|other: K::Value| #[trigger]
                        self@.dom().contains(other) implies self@[other] == before@.remove(
                        k,
                    )[other] by {
                        assert(before@.dom().contains(other));
                    }
                    assert(self@ =~= before@.remove(k));
                }
                Some(taken)
            },
        }
    }
}

} // verus!

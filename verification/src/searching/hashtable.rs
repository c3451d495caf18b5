//! Hashing with linear probing: a symbol table backed by a slot array in
//! which every key stays reachable by a forward probe from its hash position,
//! without tombstone markers.  Deleting re-inserts the cluster that follows
//! the cleared slot; the table doubles when half full and halves when an
//! eighth full.

use vstd::prelude::*;
use vstd::arithmetic::div_mod::lemma_fundamental_div_mod_converse;
use vstd::string::StrSliceExecFns;

use crate::searching::spec_get;

verus! {

/// The hash is taken modulo this prime.
pub const HASH_MODULUS: u64 = 1_000_000_007;

/// A deterministic polynomial hash of a key's characters.
pub open spec fn hash_of(s: Seq<char>) -> int
    decreases s.len(),
{
    if s.len() == 0 {
        0
    } else {
        (hash_of(s.drop_last()) * 31 + (s.last() as u64)) % (HASH_MODULUS as int)
    }
}

/// The start probe index of a key in a table of capacity `m`.
pub open spec fn hash_idx(k: Seq<char>, m: int) -> int {
    hash_of(k) % m
}

/// The key held by an occupied slot.
pub open spec fn key_of(o: Option<(String, i64)>) -> Seq<char> {
    (o->0).0@
}

/// The value held by an occupied slot.
pub open spec fn val_of(o: Option<(String, i64)>) -> i64 {
    (o->0).1
}

/// The number of occupied slots.
pub open spec fn occ_count(s: Seq<Option<(String, i64)>>) -> nat
    decreases s.len(),
{
    if s.len() == 0 {
        0
    } else {
        occ_count(s.drop_last()) + if s.last() is Some {
            1nat
        } else {
            0nat
        }
    }
}

/// The map described by a slot array: the bindings of its occupied slots.
pub open spec fn slots_map(s: Seq<Option<(String, i64)>>) -> Map<Seq<char>, i64>
    decreases s.len(),
{
    if s.len() == 0 {
        Map::empty()
    } else {
        let rest = slots_map(s.drop_last());
        if s.last() is Some {
            rest.insert(key_of(s.last()), val_of(s.last()))
        } else {
            rest
        }
    }
}

/// No two occupied slots hold the same key.
pub open spec fn slot_keys_distinct(s: Seq<Option<(String, i64)>>) -> bool {
    forall|i: int, j: int|
        0 <= i < j < s.len() && #[trigger] s[i] is Some && #[trigger] s[j] is Some ==> key_of(s[i])
            != key_of(s[j])
}

proof fn lemma_occ_count_le(s: Seq<Option<(String, i64)>>)
    ensures
        occ_count(s) <= s.len(),
    decreases s.len(),
{
    if s.len() > 0 {
        lemma_occ_count_le(s.drop_last());
    }
}

proof fn lemma_occ_count_all(s: Seq<Option<(String, i64)>>)
    requires
        forall|i: int| 0 <= i < s.len() ==> #[trigger] s[i] is Some,
    ensures
        occ_count(s) == s.len(),
    decreases s.len(),
{
    if s.len() > 0 {
        assert(forall|i: int|
            0 <= i < s.drop_last().len() ==> #[trigger] s.drop_last()[i] is Some);
        lemma_occ_count_all(s.drop_last());
    }
}

proof fn lemma_occ_count_update(s: Seq<Option<(String, i64)>>, i: int, v: Option<(String, i64)>)
    requires
        0 <= i < s.len(),
    ensures
        occ_count(s.update(i, v)) == occ_count(s) + (if v is Some {
            1int
        } else {
            0int
        }) - (if s[i] is Some {
            1int
        } else {
            0int
        }),
    decreases s.len(),
{
    let t = s.update(i, v);
    if i == s.len() - 1 {
        assert(t.drop_last() =~= s.drop_last());
        assert(t.last() == v);
    } else {
        lemma_occ_count_update(s.drop_last(), i, v);
        assert(t.drop_last() =~= s.drop_last().update(i, v));
        assert(t.last() == s.last());
    }
}

proof fn lemma_occ_count_except_one(s: Seq<Option<(String, i64)>>, g: int)
    requires
        forall|x: int| 0 <= x < s.len() && x != g ==> #[trigger] s[x] is Some,
    ensures
        occ_count(s) >= s.len() - 1,
    decreases s.len(),
{
    if s.len() > 0 {
        if g == s.len() - 1 {
            assert(forall|x: int|
                0 <= x < s.drop_last().len() ==> #[trigger] s.drop_last()[x] is Some);
            lemma_occ_count_all(s.drop_last());
        } else {
            assert(forall|x: int|
                0 <= x < s.drop_last().len() && x != g ==> #[trigger] s.drop_last()[x] is Some);
            lemma_occ_count_except_one(s.drop_last(), g);
            assert(s[s.len() - 1] is Some);
        }
    }
}

proof fn lemma_occ_count_prefix(s: Seq<Option<(String, i64)>>, j: int)
    requires
        0 <= j <= s.len(),
    ensures
        occ_count(s.take(j)) <= occ_count(s),
    decreases s.len() - j,
{
    if j == s.len() {
        assert(s.take(j) =~= s);
    } else {
        assert(s.take(j + 1).drop_last() =~= s.take(j));
        lemma_occ_count_prefix(s, j + 1);
    }
}

proof fn lemma_slots_map_dom(s: Seq<Option<(String, i64)>>)
    ensures
        slots_map(s).dom().finite(),
        forall|k: Seq<char>|
            #[trigger] slots_map(s).contains_key(k) <==> exists|j: int|
                0 <= j < s.len() && s[j] is Some && key_of(s[j]) == k,
    decreases s.len(),
{
    if s.len() == 0 {
    } else {
        lemma_slots_map_dom(s.drop_last());
        assert forall|k: Seq<char>| #[trigger]
            slots_map(s).contains_key(k) implies exists|j: int|
            0 <= j < s.len() && s[j] is Some && key_of(s[j]) == k by {
            if s.last() is Some && k == key_of(s.last()) {
                assert(s[s.len() - 1] is Some && key_of(s[s.len() - 1]) == k);
            } else {
                let j = choose|j: int|
                    0 <= j < s.drop_last().len() && s.drop_last()[j] is Some
                        && key_of(s.drop_last()[j]) == k;
                assert(s[j] is Some && key_of(s[j]) == k);
            }
        }
        assert forall|k: Seq<char>| (exists|j: int|
            0 <= j < s.len() && s[j] is Some && key_of(s[j]) == k) implies #[trigger]
            slots_map(s).contains_key(k) by {
            let j = choose|j: int| 0 <= j < s.len() && s[j] is Some && key_of(s[j]) == k;
            if j < s.len() - 1 {
                assert(s.drop_last()[j] is Some && key_of(s.drop_last()[j]) == k);
            }
        }
    }
}

proof fn lemma_slots_map_index(s: Seq<Option<(String, i64)>>, j: int)
    requires
        slot_keys_distinct(s),
        0 <= j < s.len(),
        s[j] is Some,
    ensures
        slots_map(s).contains_key(key_of(s[j])),
        slots_map(s)[key_of(s[j])] == val_of(s[j]),
    decreases s.len(),
{
    if j == s.len() - 1 {
    } else {
        assert(slot_keys_distinct(s.drop_last()));
        assert(s.drop_last()[j] == s[j]);
        lemma_slots_map_index(s.drop_last(), j);
        if s.last() is Some {
            assert(key_of(s[j]) != key_of(s[s.len() - 1]));
        }
    }
}

proof fn lemma_slots_map_len(s: Seq<Option<(String, i64)>>)
    requires
        slot_keys_distinct(s),
    ensures
        slots_map(s).dom().len() == occ_count(s),
    decreases s.len(),
{
    lemma_slots_map_dom(s);
    if s.len() == 0 {
        assert(slots_map(s).dom() =~= Set::<Seq<char>>::empty());
    } else {
        let prefix = s.drop_last();
        assert(slot_keys_distinct(prefix));
        lemma_slots_map_len(prefix);
        lemma_slots_map_dom(prefix);
        if s.last() is Some {
            let k = key_of(s.last());
            assert(!slots_map(prefix).contains_key(k)) by {
                if slots_map(prefix).contains_key(k) {
                    let j = choose|j: int|
                        0 <= j < prefix.len() && prefix[j] is Some && key_of(prefix[j]) == k;
                    assert(s[j] is Some && key_of(s[j]) == key_of(s[s.len() - 1]));
                }
            }
            assert(slots_map(s).dom() =~= slots_map(prefix).dom().insert(k));
            vstd::set::axiom_set_insert_len(slots_map(prefix).dom(), k);
        }
    }
}

proof fn lemma_slots_map_fill(s: Seq<Option<(String, i64)>>, i: int, key: String, v: i64)
    requires
        0 <= i < s.len(),
        s[i] is None,
        forall|j: int| 0 <= j < s.len() && #[trigger] s[j] is Some ==> key_of(s[j]) != key@,
    ensures
        slots_map(s.update(i, Some((key, v)))) == slots_map(s).insert(key@, v),
    decreases s.len(),
{
    let t = s.update(i, Some((key, v)));
    if i == s.len() - 1 {
        assert(t.drop_last() =~= s.drop_last());
        assert(t.last() == Some((key, v)));
    } else {
        assert(forall|j: int|
            0 <= j < s.drop_last().len() && #[trigger] s.drop_last()[j] is Some
                ==> key_of(s.drop_last()[j]) != key@);
        lemma_slots_map_fill(s.drop_last(), i, key, v);
        assert(t.drop_last() =~= s.drop_last().update(i, Some((key, v))));
        assert(t.last() == s.last());
        if s.last() is Some {
            assert(key_of(s[s.len() - 1]) != key@);
            assert(slots_map(t) =~= slots_map(s).insert(key@, v));
        }
    }
}

proof fn lemma_slots_map_overwrite(s: Seq<Option<(String, i64)>>, i: int, key: String, v: i64)
    requires
        slot_keys_distinct(s),
        0 <= i < s.len(),
        s[i] is Some,
        key_of(s[i]) == key@,
    ensures
        slots_map(s.update(i, Some((key, v)))) == slots_map(s).insert(key@, v),
    decreases s.len(),
{
    let t = s.update(i, Some((key, v)));
    if i == s.len() - 1 {
        assert(t.drop_last() =~= s.drop_last());
        assert(t.last() == Some((key, v)));
        assert(slots_map(t) =~= slots_map(s).insert(key@, v));
    } else {
        assert(slot_keys_distinct(s.drop_last()));
        assert(s.drop_last()[i] == s[i]);
        lemma_slots_map_overwrite(s.drop_last(), i, key, v);
        assert(t.drop_last() =~= s.drop_last().update(i, Some((key, v))));
        assert(t.last() == s.last());
        if s.last() is Some {
            assert(key_of(s[i]) != key_of(s[s.len() - 1]));
        }
        assert(slots_map(t) =~= slots_map(s).insert(key@, v));
    }
}

proof fn lemma_slots_map_clear(s: Seq<Option<(String, i64)>>, i: int)
    requires
        slot_keys_distinct(s),
        0 <= i < s.len(),
        s[i] is Some,
    ensures
        slots_map(s.update(i, None)) == slots_map(s).remove(key_of(s[i])),
    decreases s.len(),
{
    let t = s.update(i, None);
    let k = key_of(s[i]);
    if i == s.len() - 1 {
        assert(t.drop_last() =~= s.drop_last());
        lemma_slots_map_dom(s.drop_last());
        assert(!slots_map(s.drop_last()).contains_key(k)) by {
            if slots_map(s.drop_last()).contains_key(k) {
                let j = choose|j: int|
                    0 <= j < s.drop_last().len() && s.drop_last()[j] is Some
                        && key_of(s.drop_last()[j]) == k;
                assert(s[j] is Some && key_of(s[j]) == key_of(s[s.len() - 1]));
            }
        }
        assert(slots_map(t) =~= slots_map(s).remove(k));
    } else {
        assert(slot_keys_distinct(s.drop_last()));
        assert(s.drop_last()[i] == s[i]);
        lemma_slots_map_clear(s.drop_last(), i);
        assert(t.drop_last() =~= s.drop_last().update(i, None));
        assert(t.last() == s.last());
        if s.last() is Some {
            assert(key_of(s[i]) != key_of(s[s.len() - 1]));
        }
        assert(slots_map(t) =~= slots_map(s).remove(k));
    }
}

proof fn lemma_slots_map_all_none(s: Seq<Option<(String, i64)>>)
    requires
        forall|i: int| 0 <= i < s.len() ==> #[trigger] s[i] is None,
    ensures
        slots_map(s) == Map::<Seq<char>, i64>::empty(),
        occ_count(s) == 0,
    decreases s.len(),
{
    if s.len() > 0 {
        assert(forall|i: int|
            0 <= i < s.drop_last().len() ==> #[trigger] s.drop_last()[i] is None);
        lemma_slots_map_all_none(s.drop_last());
        assert(s[s.len() - 1] is None);
    }
}

/// The forward (wrapping) probe distance from slot `a` to slot `b` in a
/// table of capacity `m`.
pub open spec fn pdist(m: int, a: int, b: int) -> int {
    (b - a) % m
}

proof fn lemma_pdist(m: int, a: int, b: int)
    requires
        m > 0,
        0 <= a < m,
        0 <= b < m,
    ensures
        pdist(m, a, b) == if b >= a {
            b - a
        } else {
            b - a + m
        },
        0 <= pdist(m, a, b) < m,
        (pdist(m, a, b) == 0) == (a == b),
{
    if b >= a {
        lemma_fundamental_div_mod_converse(b - a, m, 0, b - a);
    } else {
        lemma_fundamental_div_mod_converse(b - a, m, -1, b - a + m);
    }
}

proof fn lemma_pdist_inj(m: int, a: int, x: int, y: int)
    requires
        m > 0,
        0 <= a < m,
        0 <= x < m,
        0 <= y < m,
        pdist(m, a, x) == pdist(m, a, y),
    ensures
        x == y,
{
    lemma_pdist(m, a, x);
    lemma_pdist(m, a, y);
}

/// A slot `i` strictly between `g` and `j` along the circle (counted from
/// `p`) lies on any probe path from `h` to `j` that already covers `g`.
proof fn lemma_between_forward(m: int, p: int, h: int, g: int, i: int, j: int)
    requires
        m > 0,
        0 <= p < m,
        0 <= h < m,
        0 <= g < m,
        0 <= i < m,
        0 <= j < m,
        pdist(m, h, g) < pdist(m, h, j),
        pdist(m, p, g) < pdist(m, p, i),
        pdist(m, p, i) < pdist(m, p, j),
    ensures
        pdist(m, h, i) < pdist(m, h, j),
{
    lemma_pdist(m, h, g);
    lemma_pdist(m, h, i);
    lemma_pdist(m, h, j);
    lemma_pdist(m, p, g);
    lemma_pdist(m, p, i);
    lemma_pdist(m, p, j);
}

/// A slot `e` beyond `i` along the circle (counted from `p`) lies on any
/// probe path from `h` to `j` that covers `i`, when `j` precedes `i` on the
/// circle.
proof fn lemma_between_wrap(m: int, p: int, h: int, i: int, j: int, e: int)
    requires
        m > 0,
        0 <= p < m,
        0 <= h < m,
        0 <= i < m,
        0 <= j < m,
        0 <= e < m,
        pdist(m, h, i) < pdist(m, h, j),
        pdist(m, p, j) < pdist(m, p, i),
        pdist(m, p, i) < pdist(m, p, e),
    ensures
        pdist(m, h, e) < pdist(m, h, j),
{
    lemma_pdist(m, h, i);
    lemma_pdist(m, h, j);
    lemma_pdist(m, h, e);
    lemma_pdist(m, p, i);
    lemma_pdist(m, p, j);
    lemma_pdist(m, p, e);
}

/// A symbol table implementation based on hashing with linear probing.
#[verifier::ext_equal]
pub struct SymbolTable {
    /// number of key-value pairs in the table
    n: usize,
    /// size of linear-probing table
    m: usize,
    /// symbol table entries
    entries: Vec<Option<(String, i64)>>,
}

impl View for SymbolTable {
    type V = Map<Seq<char>, i64>;

    closed spec fn view(&self) -> Map<Seq<char>, i64> {
        slots_map(self.entries@)
    }
}

impl SymbolTable {
    /// The capacity of the slot array.
    pub closed spec fn spec_cap(self) -> int {
        self.m as int
    }

    /// The live-entry count.
    pub closed spec fn spec_len(self) -> int {
        self.n as int
    }

    spec fn occupied(self, j: int) -> bool {
        self.entries@[j] is Some
    }

    spec fn key_at(self, j: int) -> Seq<char> {
        key_of(self.entries@[j])
    }

    spec fn val_at(self, j: int) -> i64 {
        val_of(self.entries@[j])
    }

    /// The hash position of the key stored in slot `j`.
    spec fn home(self, j: int) -> int {
        hash_idx(self.key_at(j), self.spec_cap())
    }

    spec fn basic(self) -> bool {
        &&& self.m == self.entries@.len()
        &&& self.m >= 4
        &&& self.n == occ_count(self.entries@)
    }

    /// Every slot on the probe path of slot `j` (from its key's hash position
    /// up to, not including, `j`) is occupied, except possibly slot `g`.
    spec fn path_clear(self, j: int, g: int) -> bool {
        forall|x: int|
            0 <= x < self.spec_cap() && x != g && #[trigger] pdist(self.spec_cap(), self.home(j), x)
                < pdist(self.spec_cap(), self.home(j), j) ==> self.occupied(x)
    }

    /// Probe-reachability, allowing slot `g` as the one tolerated hole:
    /// every occupied slot can be probed from its key's hash position.
    spec fn reach_except(self, g: int) -> bool {
        forall|j: int|
            0 <= j < self.spec_cap() && #[trigger] self.occupied(j) ==> self.path_clear(j, g)
    }

    /// The structural invariant: sizes agree, keys are unique, the load
    /// factor is at most one half, and every key is probe-reachable.
    pub closed spec fn wf(self) -> bool {
        &&& self.basic()
        &&& slot_keys_distinct(self.entries@)
        &&& 2 * self.n <= self.m
        &&& self.reach_except(-1)
    }

    /// Constructs a new, empty symbol table.
    pub fn new() -> (r: SymbolTable)
        ensures
            r.wf(),
            r@ == Map::<Seq<char>, i64>::empty(),
            r.spec_cap() == 16,
    {
        let initial_capacity: usize = 16;
        let r = SymbolTable { n: 0, m: initial_capacity, entries: vec![None; initial_capacity] };
        proof {
            lemma_slots_map_all_none(r.entries@);
        }
        r
    }

    /// The start probe index of `key` at the current capacity.
    fn hash(&self, key: &String) -> (h: usize)
        requires
            self.m >= 1,
        ensures
            h == hash_idx(key@, self.spec_cap()),
            h < self.m,
    {
        let code = hash_key(key);
        let h = (code % (self.m as u64)) as usize;
        proof {
            assert(code as int % (self.m as u64) as int == hash_of(key@) % self.spec_cap());
        }
        h
    }

    /// Looks up `key` in the table. If it is present, returns its index and
    /// `true`, if not, returns the index of the empty slot that ends its
    /// probe path and `false`.  Every slot strictly before the returned one
    /// on the probe path is occupied by some other key.
    fn position(&self, key: &String) -> (r: (usize, bool))
        requires
            self.basic(),
            occ_count(self.entries@) < self.entries@.len(),
        ensures
            r.0 < self.m,
            r.1 ==> self.occupied(r.0 as int) && self.key_at(r.0 as int) == key@,
            !r.1 ==> !self.occupied(r.0 as int),
            forall|x: int|
                0 <= x < self.spec_cap() && #[trigger] pdist(
                    self.spec_cap(),
                    hash_idx(key@, self.spec_cap()),
                    x,
                ) < pdist(self.spec_cap(), hash_idx(key@, self.spec_cap()), r.0 as int)
                    ==> self.occupied(x) && self.key_at(x) != key@,
    {
        let m = self.m;
        let h = self.hash(key);
        let ghost hh = h as int;
        let ghost cap = self.spec_cap();
        let mut i = h;
        let ghost mut k: int = 0;
        proof {
            lemma_pdist(cap, hh, hh);
        }
        loop
            invariant
                self.basic(),
                occ_count(self.entries@) < self.entries@.len(),
                m == self.m,
                cap == self.spec_cap(),
                hh == hash_idx(key@, cap),
                0 <= hh < m,
                i < m,
                0 <= k <= m,
                k < m ==> pdist(cap, hh, i as int) == k,
                forall|x: int|
                    0 <= x < cap && #[trigger] pdist(cap, hh, x) < k ==> self.occupied(x)
                        && self.key_at(x) != key@,
            decreases m - k,
        {
            proof {
                if k == m {
                    assert forall|x: int| 0 <= x < cap implies #[trigger] self.entries@[x]
                        is Some by {
                        lemma_pdist(cap, hh, x);
                        assert(pdist(cap, hh, x) < k);
                    }
                    lemma_occ_count_all(self.entries@);
                    assert(false);
                }
            }
            match &self.entries[i] {
                Some(pair) => {
                    if pair.0 == *key {
                        return (i, true);
                    }
                    proof {
                        assert forall|x: int|
                            0 <= x < cap && #[trigger] pdist(cap, hh, x) < k + 1 implies
                            self.occupied(x) && self.key_at(x) != key@ by {
                            lemma_pdist(cap, hh, x);
                            if pdist(cap, hh, x) == k {
                                lemma_pdist_inj(cap, hh, x, i as int);
                            }
                        }
                        k = k + 1;
                    }
                    let ghost i_old = i as int;
                    i = (i + 1) % m;
                    proof {
                        if i_old + 1 < m {
                            lemma_fundamental_div_mod_converse(i_old + 1, m as int, 0, i_old + 1);
                        } else {
                            lemma_fundamental_div_mod_converse(i_old + 1, m as int, 1, 0);
                        }
                        if k < m {
                            lemma_pdist(cap, hh, i_old);
                            lemma_pdist(cap, hh, i as int);
                        }
                    }
                },
                None => {
                    return (i, false);
                },
            }
        }
    }

    /// A probe that ended at an empty slot without meeting `key` proves that
    /// no occupied slot holds `key`.
    proof fn lemma_probe_absent(self, key: Seq<char>, q: int)
        requires
            self.basic(),
            self.reach_except(-1),
            0 <= q < self.spec_cap(),
            !self.occupied(q),
            forall|x: int|
                0 <= x < self.spec_cap() && #[trigger] pdist(
                    self.spec_cap(),
                    hash_idx(key, self.spec_cap()),
                    x,
                ) < pdist(self.spec_cap(), hash_idx(key, self.spec_cap()), q) ==> self.occupied(x)
                    && self.key_at(x) != key,
        ensures
            forall|j: int|
                0 <= j < self.entries@.len() && #[trigger] self.entries@[j] is Some ==> key_of(
                    self.entries@[j],
                ) != key,
    {
        let cap = self.spec_cap();
        let h = hash_idx(key, cap);
        assert forall|j: int|
            0 <= j < self.entries@.len() && #[trigger] self.entries@[j] is Some implies key_of(
            self.entries@[j],
        ) != key by {
            if self.occupied(j) && self.key_at(j) == key {
                assert(self.home(j) == h);
                lemma_pdist(cap, h, j);
                lemma_pdist(cap, h, q);
                if pdist(cap, h, j) < pdist(cap, h, q) {
                    assert(self.key_at(j) != key);
                } else if pdist(cap, h, j) == pdist(cap, h, q) {
                    lemma_pdist_inj(cap, h, j, q);
                } else {
                    assert(self.path_clear(j, -1));
                    assert(self.occupied(q));
                }
            }
        }
    }

    /// Inserts a key known to be absent, probing at the current capacity,
    /// and returns the slot that received it.
    fn insert_no_grow(&mut self, key: String, val: i64) -> (q: usize)
        requires
            old(self).basic(),
            occ_count(old(self).entries@) < old(self).entries@.len(),
            forall|j: int|
                0 <= j < old(self).entries@.len() && #[trigger] old(self).entries@[j] is Some
                    ==> key_of(old(self).entries@[j]) != key@,
        ensures
            final(self).m == old(self).m,
            final(self).n == old(self).n + 1,
            q < old(self).m,
            !old(self).occupied(q as int),
            final(self).entries@ == old(self).entries@.update(q as int, Some((key, val))),
            forall|x: int|
                0 <= x < old(self).spec_cap() && #[trigger] pdist(
                    old(self).spec_cap(),
                    hash_idx(key@, old(self).spec_cap()),
                    x,
                ) < pdist(old(self).spec_cap(), hash_idx(key@, old(self).spec_cap()), q as int)
                    ==> old(self).occupied(x),
    {
        let (q, present) = self.position(&key);
        proof {
            if present {
                assert(self.occupied(q as int) && self.key_at(q as int) == key@);
                assert(false);
            }
        }
        self.entries[q] = Some((key, val));
        self.n = self.n + 1;
        q
    }

    /// Rehashes every entry into a fresh slot array of capacity `new_m`.
    /// Probe positions depend on the capacity, so this is a full rehash.
    fn resize(&mut self, new_m: usize)
        requires
            old(self).wf(),
            new_m >= 4,
            2 * old(self).spec_len() < new_m,
        ensures
            final(self).wf(),
            final(self)@ == old(self)@,
            final(self).spec_cap() == new_m,
            final(self).spec_len() == old(self).spec_len(),
    {
        let mut old_entries: Vec<Option<(String, i64)>> = vec![None; new_m];
        core::mem::swap(&mut self.entries, &mut old_entries);
        self.m = new_m;
        self.n = 0;
        let ghost olds = old_entries@;
        proof {
            lemma_slots_map_all_none(self.entries@);
            lemma_slots_map_dom(olds);
            assert(olds.take(0) =~= Seq::<Option<(String, i64)>>::empty());
        }
        let count = old_entries.len();
        let mut j: usize = 0;
        while j < count
            invariant
                count == olds.len(),
                j <= count,
                olds == old_entries@,
                self.basic(),
                self.m == new_m,
                slot_keys_distinct(self.entries@),
                self.reach_except(-1),
                self@ == slots_map(olds.take(j as int)),
                self.n == occ_count(olds.take(j as int)),
                2 * occ_count(olds) < new_m,
                slot_keys_distinct(olds),
                olds == old(self).entries@,
            decreases count - j,
        {
            proof {
                assert(olds.take(j as int + 1).drop_last() =~= olds.take(j as int));
                assert(olds.take(j as int + 1).last() == olds[j as int]);
                lemma_occ_count_prefix(olds, j as int);
            }
            match &old_entries[j] {
                Some(pair) => {
                    let k2 = pair.0.clone();
                    let v2 = pair.1;
                    proof {
                        lemma_slots_map_dom(olds.take(j as int));
                        assert forall|x: int|
                            0 <= x < self.entries@.len() && #[trigger] self.entries@[x]
                                is Some implies key_of(self.entries@[x]) != k2@ by {
                            if self.occupied(x) && self.key_at(x) == k2@ {
                                lemma_slots_map_index(self.entries@, x);
                                assert(self@.contains_key(k2@));
                                assert(slots_map(olds.take(j as int)).contains_key(k2@));
                                let w = choose|w: int|
                                    0 <= w < olds.take(j as int).len() && olds.take(j as int)[w]
                                        is Some && key_of(olds.take(j as int)[w]) == k2@;
                                assert(olds.take(j as int)[w] == olds[w]);
                                assert(olds[w] is Some && key_of(olds[w]) == key_of(olds[j as int]));
                            }
                        }
                        lemma_occ_count_le(self.entries@);
                    }
                    let ghost before = *self;
                    let q = self.insert_no_grow(k2, v2);
                    proof {
                        lemma_slots_map_fill(before.entries@, q as int, k2, v2);
                        lemma_occ_count_update(before.entries@, q as int, Some((k2, v2)));
                        assert(slot_keys_distinct(self.entries@)) by {
                            assert forall|a: int, b: int|
                                0 <= a < b < self.entries@.len() && #[trigger] self.entries@[a]
                                    is Some && #[trigger] self.entries@[b]
                                    is Some implies key_of(self.entries@[a]) != key_of(
                                self.entries@[b],
                            ) by {
                                if a != q && b != q {
                                    assert(self.entries@[a] == before.entries@[a]);
                                    assert(self.entries@[b] == before.entries@[b]);
                                }
                            }
                        }
                        assert(self.reach_except(-1)) by {
                            assert forall|t: int|
                                0 <= t < self.spec_cap() && #[trigger] self.occupied(
                                    t,
                                ) implies self.path_clear(t, -1) by {
                                if t == q {
                                    assert(self.home(t) == hash_idx(k2@, before.spec_cap()));
                                    assert forall|x: int|
                                        0 <= x < self.spec_cap() && x != -1 && #[trigger] pdist(
                                            self.spec_cap(),
                                            self.home(t),
                                            x,
                                        ) < pdist(self.spec_cap(), self.home(t), t) implies
                                        self.occupied(x) by {
                                        assert(before.occupied(x));
                                    }
                                } else {
                                    assert(before.occupied(t));
                                    assert(before.path_clear(t, -1));
                                    assert(self.home(t) == before.home(t));
                                    assert forall|x: int|
                                        0 <= x < self.spec_cap() && x != -1 && #[trigger] pdist(
                                            self.spec_cap(),
                                            self.home(t),
                                            x,
                                        ) < pdist(self.spec_cap(), self.home(t), t) implies
                                        self.occupied(x) by {
                                        assert(before.occupied(x));
                                    }
                                }
                            }
                        }
                        assert(self@ == slots_map(olds.take(j as int + 1)));
                        assert(self.n == occ_count(olds.take(j as int + 1)));
                    }
                },
                None => {
                    proof {
                        assert(self@ == slots_map(olds.take(j as int + 1)));
                        assert(self.n == occ_count(olds.take(j as int + 1)));
                    }
                },
            }
            j = j + 1;
        }
        proof {
            assert(olds.take(count as int) =~= olds);
            lemma_slots_map_len(olds);
            lemma_slots_map_len(self.entries@);
        }
    }

    /// Adds a key-value pair to the symbol table. If there is already an
    /// element with the same key, its value is updated.  Growth triggers
    /// before the load factor could reach one half, so afterwards the table
    /// is at most half full.
    pub fn put(&mut self, key: String, val: i64)
        requires
            old(self).wf(),
            old(self)@.dom().len() < usize::MAX / 4,
        ensures
            final(self).wf(),
            final(self)@ == old(self)@.insert(key@, val),
            2 * final(self)@.dom().len() <= final(self).spec_cap(),
    {
        proof {
            lemma_slots_map_len(self.entries@);
        }
        let ghost mut grew = false;
        if self.n >= self.m / 2 {
            let new_m = 2 * self.m;
            self.resize(new_m);
            proof {
                grew = true;
            }
        }
        let ghost pre = *self;
        proof {
            lemma_occ_count_le(self.entries@);
        }
        let (i, present) = self.position(&key);
        proof {
            if present {
                lemma_slots_map_overwrite(pre.entries@, i as int, key, val);
            } else {
                pre.lemma_probe_absent(key@, i as int);
                lemma_slots_map_fill(pre.entries@, i as int, key, val);
            }
            lemma_occ_count_update(pre.entries@, i as int, Some((key, val)));
        }
        self.entries[i] = Some((key, val));
        if !present {
            self.n = self.n + 1;
        }
        proof {
            assert(slot_keys_distinct(self.entries@)) by {
                assert forall|a: int, b: int|
                    0 <= a < b < self.entries@.len() && #[trigger] self.entries@[a] is Some
                        && #[trigger] self.entries@[b] is Some implies key_of(self.entries@[a])
                    != key_of(self.entries@[b]) by {
                    if a != i && b != i {
                        assert(self.entries@[a] == pre.entries@[a]);
                        assert(self.entries@[b] == pre.entries@[b]);
                    } else if present {
                        assert(key_of(self.entries@[i as int]) == key_of(pre.entries@[i as int]));
                    }
                }
            }
            assert(self.reach_except(-1)) by {
                assert forall|t: int|
                    0 <= t < self.spec_cap() && #[trigger] self.occupied(t) implies self.path_clear(
                    t,
                    -1,
                ) by {
                    if t == i {
                        assert(self.home(t) == hash_idx(key@, pre.spec_cap()));
                        assert forall|x: int|
                            0 <= x < self.spec_cap() && x != -1 && #[trigger] pdist(
                                self.spec_cap(),
                                self.home(t),
                                x,
                            ) < pdist(self.spec_cap(), self.home(t), t) implies self.occupied(
                            x,
                        ) by {
                            if present {
                                assert(pre.occupied(t));
                                assert(pre.path_clear(t, -1));
                                assert(pre.home(t) == self.home(t));
                                assert(pre.occupied(x));
                            } else {
                                assert(pre.occupied(x));
                            }
                        }
                    } else {
                        assert(pre.occupied(t));
                        assert(pre.path_clear(t, -1));
                        assert(self.home(t) == pre.home(t));
                        assert forall|x: int|
                            0 <= x < self.spec_cap() && x != -1 && #[trigger] pdist(
                                self.spec_cap(),
                                self.home(t),
                                x,
                            ) < pdist(self.spec_cap(), self.home(t), t) implies self.occupied(
                            x,
                        ) by {
                            assert(pre.occupied(x));
                        }
                    }
                }
            }
            assert(2 * self.n <= self.m) by {
                if present {
                    assert(self.n == pre.n);
                } else if grew {
                    assert(2 * pre.n < pre.m);
                } else {
                    assert(pre.n < pre.m / 2);
                }
            }
            lemma_slots_map_len(self.entries@);
        }
    }

    /// Gets the value associated with the given key, or `None`.
    pub fn get(&self, key: &String) -> (r: Option<i64>)
        requires
            self.wf(),
        ensures
            r == spec_get(self@, key@),
    {
        proof {
            lemma_occ_count_le(self.entries@);
        }
        let (i, present) = self.position(key);
        proof {
            lemma_slots_map_dom(self.entries@);
            if present {
                lemma_slots_map_index(self.entries@, i as int);
            } else {
                self.lemma_probe_absent(key@, i as int);
            }
        }
        match &self.entries[i] {
            Some(pair) => Some(pair.1),
            None => None,
        }
    }

    /// True if the symbol table contains the given key.
    pub fn contains(&self, key: &String) -> (r: bool)
        requires
            self.wf(),
        ensures
            r == self@.contains_key(key@),
    {
        proof {
            lemma_occ_count_le(self.entries@);
        }
        let (i, present) = self.position(key);
        proof {
            lemma_slots_map_dom(self.entries@);
            if present {
                lemma_slots_map_index(self.entries@, i as int);
            } else {
                self.lemma_probe_absent(key@, i as int);
            }
        }
        present
    }

    /// True if the symbol table is empty.
    pub fn is_empty(&self) -> (r: bool)
        requires
            self.wf(),
        ensures
            r == (self@.dom().len() == 0),
    {
        proof {
            lemma_slots_map_len(self.entries@);
        }
        self.n == 0
    }

    /// Returns the number of entries in the symbol table.
    pub fn size(&self) -> (r: usize)
        requires
            self.wf(),
        ensures
            r == self@.dom().len(),
    {
        proof {
            lemma_slots_map_len(self.entries@);
        }
        self.n
    }

    /// Returns the capacity of the slot array.
    pub fn capacity(&self) -> (r: usize)
        ensures
            r == self.spec_cap(),
    {
        self.m
    }

    /// Removes the entry with the given key; absent keys are left alone.
    /// The occupied run that follows the cleared slot is re-inserted, which
    /// restores probe-reachability without tombstones; a shrink-triggering
    /// delete leaves the table more than an eighth full.
    #[verifier::rlimit(100)]
    pub fn delete(&mut self, key: &String)
        requires
            old(self).wf(),
        ensures
            final(self).wf(),
            final(self)@ == old(self)@.remove(key@),
            final(self).spec_cap() < old(self).spec_cap() ==> 8 * final(self)@.dom().len()
                > final(self).spec_cap(),
    {
        proof {
            lemma_occ_count_le(self.entries@);
        }
        let (p, present) = self.position(key);
        if !present {
            proof {
                self.lemma_probe_absent(key@, p as int);
                lemma_slots_map_dom(self.entries@);
                assert(self@.remove(key@) =~= self@);
            }
            return ;
        }
        let ghost cap = self.spec_cap();
        let ghost p0 = p as int;
        let ghost pre = *self;
        proof {
            lemma_slots_map_clear(self.entries@, p0);
            lemma_occ_count_update(self.entries@, p0, None);
        }
        self.entries[p] = None;
        self.n = self.n - 1;
        let ghost mut g: int = p0;
        proof {
            lemma_pdist(cap, p0, p0);
            assert(self.reach_except(g)) by {
                assert forall|t: int|
                    0 <= t < cap && #[trigger] self.occupied(t) implies self.path_clear(t, g) by {
                    assert(pre.occupied(t));
                    assert(pre.path_clear(t, -1));
                    assert(self.home(t) == pre.home(t));
                    assert forall|x: int|
                        0 <= x < cap && x != g && #[trigger] pdist(cap, self.home(t), x) < pdist(
                            cap,
                            self.home(t),
                            t,
                        ) implies self.occupied(x) by {
                        assert(pre.occupied(x));
                    }
                }
            }
        }
        let m = self.m;
        let mut i = (p + 1) % m;
        proof {
            if p0 + 1 < m {
                lemma_fundamental_div_mod_converse(p0 + 1, m as int, 0, p0 + 1);
            } else {
                lemma_fundamental_div_mod_converse(p0 + 1, m as int, 1, 0);
            }
            lemma_pdist(cap, p0, i as int);
            assert forall|x: int|
                0 <= x < cap && x != g && #[trigger] pdist(cap, p0, x) < pdist(
                    cap,
                    p0,
                    i as int,
                ) implies self.occupied(x) by {
                lemma_pdist(cap, p0, x);
            }
            assert forall|j: int|
                0 <= j < cap && #[trigger] self.occupied(j) && pdist(cap, self.home(j), g) < pdist(
                    cap,
                    self.home(j),
                    j,
                ) implies pdist(cap, p0, j) >= pdist(cap, p0, i as int) by {
                lemma_pdist(cap, p0, j);
            }
        }
        loop
            invariant
                self.basic(),
                m == self.m,
                cap == self.spec_cap(),
                0 <= p0 < cap,
                occ_count(self.entries@) + 2 <= m,
                2 * occ_count(self.entries@) + 2 <= m,
                slot_keys_distinct(self.entries@),
                self@ == old(self)@.remove(key@),
                0 <= g < cap,
                !self.occupied(g),
                i < m,
                pdist(cap, p0, g) < pdist(cap, p0, i as int),
                forall|x: int|
                    0 <= x < cap && x != g && #[trigger] pdist(cap, p0, x) < pdist(
                        cap,
                        p0,
                        i as int,
                    ) ==> self.occupied(x),
                self.reach_except(g),
                forall|j: int|
                    0 <= j < cap && #[trigger] self.occupied(j) && pdist(cap, self.home(j), g)
                        < pdist(cap, self.home(j), j) ==> pdist(cap, p0, j) >= pdist(
                        cap,
                        p0,
                        i as int,
                    ),
            ensures
                self.basic(),
                m == self.m,
                cap == self.spec_cap(),
                2 * occ_count(self.entries@) + 2 <= m,
                slot_keys_distinct(self.entries@),
                self@ == old(self)@.remove(key@),
                self.reach_except(-1),
            decreases m - pdist(cap, p0, i as int),
        {
            let ghost s0 = *self;
            match &self.entries[i] {
                None => {
                    proof {
                        assert(self.reach_except(-1)) by {
                            assert forall|t: int|
                                0 <= t < cap && #[trigger] self.occupied(
                                    t,
                                ) implies self.path_clear(t, -1) by {
                                assert(self.path_clear(t, g));
                                lemma_pdist(cap, self.home(t), g);
                                lemma_pdist(cap, self.home(t), t);
                                if pdist(cap, self.home(t), g) < pdist(cap, self.home(t), t) {
                                    assert(pdist(cap, p0, t) >= pdist(cap, p0, i as int));
                                    if pdist(cap, p0, t) == pdist(cap, p0, i as int) {
                                        lemma_pdist_inj(cap, p0, t, i as int);
                                    }
                                    lemma_between_forward(cap, p0, self.home(t), g, i as int, t);
                                    assert(self.occupied(i as int));
                                    assert(false);
                                }
                                assert forall|x: int|
                                    0 <= x < cap && x != -1 && #[trigger] pdist(
                                        cap,
                                        self.home(t),
                                        x,
                                    ) < pdist(cap, self.home(t), t) implies self.occupied(x) by {
                                    if x == g {
                                        assert(false);
                                    }
                                }
                            }
                        }
                    }
                    break ;
                },
                Some(pair) => {
                    let k2 = pair.0.clone();
                    let v2 = pair.1;
                    let ghost h2 = hash_idx(k2@, cap);
                    proof {
                        assert(s0 == *self);
                        assert(s0.occupied(i as int));
                        assert(self.home(i as int) == h2);
                        assert(s0.home(i as int) == h2);
                        assert(s0.path_clear(i as int, g));
                        lemma_slots_map_clear(self.entries@, i as int);
                        lemma_slots_map_index(self.entries@, i as int);
                        lemma_occ_count_update(self.entries@, i as int, None);
                    }
                    self.entries[i] = None;
                    self.n = self.n - 1;
                    let ghost s1 = *self;
                    proof {
                        assert forall|w: int|
                            0 <= w < s1.entries@.len() && #[trigger] s1.entries@[w]
                                is Some implies key_of(s1.entries@[w]) != k2@ by {
                            assert(s1.entries@[w] == s0.entries@[w]);
                            assert(s0.entries@[i as int] is Some);
                            if w < i as int {
                                assert(key_of(s0.entries@[w]) != key_of(s0.entries@[i as int]));
                            } else {
                                assert(key_of(s0.entries@[i as int]) != key_of(s0.entries@[w]));
                            }
                        }
                        lemma_occ_count_le(s1.entries@);
                    }
                    let q = self.insert_no_grow(k2, v2);
                    let ghost q0 = q as int;
                    proof {
                        assert(s1.spec_cap() == cap);
                        assert(hash_idx(k2@, s1.spec_cap()) == h2);
                        // the landing slot is the old gap or the slot just
                        // cleared: any other empty slot lies beyond both
                        lemma_pdist(cap, h2, q0);
                        lemma_pdist(cap, h2, i as int);
                        lemma_pdist(cap, h2, g);
                        assert(q0 == g || q0 == i as int) by {
                            if q0 != g && q0 != i as int {
                                if pdist(cap, h2, q0) < pdist(cap, h2, i as int) {
                                    assert(s0.occupied(q0));
                                    assert(s1.occupied(q0));
                                    assert(false);
                                } else if pdist(cap, h2, q0) == pdist(cap, h2, i as int) {
                                    lemma_pdist_inj(cap, h2, q0, i as int);
                                    assert(false);
                                } else {
                                    assert(pdist(cap, h2, i as int) < pdist(cap, h2, q0));
                                    assert(s1.occupied(i as int));
                                    assert(false);
                                }
                            }
                        }
                        lemma_slots_map_fill(s1.entries@, q0, k2, v2);
                        lemma_occ_count_update(s1.entries@, q0, Some((k2, v2)));
                        assert(self@ == old(self)@.remove(key@)) by {
                            assert(s0@[k2@] == v2);
                            assert(self@ =~= s0@);
                        }
                        assert(slot_keys_distinct(self.entries@)) by {
                            assert forall|a: int, b: int|
                                0 <= a < b < self.entries@.len() && #[trigger] self.entries@[a]
                                    is Some && #[trigger] self.entries@[b]
                                    is Some implies key_of(self.entries@[a]) != key_of(
                                self.entries@[b],
                            ) by {
                                if a != q0 && b != q0 {
                                    assert(self.entries@[a] == s1.entries@[a]);
                                    assert(self.entries@[b] == s1.entries@[b]);
                                }
                            }
                        }
                    }
                    proof {
                        if q0 == i as int {
                            // the entry went back to its own slot: the table
                            // is as it was at the head of this iteration
                            assert(k2 == (s0.entries@[i as int]->0).0);
                            assert(v2 == (s0.entries@[i as int]->0).1);
                            assert(self.entries@ =~= s0.entries@);
                            assert(self.n == s0.n && self.m == s0.m);
                            assert(self.reach_except(g)) by {
                                assert forall|t: int|
                                    0 <= t < cap && #[trigger] self.occupied(
                                        t,
                                    ) implies self.path_clear(t, g) by {
                                    assert(s0.occupied(t));
                                    assert(s0.path_clear(t, g));
                                    assert(self.home(t) == s0.home(t));
                                    assert forall|x: int|
                                        0 <= x < cap && x != g && #[trigger] pdist(
                                            cap,
                                            self.home(t),
                                            x,
                                        ) < pdist(cap, self.home(t), t) implies self.occupied(
                                        x,
                                    ) by {
                                        assert(s0.occupied(x));
                                    }
                                }
                            }
                        } else {
                            // the entry filled the gap, which moves to the
                            // slot just cleared
                            assert(q0 == g);
                            assert(!self.occupied(i as int));
                            assert(self.reach_except(i as int)) by {
                                assert forall|t: int|
                                    0 <= t < cap && #[trigger] self.occupied(
                                        t,
                                    ) implies self.path_clear(t, i as int) by {
                                    if t == g {
                                        assert(self.home(t) == h2);
                                        assert forall|x: int|
                                            0 <= x < cap && x != i as int && #[trigger] pdist(
                                                cap,
                                                self.home(t),
                                                x,
                                            ) < pdist(cap, self.home(t), t) implies self.occupied(
                                            x,
                                        ) by {
                                            assert(s1.occupied(x));
                                        }
                                    } else {
                                        assert(s0.occupied(t));
                                        assert(s0.path_clear(t, g));
                                        assert(self.home(t) == s0.home(t));
                                        assert forall|x: int|
                                            0 <= x < cap && x != i as int && #[trigger] pdist(
                                                cap,
                                                self.home(t),
                                                x,
                                            ) < pdist(cap, self.home(t), t) implies self.occupied(
                                            x,
                                        ) by {
                                            if x == g {
                                                assert(self.occupied(g));
                                            } else {
                                                assert(s0.occupied(x));
                                            }
                                        }
                                    }
                                }
                            }
                            g = i as int;
                        }
                    }
                    let ghost i_old = i as int;
                    i = (i + 1) % m;
                    proof {
                        if i_old + 1 < m {
                            lemma_fundamental_div_mod_converse(i_old + 1, m as int, 0, i_old + 1);
                        } else {
                            lemma_fundamental_div_mod_converse(i_old + 1, m as int, 1, 0);
                        }
                        lemma_pdist(cap, p0, i_old);
                        lemma_pdist(cap, p0, i as int);
                        lemma_pdist(cap, p0, g);
                        if pdist(cap, p0, i_old) == m - 1 {
                            assert forall|x: int|
                                0 <= x < cap && x != g implies #[trigger] self.entries@[x]
                                is Some by {
                                lemma_pdist(cap, p0, x);
                                if pdist(cap, p0, x) == pdist(cap, p0, i_old) {
                                    lemma_pdist_inj(cap, p0, x, i_old);
                                }
                                if x == q0 {
                                    assert(self.occupied(x));
                                } else if x == i_old {
                                    assert(self.occupied(x));
                                } else {
                                    assert(s0.occupied(x));
                                    assert(self.occupied(x));
                                }
                            }
                            lemma_occ_count_except_one(self.entries@, g);
                            assert(false);
                        }
                        // the run below the new position is filled
                        assert forall|x: int|
                            0 <= x < cap && x != g && #[trigger] pdist(cap, p0, x) < pdist(
                                cap,
                                p0,
                                i as int,
                            ) implies self.occupied(x) by {
                            lemma_pdist(cap, p0, x);
                            if pdist(cap, p0, x) == pdist(cap, p0, i_old) {
                                lemma_pdist_inj(cap, p0, x, i_old);
                                if g != i_old {
                                    assert(self.occupied(i_old));
                                }
                            }
                        }
                        // keys whose probe path crosses the gap all sit at or
                        // beyond the new position
                        assert forall|j: int|
                            0 <= j < cap && #[trigger] self.occupied(j) && pdist(
                                cap,
                                self.home(j),
                                g,
                            ) < pdist(cap, self.home(j), j) implies pdist(cap, p0, j) >= pdist(
                            cap,
                            p0,
                            i as int,
                        ) by {
                            if q0 == i_old {
                                // gap unchanged; the refilled slot's own probe
                                // path stops short of the gap
                                if j == i_old {
                                    assert(self.home(j) == h2);
                                    lemma_pdist(cap, h2, g);
                                    if pdist(cap, h2, g) < pdist(cap, h2, i_old) {
                                        assert(s1.occupied(g));
                                    }
                                    assert(false);
                                } else {
                                    assert(s0.occupied(j));
                                    assert(s0.home(j) == self.home(j));
                                    assert(pdist(cap, p0, j) >= pdist(cap, p0, i_old));
                                    if pdist(cap, p0, j) == pdist(cap, p0, i_old) {
                                        lemma_pdist_inj(cap, p0, j, i_old);
                                        assert(false);
                                    }
                                }
                            } else {
                                if j == q0 {
                                    assert(self.home(j) == h2);
                                    if pdist(cap, h2, g) < pdist(cap, h2, q0) {
                                        assert(s1.occupied(g));
                                    }
                                    assert(false);
                                } else {
                                    assert(s0.occupied(j));
                                    assert(s0.home(j) == self.home(j));
                                    if pdist(cap, p0, j) < pdist(cap, p0, i_old) {
                                        assert(exists|e: int|
                                            0 <= e < cap && e != g && !(self.entries@[e]
                                                is Some)) by {
                                            if forall|e: int|
                                                0 <= e < cap && e != g
                                                    ==> #[trigger] self.entries@[e] is Some {
                                                lemma_occ_count_except_one(self.entries@, g);
                                                assert(false);
                                            }
                                        }
                                        let e = choose|e: int|
                                            0 <= e < cap && e != g && !(self.entries@[e] is Some);
                                        lemma_pdist(cap, p0, e);
                                        assert(pdist(cap, p0, e) > pdist(cap, p0, i_old)) by {
                                            if pdist(cap, p0, e) == pdist(cap, p0, i_old) {
                                                lemma_pdist_inj(cap, p0, e, i_old);
                                            }
                                            if pdist(cap, p0, e) < pdist(cap, p0, i_old) {
                                                assert(self.occupied(e));
                                            }
                                        }
                                        lemma_between_wrap(cap, p0, self.home(j), g, j, e);
                                        assert(self.path_clear(j, g));
                                        assert(self.occupied(e));
                                        assert(false);
                                    }
                                    if pdist(cap, p0, j) == pdist(cap, p0, i_old) {
                                        lemma_pdist_inj(cap, p0, j, i_old);
                                        assert(!self.occupied(i_old));
                                        assert(false);
                                    }
                                }
                            }
                        }
                    }
                },
            }
        }
        if self.n > 0 && self.n == self.m / 8 {
            let new_m = self.m / 2;
            proof {
                lemma_slots_map_len(self.entries@);
            }
            self.resize(new_m);
            proof {
                lemma_slots_map_len(self.entries@);
            }
        } else {
            proof {
                lemma_slots_map_len(self.entries@);
            }
        }
    }
}

/// A deterministic polynomial hash code for a key.
fn hash_key(key: &String) -> (r: u64)
    ensures
        r as int == hash_of(key@),
        r < HASH_MODULUS,
{
    let n = key.as_str().unicode_len();
    let mut h: u64 = 0;
    let mut i: usize = 0;
    proof {
        assert(key@.subrange(0, 0) =~= Seq::<char>::empty());
    }
    while i < n
        invariant
            n == key@.len(),
            i <= n,
            h < HASH_MODULUS,
            h as int == hash_of(key@.subrange(0, i as int)),
        decreases n - i,
    {
        let c = key.as_str().get_char(i);
        h = (h * 31 + (c as u64)) % HASH_MODULUS;
        proof {
            let pre = key@.subrange(0, i as int);
            let cur = key@.subrange(0, i as int + 1);
            assert(cur.drop_last() =~= pre);
            assert(cur.last() == c);
        }
        i = i + 1;
    }
    proof {
        assert(key@.subrange(0, n as int) =~= key@);
    }
    h
}

} // verus!

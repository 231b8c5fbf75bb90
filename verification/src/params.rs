//! The query parameters of a link: a map from key to value whose entries are
//! kept in ascending key order, as a `BTreeMap<String, String>` keeps them.
use vstd::prelude::*;

use crate::text::{
    chars_eq, chars_lt, chars_of, lemma_seq_lt_irreflexive, lemma_seq_lt_total,
    lemma_seq_lt_transitive, seq_lt,
};

verus! {

/// Entries `(key, value)` as character sequences.
pub type Entries = Seq<(Seq<char>, Seq<char>)>;

/// Keys strictly ascending (hence distinct).
pub open spec fn key_sorted<V>(s: Seq<(Seq<char>, V)>) -> bool {
    forall|i: int, j: int| 0 <= i < j < s.len() ==> seq_lt(#[trigger] s[i].0, #[trigger] s[j].0)
}

/// Ordered-map insertion: the entry for `k` gets value `v`, replacing an
/// existing entry with that key or taking its place in key order.
pub open spec fn insert_sorted<V>(s: Seq<(Seq<char>, V)>, k: Seq<char>, v: V) -> Seq<(Seq<char>, V)>
    decreases s.len(),
{
    if s.len() == 0 {
        seq![(k, v)]
    } else if s[0].0 == k {
        seq![(k, v)] + s.drop_first()
    } else if seq_lt(k, s[0].0) {
        seq![(k, v)] + s
    } else {
        seq![s[0]] + insert_sorted(s.drop_first(), k, v)
    }
}

/// Value of the first entry whose key is `k`.
pub open spec fn lookup<V>(s: Seq<(Seq<char>, V)>, k: Seq<char>) -> Option<V>
    decreases s.len(),
{
    if s.len() == 0 {
        None
    } else if s[0].0 == k {
        Some(s[0].1)
    } else {
        lookup(s.drop_first(), k)
    }
}

/// Query parameters kept in ascending key order with distinct keys.
#[derive(Debug, PartialEq, Eq)]
pub struct Params {
    entries: Vec<(String, String)>,
}

impl View for Params {
    type V = Entries;

    closed spec fn view(&self) -> Entries {
        self.entries@.map_values(|p: (String, String)| (p.0@, p.1@))
    }
}

pub proof fn lemma_insert_at<V>(s: Seq<(Seq<char>, V)>, k: Seq<char>, v: V, j: int)
    requires
        0 <= j <= s.len(),
        forall|i: int| 0 <= i < j ==> seq_lt(#[trigger] s[i].0, k),
        j == s.len() || !seq_lt(s[j].0, k),
    ensures
        insert_sorted(s, k, v) == if j < s.len() && s[j].0 == k {
            s.update(j, (k, v))
        } else {
            s.insert(j, (k, v))
        },
    decreases j,
{
    if j == 0 {
        if s.len() > 0 && s[0].0 != k {
            lemma_seq_lt_total(s[0].0, k);
            assert(s.insert(0, (k, v)) =~= seq![(k, v)] + s);
        } else if s.len() > 0 {
            assert(s.update(0, (k, v)) =~= seq![(k, v)] + s.drop_first());
        } else {
            assert(s.insert(0, (k, v)) =~= seq![(k, v)]);
        }
    } else {
        let t = s.drop_first();
        assert(seq_lt(s[0].0, k));
        if s[0].0 == k {
            lemma_seq_lt_irreflexive(k);
        }
        if seq_lt(k, s[0].0) {
            lemma_seq_lt_transitive(k, s[0].0, k);
            lemma_seq_lt_irreflexive(k);
        }
        assert forall|i: int| 0 <= i < j - 1 implies seq_lt(#[trigger] t[i].0, k) by {
            assert(t[i] == s[i + 1]);
        }
        if j < s.len() {
            assert(t[j - 1] == s[j]);
        }
        lemma_insert_at(t, k, v, j - 1);
        if j < s.len() && s[j].0 == k {
            assert(seq![s[0]] + t.update(j - 1, (k, v)) =~= s.update(j, (k, v)));
        } else {
            assert(seq![s[0]] + t.insert(j - 1, (k, v)) =~= s.insert(j, (k, v)));
        }
    }
}

pub proof fn lemma_insert_sorted_keeps_order<V>(s: Seq<(Seq<char>, V)>, k: Seq<char>, v: V, j: int)
    requires
        key_sorted(s),
        0 <= j <= s.len(),
        forall|i: int| 0 <= i < j ==> seq_lt(#[trigger] s[i].0, k),
        j == s.len() || !seq_lt(s[j].0, k),
    ensures
        key_sorted(insert_sorted(s, k, v)),
{
    lemma_insert_at(s, k, v, j);
    let r = insert_sorted(s, k, v);
    if j < s.len() && s[j].0 == k {
        assert forall|a: int, b: int| 0 <= a < b < r.len() implies seq_lt(
            #[trigger] r[a].0,
            #[trigger] r[b].0,
        ) by {
            if a == j {
                assert(s[j].0 == r[a].0);
            }
            if b == j {
                assert(s[j].0 == r[b].0);
            }
            assert(seq_lt(s[a].0, s[b].0));
        }
    } else {
        if j < s.len() {
            lemma_seq_lt_total(s[j].0, k);
        }
        assert forall|a: int, b: int| 0 <= a < b < r.len() implies seq_lt(
            #[trigger] r[a].0,
            #[trigger] r[b].0,
        ) by {
            if b < j {
                assert(seq_lt(s[a].0, s[b].0));
            } else if b == j {
                assert(r[b].0 == k);
                assert(r[a] == s[a]);
            } else if a < j {
                assert(r[a] == s[a]);
                assert(r[b] == s[b - 1]);
                if b - 1 > j {
                    assert(seq_lt(s[j].0, s[b - 1].0));
                    lemma_seq_lt_transitive(k, s[j].0, s[b - 1].0);
                }
                lemma_seq_lt_transitive(s[a].0, k, s[b - 1].0);
            } else if a == j {
                assert(r[b] == s[b - 1]);
                if b - 1 > j {
                    assert(seq_lt(s[j].0, s[b - 1].0));
                    lemma_seq_lt_transitive(k, s[j].0, s[b - 1].0);
                }
            } else {
                assert(r[a] == s[a - 1]);
                assert(r[b] == s[b - 1]);
                assert(seq_lt(s[a - 1].0, s[b - 1].0));
            }
        }
    }
}

/// Inserting a key above all present keys appends the entry.
pub proof fn lemma_insert_sorted_append<V>(s: Seq<(Seq<char>, V)>, k: Seq<char>, v: V)
    requires
        forall|i: int| 0 <= i < s.len() ==> seq_lt(#[trigger] s[i].0, k),
    ensures
        insert_sorted(s, k, v) == s.push((k, v)),
{
    lemma_insert_at(s, k, v, s.len() as int);
    assert(s.insert(s.len() as int, (k, v)) =~= s.push((k, v)));
}

/// Inserting keeps the keys ascending.
pub proof fn lemma_insert_sorted_sorted<V>(s: Seq<(Seq<char>, V)>, k: Seq<char>, v: V)
    requires
        key_sorted(s),
    ensures
        key_sorted(insert_sorted(s, k, v)),
{
    let j = split_point(s, k);
    lemma_insert_sorted_keeps_order(s, k, v, j);
}

proof fn split_point<V>(s: Seq<(Seq<char>, V)>, k: Seq<char>) -> (j: int)
    requires
        key_sorted(s),
    ensures
        0 <= j <= s.len(),
        forall|i: int| 0 <= i < j ==> seq_lt(#[trigger] s[i].0, k),
        j == s.len() || !seq_lt(s[j].0, k),
    decreases s.len(),
{
    if s.len() == 0 || !seq_lt(s[0].0, k) {
        0
    } else {
        let t = s.drop_first();
        assert forall|a: int, b: int| 0 <= a < b < t.len() implies seq_lt(
            #[trigger] t[a].0,
            #[trigger] t[b].0,
        ) by {
            assert(t[a] == s[a + 1] && t[b] == s[b + 1]);
        }
        let j = split_point(t, k);
        assert forall|i: int| 0 <= i < j + 1 implies seq_lt(#[trigger] s[i].0, k) by {
            if i > 0 {
                assert(s[i] == t[i - 1]);
            }
        }
        if j < t.len() {
            assert(s[j + 1] == t[j]);
        }
        j + 1
    }
}

/// The entries after inserting `(k, v)`: that entry, and every earlier
/// entry with another key; nothing else.
pub proof fn lemma_insert_sorted_members<V>(s: Seq<(Seq<char>, V)>, k: Seq<char>, v: V)
    requires
        key_sorted(s),
    ensures
        insert_sorted(s, k, v).contains((k, v)),
        forall|e: (Seq<char>, V)| #[trigger]
            insert_sorted(s, k, v).contains(e) ==> e == (k, v) || s.contains(e),
        forall|e: (Seq<char>, V)| s.contains(e) && e.0 != k ==> #[trigger] insert_sorted(
            s,
            k,
            v,
        ).contains(e),
{
    let j = split_point(s, k);
    lemma_insert_at(s, k, v, j);
    let r = insert_sorted(s, k, v);
    if j < s.len() && s[j].0 == k {
        assert(r[j] == (k, v));
        assert forall|e: (Seq<char>, V)| #[trigger] r.contains(e) implies e == (k, v) || s.contains(
            e,
        ) by {
            let a = choose|a: int| 0 <= a < r.len() && r[a] == e;
            if a != j {
                assert(s[a] == e);
            }
        }
        assert forall|e: (Seq<char>, V)| s.contains(e) && e.0 != k implies #[trigger] r.contains(
            e,
        ) by {
            let a = choose|a: int| 0 <= a < s.len() && s[a] == e;
            assert(a != j);
            assert(r[a] == e);
        }
    } else {
        assert(r[j] == (k, v));
        assert forall|e: (Seq<char>, V)| #[trigger] r.contains(e) implies e == (k, v) || s.contains(
            e,
        ) by {
            let a = choose|a: int| 0 <= a < r.len() && r[a] == e;
            if a < j {
                assert(s[a] == e);
            } else if a > j {
                assert(s[a - 1] == e);
            }
        }
        assert forall|e: (Seq<char>, V)| s.contains(e) && e.0 != k implies #[trigger] r.contains(
            e,
        ) by {
            let a = choose|a: int| 0 <= a < s.len() && s[a] == e;
            if a < j {
                assert(r[a] == e);
            } else {
                assert(r[a + 1] == e);
            }
        }
    }
}

/// Map semantics: after inserting `(k, v)`, looking up `k` gives `v` and
/// every other key gives what it gave before.
pub proof fn lemma_lookup_insert<V>(s: Seq<(Seq<char>, V)>, k: Seq<char>, v: V, q: Seq<char>)
    requires
        key_sorted(s),
    ensures
        lookup(insert_sorted(s, k, v), q) == if q == k {
            Some(v)
        } else {
            lookup(s, q)
        },
    decreases s.len(),
{
    if s.len() == 0 {
        let r = seq![(k, v)];
        assert(r[0] == (k, v));
        assert(r.drop_first() =~= Seq::<(Seq<char>, V)>::empty());
        assert(lookup(r.drop_first(), q) is None);
    } else {
        let t = s.drop_first();
        assert forall|a: int, b: int| 0 <= a < b < t.len() implies seq_lt(
            #[trigger] t[a].0,
            #[trigger] t[b].0,
        ) by {
            assert(t[a] == s[a + 1] && t[b] == s[b + 1]);
        }
        if s[0].0 == k {
            let r = seq![(k, v)] + t;
            assert(r[0] == (k, v));
            assert(r.drop_first() =~= t);
            if q != k {
                assert(lookup(s, q) == lookup(t, q));
            }
        } else if seq_lt(k, s[0].0) {
            let r = seq![(k, v)] + s;
            assert(r[0] == (k, v));
            assert(r.drop_first() =~= s);
        } else {
            lemma_lookup_insert(t, k, v, q);
            let r = seq![s[0]] + insert_sorted(t, k, v);
            assert(r[0] == s[0]);
            assert(r.drop_first() =~= insert_sorted(t, k, v));
            if q == s[0].0 {
                assert(q != k);
            }
        }
    }
}

impl Params {
    /// A copy with the same entries.
    pub fn duplicate(&self) -> (r: Params)
        ensures
            r@ == self@,
            key_sorted(self@),
    {
        proof {
            use_type_invariant(self);
        }
        let mut entries: Vec<(String, String)> = Vec::new();
        let mut i: usize = 0;
        while i < self.entries.len()
            invariant
                0 <= i <= self.entries@.len(),
                entries@.len() == i,
                forall|k: int| 0 <= k < i ==> #[trigger] entries@[k] == self.entries@[k],
            decreases self.entries.len() - i,
        {
            let e = &self.entries[i];
            entries.push((e.0.clone(), e.1.clone()));
            i = i + 1;
        }
        assert(entries@ =~= self.entries@);
        Params { entries }
    }

    #[verifier::type_invariant]
    spec fn inv(self) -> bool {
        key_sorted(self@)
    }

    /// No parameters.
    pub fn new() -> (r: Params)
        ensures
            r@ == Seq::<(Seq<char>, Seq<char>)>::empty(),
    {
        let r = Params { entries: Vec::new() };
        assert(r@ =~= Seq::<(Seq<char>, Seq<char>)>::empty());
        r
    }

    /// Number of parameters.
    pub fn len(&self) -> (r: usize)
        ensures
            r == self@.len(),
            key_sorted(self@),
    {
        proof {
            use_type_invariant(self);
        }
        self.entries.len()
    }

    /// Whether there are no parameters.
    pub fn is_empty(&self) -> (r: bool)
        ensures
            r == (self@.len() == 0),
            key_sorted(self@),
    {
        proof {
            use_type_invariant(self);
        }
        self.entries.len() == 0
    }

    /// The `i`-th entry in key order.
    pub fn entry(&self, i: usize) -> (r: (&String, &String))
        requires
            i < self@.len(),
        ensures
            (r.0@, r.1@) == self@[i as int],
            key_sorted(self@),
    {
        proof {
            use_type_invariant(self);
        }
        let e = &self.entries[i];
        (&e.0, &e.1)
    }

    /// Value stored under `key`, as `BTreeMap::get` finds it.
    pub fn get(&self, key: &str) -> (r: Option<&String>)
        ensures
            match r {
                Some(v) => lookup(self@, key@) == Some(v@),
                None => lookup(self@, key@) is None,
            },
    {
        let k = chars_of(key);
        let mut i: usize = 0;
        assert(self@.skip(0) =~= self@);
        while i < self.entries.len()
            invariant
                0 <= i <= self@.len(),
                self@.len() == self.entries@.len(),
                k@ == key@,
                lookup(self@, key@) == lookup(self@.skip(i as int), key@),
            decreases self.entries.len() - i,
        {
            let ki = chars_of(self.entries[i].0.as_str());
            proof {
                let t = self@.skip(i as int);
                assert(t[0] == self@[i as int]);
                assert(t.drop_first() =~= self@.skip(i + 1));
            }
            if chars_eq(&ki, &k) {
                return Some(&self.entries[i].1);
            }
            i = i + 1;
        }
        None
    }

    /// Sets `key` to `value`, as `BTreeMap::insert` does.
    pub fn insert(&mut self, key: String, value: String)
        ensures
            final(self)@ == insert_sorted(old(self)@, key@, value@),
            key_sorted(final(self)@),
    {
        proof {
            use_type_invariant(&*self);
        }
        let ghost s = self@;
        let k = chars_of(key.as_str());
        let mut j: usize = 0;
        while j < self.entries.len() && chars_lt(&chars_of(self.entries[j].0.as_str()), &k)
            invariant
                0 <= j <= s.len(),
                s == self@,
                s.len() == self.entries@.len(),
                k@ == key@,
                forall|i: int| 0 <= i < j ==> seq_lt(#[trigger] s[i].0, key@),
            decreases self.entries.len() - j,
        {
            j = j + 1;
        }
        let same = j < self.entries.len() && chars_eq(&chars_of(self.entries[j].0.as_str()), &k);
        proof {
            lemma_insert_at(s, key@, value@, j as int);
            lemma_insert_sorted_keeps_order(s, key@, value@, j as int);
        }
        let mut entries: Vec<(String, String)> = Vec::new();
        std::mem::swap(&mut entries, &mut self.entries);
        if same {
            entries.set(j, (key, value));
        } else {
            entries.insert(j, (key, value));
        }
        assert(entries@.map_values(|p: (String, String)| (p.0@, p.1@)) =~= insert_sorted(
            s,
            key@,
            value@,
        ));
        let r = Params { entries };
        *self = r;
    }
}

} // verus!

//! The harvest's two outputs: an insertion-ordered schema registry and a
//! key-sorted content-type map.  Both overwrite on an existing key — last
//! write wins — and keep their order deterministic.

use vstd::prelude::*;
use crate::text::{lex_leq, str_eq, str_leq};

verus! {

/// Strictly below in the lexicographic order.
pub open spec fn lex_lt(a: Seq<char>, b: Seq<char>) -> bool {
    lex_leq(a, b) && a != b
}

/// Index of the first entry keyed `k`, or the length when there is none.
pub open spec fn key_index<V>(s: Seq<(Seq<char>, V)>, k: Seq<char>) -> int
    decreases s.len(),
{
    if s.len() == 0 {
        0
    } else if s[0].0 == k {
        0
    } else {
        1 + key_index(s.drop_first(), k)
    }
}

/// Insert keyed by `k`: an existing entry keeps its position and takes the
/// new value, a new key goes to the end.
pub open spec fn upsert<V>(s: Seq<(Seq<char>, V)>, k: Seq<char>, v: V) -> Seq<(Seq<char>, V)> {
    if key_index(s, k) < s.len() {
        s.update(key_index(s, k), (k, v))
    } else {
        s.push((k, v))
    }
}

/// The registry of converted schemas, keyed by title, in the order titles
/// first arrived.
#[derive(Debug, PartialEq)]
pub struct SchemaRegistry {
    entries: Vec<(String, openapiv3::Schema)>,
}

impl View for SchemaRegistry {
    type V = Seq<(Seq<char>, openapiv3::Schema)>;

    closed spec fn view(&self) -> Seq<(Seq<char>, openapiv3::Schema)> {
        Seq::new(self.entries@.len(), |i: int| (self.entries@[i].0@, self.entries@[i].1))
    }
}

impl SchemaRegistry {
    /// Titles are unique: an insertion with a present title replaces, never
    /// duplicates.
    pub open spec fn wf(self) -> bool {
        forall|i: int, j: int| 0 <= i < j < self@.len() ==> self@[i].0 != self@[j].0
    }

    pub fn new() -> (r: Self)
        ensures
            r@ == Seq::<(Seq<char>, openapiv3::Schema)>::empty(),
            r.wf(),
    {
        let r = SchemaRegistry { entries: Vec::new() };
        proof {
            assert(r@ =~= Seq::<(Seq<char>, openapiv3::Schema)>::empty());
        }
        r
    }

    pub fn len(&self) -> (r: usize)
        ensures
            r == self@.len(),
    {
        self.entries.len()
    }

    /// The title at position `i`.
    pub fn title_at(&self, i: usize) -> (r: &String)
        requires
            i < self@.len(),
        ensures
            r@ == self@[i as int].0,
    {
        &self.entries[i].0
    }

    /// The schema at position `i`.
    pub fn schema_at(&self, i: usize) -> (r: &openapiv3::Schema)
        requires
            i < self@.len(),
        ensures
            *r == self@[i as int].1,
    {
        &self.entries[i].1
    }

    /// Insert under `title`, last write winning, first position kept.
    pub fn insert(&mut self, title: String, schema: openapiv3::Schema)
        ensures
            final(self)@ == upsert(old(self)@, title@, schema),
            old(self).wf() ==> final(self).wf(),
    {
        let ghost pre = self@;
        let ghost kv = title@;
        let n = self.entries.len();
        let mut i: usize = 0;
        while i < n
            invariant
                pre == old(self)@,
                n == pre.len(),
                pre == self@,
                kv == title@,
                i <= n,
                forall|j: int| 0 <= j < i ==> pre[j].0 != kv,
            decreases n - i,
        {
            if str_eq(self.entries[i].0.as_str(), title.as_str()) {
                proof {
                    lemma_key_index_at(pre, kv, i as int);
                }
                self.entries[i] = (title, schema);
                proof {
                    assert(self@ =~= pre.update(i as int, (kv, schema)));
                    if old(self).wf() {
                        assert forall|a: int, b: int| 0 <= a < b < self@.len() implies self@[a].0
                            != self@[b].0 by {
                            assert(self@[a].0 == pre[a].0);
                            assert(self@[b].0 == pre[b].0);
                        }
                        assert(self.wf());
                    }
                }
                return ;
            }
            i += 1;
        }
        proof {
            lemma_key_index_none(pre, kv);
        }
        self.entries.push((title, schema));
        proof {
            assert(self@ =~= pre.push((kv, schema)));
            if old(self).wf() {
                assert forall|a: int, b: int| 0 <= a < b < self@.len() implies self@[a].0
                    != self@[b].0 by {
                    if b < pre.len() {
                        assert(self@[a].0 == pre[a].0);
                        assert(self@[b].0 == pre[b].0);
                    } else {
                        assert(self@[a].0 == pre[a].0);
                        assert(self@[b].0 == kv);
                    }
                }
                assert(self.wf());
            }
        }
    }
}

/// With all keys before `i` different and the key at `i` equal, the key index
/// is `i`.
proof fn lemma_key_index_at<V>(s: Seq<(Seq<char>, V)>, k: Seq<char>, i: int)
    requires
        0 <= i < s.len(),
        s[i].0 == k,
        forall|j: int| 0 <= j < i ==> s[j].0 != k,
    ensures
        key_index(s, k) == i,
    decreases i,
{
    if i > 0 {
        lemma_key_index_at(s.drop_first(), k, i - 1);
    }
}

/// With no key equal, the key index is the length.
proof fn lemma_key_index_none<V>(s: Seq<(Seq<char>, V)>, k: Seq<char>)
    requires
        forall|j: int| 0 <= j < s.len() ==> s[j].0 != k,
    ensures
        key_index(s, k) == s.len(),
    decreases s.len(),
{
    if s.len() > 0 {
        lemma_key_index_none(s.drop_first(), k);
    }
}


/// The key index stays inside the list and finds its key.
proof fn lemma_key_index_bounds<V>(s: Seq<(Seq<char>, V)>, k: Seq<char>)
    ensures
        0 <= key_index(s, k) <= s.len(),
        key_index(s, k) < s.len() ==> s[key_index(s, k)].0 == k,
    decreases s.len(),
{
    if s.len() > 0 && s[0].0 != k {
        lemma_key_index_bounds(s.drop_first(), k);
    }
}

/// An insert never removes an entry and never moves an existing key.
pub proof fn lemma_upsert_preserves<V>(s: Seq<(Seq<char>, V)>, k: Seq<char>, v: V)
    ensures
        upsert(s, k, v).len() >= s.len(),
        forall|i: int| 0 <= i < s.len() ==> #[trigger] upsert(s, k, v)[i].0 == s[i].0,
        forall|i: int|
            0 <= i < s.len() && s[i].0 != k ==> #[trigger] upsert(s, k, v)[i] == s[i],
{
    lemma_key_index_bounds(s, k);
}

/// Insert into a key-sorted list: an equal key takes the new value in place,
/// a new key enters at its ordered position.
pub open spec fn sorted_upsert(s: Seq<(Seq<char>, Seq<char>)>, k: Seq<char>, v: Seq<char>) -> Seq<
    (Seq<char>, Seq<char>),
>
    decreases s.len(),
{
    if s.len() == 0 {
        seq![(k, v)]
    } else if s[0].0 == k {
        seq![(k, v)] + s.drop_first()
    } else if lex_leq(k, s[0].0) {
        seq![(k, v)] + s
    } else {
        seq![s[0]] + sorted_upsert(s.drop_first(), k, v)
    }
}

/// The lookup a sorted map answers: the value under `k`, if any.
pub open spec fn map_lookup(s: Seq<(Seq<char>, Seq<char>)>, k: Seq<char>) -> Option<Seq<char>>
    decreases s.len(),
{
    if s.len() == 0 {
        None
    } else if s[0].0 == k {
        Some(s[0].1)
    } else {
        map_lookup(s.drop_first(), k)
    }
}

/// The content-type → schema-title map, keys strictly ascending.
#[derive(Debug, PartialEq)]
pub struct ContentTypeMap {
    entries: Vec<(String, String)>,
}

impl View for ContentTypeMap {
    type V = Seq<(Seq<char>, Seq<char>)>;

    closed spec fn view(&self) -> Seq<(Seq<char>, Seq<char>)> {
        Seq::new(self.entries@.len(), |i: int| (self.entries@[i].0@, self.entries@[i].1@))
    }
}

impl ContentTypeMap {
    /// Keys strictly ascending: sorted and unique.
    pub open spec fn wf(self) -> bool {
        forall|i: int, j: int| 0 <= i < j < self@.len() ==> lex_lt(self@[i].0, self@[j].0)
    }

    pub fn new() -> (r: Self)
        ensures
            r@ == Seq::<(Seq<char>, Seq<char>)>::empty(),
            r.wf(),
    {
        let r = ContentTypeMap { entries: Vec::new() };
        proof {
            assert(r@ =~= Seq::<(Seq<char>, Seq<char>)>::empty());
        }
        r
    }

    pub fn len(&self) -> (r: usize)
        ensures
            r == self@.len(),
    {
        self.entries.len()
    }

    /// The pair at position `i`.
    pub fn pair_at(&self, i: usize) -> (r: (&String, &String))
        requires
            i < self@.len(),
        ensures
            r.0@ == self@[i as int].0,
            r.1@ == self@[i as int].1,
    {
        let p = &self.entries[i];
        (&p.0, &p.1)
    }

    /// The schema title under a content type.
    pub fn get(&self, key: &str) -> (r: Option<&String>)
        ensures
            match r {
                Some(v) => map_lookup(self@, key@) == Some(v@),
                None => map_lookup(self@, key@) is None,
            },
    {
        let n = self.entries.len();
        let ghost mv = self@;
        let mut i: usize = 0;
        proof {
            assert(mv.skip(0) =~= mv);
        }
        while i < n
            invariant
                n == mv.len(),
                mv == self@,
                i <= n,
                map_lookup(mv.skip(i as int), key@) == map_lookup(mv, key@),
            decreases n - i,
        {
            proof {
                assert(mv.skip(i as int)[0] == mv[i as int]);
                assert(mv.skip(i as int).drop_first() =~= mv.skip(i as int + 1));
            }
            if str_eq(self.entries[i].0.as_str(), key) {
                return Some(&self.entries[i].1);
            }
            i += 1;
        }
        None
    }

    /// Insert under `key`, last write winning, sorted order kept.
    pub fn insert(&mut self, key: String, value: String)
        requires
            old(self).wf(),
        ensures
            final(self)@ == sorted_upsert(old(self)@, key@, value@),
            final(self).wf(),
    {
        let ghost pre = self@;
        let ghost kv = key@;
        let ghost vv = value@;
        let n = self.entries.len();
        let mut i: usize = 0;
        while i < n
            invariant
                pre == old(self)@,
                n == pre.len(),
                pre == self@,
                self.wf(),
                kv == key@,
                vv == value@,
                i <= n,
                forall|j: int| 0 <= j < i ==> lex_lt(pre[j].0, kv),
            decreases n - i,
        {
            let same = str_eq(self.entries[i].0.as_str(), key.as_str());
            if same {
                proof {
                    lemma_sorted_upsert_update(pre, kv, vv, i as int);
                }
                self.entries[i] = (key, value);
                proof {
                    assert(pre[i as int].0 == kv);
                    assert(self@ =~= pre.update(i as int, (kv, vv)));
                    assert forall|a: int, b: int| 0 <= a < b < self@.len() implies lex_lt(
                        self@[a].0,
                        self@[b].0,
                    ) by {
                        assert(self@[a].0 == pre[a].0);
                        assert(self@[b].0 == pre[b].0);
                    }
                }
                return ;
            }
            if str_leq(key.as_str(), self.entries[i].0.as_str()) {
                proof {
                    lemma_sorted_upsert_insert(pre, kv, vv, i as int);
                }
                self.entries.insert(i, (key, value));
                proof {
                    assert(self@ =~= pre.insert(i as int, (kv, vv)));
                    lemma_insert_keeps_sorted(pre, kv, vv, i as int);
                }
                return ;
            }
            proof {
                assert(lex_leq(pre[i as int].0, kv)) by {
                    crate::text::lemma_lex_connected(kv, pre[i as int].0);
                }
            }
            i += 1;
        }
        proof {
            lemma_sorted_upsert_insert(pre, kv, vv, n as int);
        }
        self.entries.push((key, value));
        proof {
            assert(self@ =~= pre.insert(n as int, (kv, vv)));
            lemma_insert_keeps_sorted(pre, kv, vv, n as int);
        }
    }
}

/// Placing a fresh key between its smaller and larger neighbours keeps the
/// keys strictly ascending.
proof fn lemma_insert_keeps_sorted(
    s: Seq<(Seq<char>, Seq<char>)>,
    k: Seq<char>,
    v: Seq<char>,
    i: int,
)
    requires
        0 <= i <= s.len(),
        forall|a: int, b: int| 0 <= a < b < s.len() ==> lex_lt(s[a].0, s[b].0),
        forall|j: int| 0 <= j < i ==> lex_lt(s[j].0, k),
        i < s.len() ==> lex_lt(k, s[i].0),
    ensures
        forall|a: int, b: int|
            0 <= a < b < s.insert(i, (k, v)).len() ==> lex_lt(
                s.insert(i, (k, v))[a].0,
                s.insert(i, (k, v))[b].0,
            ),
{
    let t = s.insert(i, (k, v));
    s.insert_ensures(i, (k, v));
    assert forall|a: int, b: int| 0 <= a < b < t.len() implies lex_lt(t[a].0, t[b].0) by {
        if a < i {
            assert(t[a].0 == s[a].0);
        } else if a == i {
            assert(t[a].0 == k);
        } else {
            assert(t[a].0 == s[a - 1].0);
        }
        if b < i {
            assert(t[b].0 == s[b].0);
        } else if b == i {
            assert(t[b].0 == k);
        } else {
            assert(t[b].0 == s[b - 1].0);
        }
        if a == i && b > i {
            if b - 1 > i {
                assert(lex_lt(s[i as int].0, s[b - 1].0));
                crate::text::lemma_lex_trans(k, s[i as int].0, s[b - 1].0);
                if k == s[b - 1].0 {
                    crate::text::lemma_lex_antisym(k, s[i as int].0);
                }
            }
        }
    }
}


/// Where the scan stops on an equal key, the sorted insert is an update in
/// place.
proof fn lemma_sorted_upsert_update(
    s: Seq<(Seq<char>, Seq<char>)>,
    k: Seq<char>,
    v: Seq<char>,
    i: int,
)
    requires
        0 <= i < s.len(),
        s[i].0 == k,
        forall|j: int| 0 <= j < i ==> lex_lt(s[j].0, k),
    ensures
        sorted_upsert(s, k, v) == s.update(i, (k, v)),
    decreases i,
{
    if i == 0 {
        assert(sorted_upsert(s, k, v) == seq![(k, v)] + s.drop_first());
        assert(seq![(k, v)] + s.drop_first() =~= s.update(0, (k, v)));
    } else {
        assert(s[0].0 != k);
        assert(!lex_leq(k, s[0].0)) by {
            if lex_leq(k, s[0].0) {
                crate::text::lemma_lex_antisym(k, s[0].0);
            }
        }
        assert forall|j: int| 0 <= j < i - 1 implies lex_lt(
            s.drop_first()[j].0,
            k,
        ) by {
            assert(s.drop_first()[j].0 == s[j + 1].0);
        }
        assert(s.drop_first()[i - 1].0 == s[i].0);
        lemma_sorted_upsert_update(s.drop_first(), k, v, i - 1);
        assert(seq![s[0]] + s.drop_first().update(i - 1, (k, v)) =~= s.update(i, (k, v)));
    }
}

/// Where the scan stops on a larger key, or at the end, the sorted insert
/// enters there.
proof fn lemma_sorted_upsert_insert(
    s: Seq<(Seq<char>, Seq<char>)>,
    k: Seq<char>,
    v: Seq<char>,
    i: int,
)
    requires
        0 <= i <= s.len(),
        i < s.len() ==> s[i].0 != k && lex_leq(k, s[i].0),
        forall|j: int| 0 <= j < i ==> lex_lt(s[j].0, k),
    ensures
        sorted_upsert(s, k, v) == s.insert(i, (k, v)),
    decreases i,
{
    if i == 0 {
        if s.len() == 0 {
            assert(seq![(k, v)] =~= s.insert(0, (k, v)));
        } else {
            assert(s[0].0 != k || !lex_leq(k, s[0].0) || sorted_upsert(s, k, v) == seq![(k, v)]
                + s);
            assert(seq![(k, v)] + s =~= s.insert(0, (k, v)));
        }
    } else {
        assert(s[0].0 != k);
        assert(!lex_leq(k, s[0].0)) by {
            if lex_leq(k, s[0].0) {
                crate::text::lemma_lex_antisym(k, s[0].0);
            }
        }
        assert forall|j: int| 0 <= j < i - 1 implies lex_lt(
            s.drop_first()[j].0,
            k,
        ) by {
            assert(s.drop_first()[j].0 == s[j + 1].0);
        }
        if i < s.len() {
            assert(s.drop_first()[i - 1].0 == s[i].0);
        }
        lemma_sorted_upsert_insert(s.drop_first(), k, v, i - 1);
        assert(seq![s[0]] + s.drop_first().insert(i - 1, (k, v)) =~= s.insert(i, (k, v)));
    }
}

} // verus!

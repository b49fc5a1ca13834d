//! An insertion-ordered set of strings: unique entries, order of first
//! appearance preserved, as reproducible output requires.

use vstd::prelude::*;
use crate::text::{str_eq, vec_views};

verus! {

/// Keep the first occurrence of each entry, in order of first appearance.
pub open spec fn dedup(s: Seq<Seq<char>>) -> Seq<Seq<char>>
    decreases s.len(),
{
    if s.len() == 0 {
        Seq::<Seq<char>>::empty()
    } else {
        let front = dedup(s.drop_last());
        if s.drop_last().contains(s.last()) {
            front
        } else {
            front.push(s.last())
        }
    }
}

/// De-duplication keeps exactly the entries of its input.
pub proof fn lemma_dedup_contains(s: Seq<Seq<char>>, x: Seq<char>)
    ensures
        dedup(s).contains(x) == s.contains(x),
    decreases s.len(),
{
    if s.len() > 0 {
        let front = s.drop_last();
        lemma_dedup_contains(front, x);
        assert(s.contains(x) == (front.contains(x) || x == s.last())) by {
            if s.contains(x) {
                let i = choose|i: int| 0 <= i < s.len() && s[i] == x;
                if i < s.len() - 1 {
                    assert(front[i] == x);
                    assert(front.contains(x));
                }
            }
            if front.contains(x) {
                let i = choose|i: int| 0 <= i < front.len() && front[i] == x;
                assert(s[i] == x);
            }
            if x == s.last() {
                assert(s[s.len() - 1] == x);
            }
        }
        if !front.contains(s.last()) {
            let d = dedup(front);
            assert(dedup(s) == d.push(s.last()));
            assert(d.push(s.last()).contains(x) == (d.contains(x) || x == s.last())) by {
                if d.push(s.last()).contains(x) {
                    let i = choose|i: int| 0 <= i < d.len() + 1 && d.push(s.last())[i] == x;
                    if i < d.len() {
                        assert(d[i] == x);
                    }
                }
                if d.contains(x) {
                    let i = choose|i: int| 0 <= i < d.len() && d[i] == x;
                    assert(d.push(s.last())[i] == x);
                }
                assert(d.push(s.last())[d.len() as int] == s.last());
            }
        }
    }
}

/// A set of strings that remembers the order in which its entries first
/// arrived.
#[derive(Debug, PartialEq)]
pub struct StringSet {
    items: Vec<String>,
}

impl View for StringSet {
    type V = Seq<Seq<char>>;

    closed spec fn view(&self) -> Seq<Seq<char>> {
        vec_views(self.items)
    }
}

impl StringSet {
    pub fn new() -> (r: Self)
        ensures
            r@ == Seq::<Seq<char>>::empty(),
    {
        let r = StringSet { items: Vec::new() };
        proof {
            assert(r@ =~= Seq::<Seq<char>>::empty());
        }
        r
    }

    pub fn len(&self) -> (r: usize)
        ensures
            r == self@.len(),
    {
        self.items.len()
    }

    pub fn get(&self, i: usize) -> (r: &String)
        requires
            i < self@.len(),
        ensures
            r@ == self@[i as int],
    {
        &self.items[i]
    }

    pub fn contains(&self, x: &str) -> (r: bool)
        ensures
            r == self@.contains(x@),
    {
        let n = self.items.len();
        let mut i: usize = 0;
        while i < n
            invariant
                n == self@.len(),
                i <= n,
                forall|k: int| 0 <= k < i ==> self@[k] != x@,
            decreases n - i,
        {
            if str_eq(self.items[i].as_str(), x) {
                assert(self@[i as int] == x@);
                return true;
            }
            i += 1;
        }
        assert(!self@.contains(x@));
        false
    }

    /// Add `x` unless an equal entry is already present; the order of the
    /// existing entries never changes.
    pub fn insert(&mut self, x: String)
        ensures
            final(self)@ == if old(self)@.contains(x@) {
                old(self)@
            } else {
                old(self)@.push(x@)
            },
    {
        if !self.contains(x.as_str()) {
            let ghost pre = self@;
            self.items.push(x);
            proof {
                assert(self@ =~= pre.push(x@));
            }
        }
    }

    /// Collect the pieces into a set: first occurrences, in order.
    pub fn collect_unique(pieces: Vec<String>) -> (r: Self)
        ensures
            r@ == dedup(vec_views(pieces)),
    {
        let n = pieces.len();
        let views = Ghost(vec_views(pieces));
        let mut r = StringSet::new();
        let mut i: usize = 0;
        proof {
            assert(views@.take(0) =~= Seq::<Seq<char>>::empty());
        }
        while i < n
            invariant
                n == pieces@.len(),
                views@ == vec_views(pieces),
                n == views@.len(),
                i <= n,
                r@ == dedup(views@.take(i as int)),
            decreases n - i,
        {
            let x = pieces[i].clone();
            proof {
                assert(x@ == views@[i as int]);
                let t = views@.take(i as int + 1);
                assert(t.drop_last() =~= views@.take(i as int));
                assert(t.last() == views@[i as int]);
                lemma_dedup_contains(views@.take(i as int), x@);
            }
            r.insert(x);
            i += 1;
        }
        proof {
            assert(views@.take(n as int) =~= views@);
        }
        r
    }
}

} // verus!

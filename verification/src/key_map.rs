//! The key map of a reverse index: an association from string keys to the
//! ordered list of buffer positions recorded under each key. Keys are unique;
//! a key's list grows by appending, so it keeps insertion order.

use vstd::prelude::*;
use crate::text;

verus! {

/// The key map after recording `p` under `k`: `p` is appended to `k`'s list,
/// which is created if absent.
pub open spec fn insert_pos(
    m: Map<Seq<char>, Seq<usize>>,
    k: Seq<char>,
    p: usize,
) -> Map<Seq<char>, Seq<usize>> {
    if m.contains_key(k) {
        m.insert(k, m[k].push(p))
    } else {
        m.insert(k, seq![p])
    }
}

/// The key map after recording `p` under each key of `ks`, in order.
pub open spec fn insert_keys(
    m: Map<Seq<char>, Seq<usize>>,
    ks: Seq<Seq<char>>,
    p: usize,
) -> Map<Seq<char>, Seq<usize>>
    decreases ks.len(),
{
    if ks.len() == 0 {
        m
    } else {
        insert_pos(insert_keys(m, ks.drop_last(), p), ks.last(), p)
    }
}

/// A map from string keys to position lists, kept as a vector of entries in
/// first-insertion order. No two entries share a key.
pub struct KeyMap {
    entries: Vec<(String, Vec<usize>)>,
}

/// The first entry index holding key `k`, or -1 if no entry does.
spec fn spec_find(es: Seq<(String, Vec<usize>)>, k: Seq<char>) -> int
    decreases es.len(),
{
    if es.len() == 0 {
        -1
    } else if es[0].0@ == k {
        0
    } else {
        let r = spec_find(es.drop_first(), k);
        if r == -1 {
            -1
        } else {
            r + 1
        }
    }
}

proof fn lemma_find_props(es: Seq<(String, Vec<usize>)>, k: Seq<char>)
    ensures
        spec_find(es, k) == -1 ==> (forall|i: int| 0 <= i < es.len() ==> es[i].0@ != k),
        spec_find(es, k) != -1 ==> 0 <= spec_find(es, k) < es.len()
            && es[spec_find(es, k)].0@ == k
            && (forall|i: int| 0 <= i < spec_find(es, k) ==> es[i].0@ != k),
    decreases es.len(),
{
    if es.len() > 0 && es[0].0@ != k {
        let tail = es.drop_first();
        lemma_find_props(tail, k);
        assert(forall|i: int| 0 <= i < tail.len() ==> tail[i] == es[i + 1]);
        let r1 = spec_find(tail, k);
        if r1 == -1 {
            assert forall|i: int| 0 <= i < es.len() implies es[i].0@ != k by {
                if i > 0 {
                    assert(tail[i - 1] == es[i]);
                }
            }
        } else {
            assert(es[r1 + 1] == tail[r1]);
            assert forall|i: int| 0 <= i < r1 + 1 implies es[i].0@ != k by {
                if i > 0 {
                    assert(tail[i - 1] == es[i]);
                }
            }
        }
    }
}

proof fn lemma_find_at(es: Seq<(String, Vec<usize>)>, k: Seq<char>, i: int)
    requires
        0 <= i < es.len(),
        es[i].0@ == k,
        forall|j: int| 0 <= j < i ==> es[j].0@ != k,
    ensures
        spec_find(es, k) == i,
    decreases es.len(),
{
    if i > 0 {
        lemma_find_at(es.drop_first(), k, i - 1);
    }
}

proof fn lemma_find_push(es: Seq<(String, Vec<usize>)>, e: (String, Vec<usize>), k: Seq<char>)
    ensures
        spec_find(es, k) != -1 ==> spec_find(es.push(e), k) == spec_find(es, k),
        spec_find(es, k) == -1 && e.0@ == k ==> spec_find(es.push(e), k) == es.len() as int,
        spec_find(es, k) == -1 && e.0@ != k ==> spec_find(es.push(e), k) == -1,
    decreases es.len(),
{
    let ps = es.push(e);
    assert(ps.len() == es.len() + 1);
    if es.len() == 0 {
        assert(ps[0] == e);
        if e.0@ != k {
            assert(ps.drop_first() =~= Seq::<(String, Vec<usize>)>::empty());
            assert(spec_find(ps.drop_first(), k) == -1);
            assert(spec_find(ps, k) == -1);
        } else {
            assert(spec_find(ps, k) == 0);
        }
    } else {
        assert(ps[0] == es[0]);
        if es[0].0@ == k {
            assert(spec_find(ps, k) == 0);
            assert(spec_find(es, k) == 0);
        } else {
            let t = es.drop_first();
            assert(ps.drop_first() =~= t.push(e));
            lemma_find_push(t, e, k);
            lemma_find_props(t, k);
            lemma_find_props(t.push(e), k);
            let r2 = spec_find(t, k);
            let v = spec_find(t.push(e), k);
            assert(spec_find(ps.drop_first(), k) == v);
            assert(spec_find(ps, k) == if v == -1 { -1 } else { v + 1 });
            assert(spec_find(es, k) == if r2 == -1 { -1 } else { r2 + 1 });
            assert(v == if r2 != -1 { r2 } else if e.0@ == k { t.len() as int } else { -1 });
            assert(t.len() as int == es.len() as int - 1);
        }
    }
}

proof fn lemma_find_same_keys(
    es1: Seq<(String, Vec<usize>)>,
    es2: Seq<(String, Vec<usize>)>,
    k: Seq<char>,
)
    requires
        es1.len() == es2.len(),
        forall|i: int| 0 <= i < es1.len() ==> es1[i].0@ == es2[i].0@,
    ensures
        spec_find(es1, k) == spec_find(es2, k),
    decreases es1.len(),
{
    if es1.len() > 0 {
        assert(forall|i: int| 0 <= i < es1.drop_first().len()
            ==> es1.drop_first()[i] == es1[i + 1]);
        assert(forall|i: int| 0 <= i < es2.drop_first().len()
            ==> es2.drop_first()[i] == es2[i + 1]);
        lemma_find_same_keys(es1.drop_first(), es2.drop_first(), k);
    }
}

impl View for KeyMap {
    type V = Map<Seq<char>, Seq<usize>>;

    closed spec fn view(&self) -> Map<Seq<char>, Seq<usize>> {
        Map::new(
            |k: Seq<char>| spec_find(self.entries@, k) != -1,
            |k: Seq<char>| self.entries@[spec_find(self.entries@, k)].1@,
        )
    }
}

impl KeyMap {
    /// No two entries share a key.
    pub closed spec fn wf(self) -> bool {
        forall|i: int, j: int|
            0 <= i < j < self.entries@.len() ==> self.entries@[i].0@ != self.entries@[j].0@
    }

    /// An empty key map.
    pub fn new() -> (m: KeyMap)
        ensures
            m.wf(),
            m@ == Map::<Seq<char>, Seq<usize>>::empty(),
    {
        let m = KeyMap { entries: Vec::new() };
        proof {
            assert(m@ =~= Map::<Seq<char>, Seq<usize>>::empty());
        }
        m
    }

    /// Records `position` under `key`, appending to the key's list or
    /// creating the key.
    #[verifier::loop_isolation(false)]
    pub fn insert(&mut self, key: String, position: usize)
        requires
            old(self).wf(),
        ensures
            final(self).wf(),
            final(self)@ == insert_pos(old(self)@, key@, position),
    {
        let ghost es0 = old(self).entries@;
        let n = self.entries.len();
        let mut i: usize = 0;
        while i < n
            invariant
                i <= n,
                n == self.entries@.len(),
                self.entries@ == es0,
                forall|j: int| 0 <= j < i ==> self.entries@[j].0@ != key@,
            decreases n - i,
        {
            if text::str_eq(self.entries[i].0.as_str(), key.as_str()) {
                proof {
                    lemma_find_at(es0, key@, i as int);
                }
                self.entries[i].1.push(position);
                proof {
                    let es1 = self.entries@;
                    assert(es1.len() == es0.len());
                    assert(forall|j: int| 0 <= j < es1.len() ==> es1[j].0@ == es0[j].0@);
                    assert forall|k: Seq<char>| #[trigger] spec_find(es1, k)
                        == spec_find(es0, k) by {
                        lemma_find_same_keys(es1, es0, k);
                    }
                    assert forall|a: int, b: int| 0 <= a < b < es1.len()
                        implies es1[a].0@ != es1[b].0@ by {
                        assert(es1[a].0@ == es0[a].0@);
                        assert(es1[b].0@ == es0[b].0@);
                        assert(es0[a].0@ != es0[b].0@);
                    }
                    assert(self.wf());
                    assert forall|k: Seq<char>| spec_find(es0, k) != -1 && k != key@
                        implies es1[spec_find(es0, k)].1@ == es0[spec_find(es0, k)].1@ by {
                        lemma_find_props(es0, k);
                        assert(es0[spec_find(es0, k)].0@ == k);
                        assert(es0[i as int].0@ == key@);
                        assert(spec_find(es0, k) != i as int);
                    }
                    assert(spec_find(es0, key@) == i as int);
                    assert(es1[i as int].1@ == es0[i as int].1@.push(position));
                    assert(old(self)@.contains_key(key@));
                    assert(old(self)@[key@] == es0[i as int].1@);
                    assert(self@ =~= insert_pos(old(self)@, key@, position));
                }
                return;
            }
            i = i + 1;
        }
        proof {
            lemma_find_props(es0, key@);
            assert(spec_find(es0, key@) == -1);
        }
        let mut positions: Vec<usize> = Vec::new();
        positions.push(position);
        self.entries.push((key, positions));
        proof {
            let es1 = self.entries@;
            let e = es1.last();
            assert(es1 =~= es0.push(e));
            assert forall|k: Seq<char>| true implies spec_find(es0.push(e), k)
                == if spec_find(es0, k) != -1 {
                    spec_find(es0, k)
                } else if e.0@ == k {
                    es0.len() as int
                } else {
                    -1
                } by {
                lemma_find_push(es0, e, k);
            }
            assert forall|k: Seq<char>| #[trigger] spec_find(es0, k) != -1
                implies 0 <= spec_find(es0, k) < es0.len() && es0[spec_find(es0, k)].0@ == k by {
                lemma_find_props(es0, k);
            }
            assert(self.wf());
            assert(self@ =~= insert_pos(old(self)@, key@, position));
        }
    }

    /// The position list recorded under `key`, if the key is present.
    #[verifier::loop_isolation(false)]
    pub fn get<'a>(&'a self, key: &str) -> (r: Option<&'a Vec<usize>>)
        ensures
            match r {
                Some(positions) => self@.contains_key(key@) && positions@ == self@[key@],
                None => !self@.contains_key(key@),
            },
    {
        let n = self.entries.len();
        let mut i: usize = 0;
        while i < n
            invariant
                i <= n,
                n == self.entries@.len(),
                forall|j: int| 0 <= j < i ==> self.entries@[j].0@ != key@,
            decreases n - i,
        {
            if text::str_eq(self.entries[i].0.as_str(), key) {
                proof {
                    lemma_find_at(self.entries@, key@, i as int);
                }
                return Some(&self.entries[i].1);
            }
            i = i + 1;
        }
        proof {
            lemma_find_props(self.entries@, key@);
        }
        None
    }
}

} // verus!

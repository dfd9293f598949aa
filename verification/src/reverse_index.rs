//! The reverse index core: an ordered buffer of text items and a key map
//! from string fragments to the buffer positions recorded under them. The
//! keys registered for each item are chosen by a pluggable indexing strategy.

use vstd::prelude::*;
use crate::key_map::{KeyMap, insert_pos, insert_keys};
use crate::text;

verus! {

/// A data structure that trades memory for speed: a large map from string
/// fragments to the positions of the buffer items they were drawn from.
pub struct ReverseIndex {
    pub map: KeyMap,
    pub buffer: Vec<String>,
}

/// The character sequences of a sequence of strings, in order.
pub open spec fn views(items: Seq<String>) -> Seq<Seq<char>> {
    items.map_values(|s: String| s@)
}

/// Every position in every key's list lies below `n`.
pub open spec fn positions_bounded(m: Map<Seq<char>, Seq<usize>>, n: int) -> bool {
    forall|k: Seq<char>, i: int|
        m.contains_key(k) && 0 <= i < m[k].len() ==> #[trigger] m[k][i] < n
}

/// The key map after an indexing strategy with key function `kf` has run
/// over the first `n` buffer positions, in position order.
pub open spec fn built_map_to(
    kf: spec_fn(Seq<char>) -> Seq<Seq<char>>,
    texts: Seq<Seq<char>>,
    n: int,
) -> Map<Seq<char>, Seq<usize>>
    decreases n,
{
    if n <= 0 {
        Map::empty()
    } else {
        insert_keys(built_map_to(kf, texts, n - 1), kf(texts[n - 1]), (n - 1) as usize)
    }
}

/// The key map that building an index over `texts` with key function `kf`
/// populates.
pub open spec fn built_map(
    kf: spec_fn(Seq<char>) -> Seq<Seq<char>>,
    texts: Seq<Seq<char>>,
) -> Map<Seq<char>, Seq<usize>> {
    built_map_to(kf, texts, texts.len() as int)
}

/// A strategy that decides how an element of the buffer is keyed in the map.
/// `keys` states, per item text, which keys the strategy registers, in order;
/// `index_item` performs exactly those registrations for one position.
pub trait IndexFn {
    spec fn keys(text: Seq<char>) -> Seq<Seq<char>>;

    fn index_item(ri: &mut ReverseIndex, position: usize)
        requires
            old(ri).wf(),
            position < old(ri).buffer@.len(),
        ensures
            final(ri).wf(),
            final(ri).buffer == old(ri).buffer,
            final(ri).map@ == insert_keys(
                old(ri).map@,
                Self::keys(old(ri).buffer@[position as int]@),
                position,
            ),
    ;
}

pub proof fn lemma_insert_pos_bounded(m: Map<Seq<char>, Seq<usize>>, k: Seq<char>, p: usize, n: int)
    requires
        positions_bounded(m, n),
        p < n,
    ensures
        positions_bounded(insert_pos(m, k, p), n),
{
    let m2 = insert_pos(m, k, p);
    assert forall|k2: Seq<char>, i: int|
        m2.contains_key(k2) && 0 <= i < m2[k2].len() implies #[trigger] m2[k2][i] < n by {
        if k2 == k {
            if m.contains_key(k) {
                assert(m2[k2] == m[k].push(p));
            } else {
                assert(m2[k2] == seq![p]);
            }
        } else {
            assert(m2[k2] == m[k2]);
        }
    }
}

impl ReverseIndex {
    /// The item texts held by the buffer, by position.
    pub open spec fn texts(self) -> Seq<Seq<char>> {
        views(self.buffer@)
    }

    /// The key map is well formed and every recorded position indexes the
    /// buffer.
    pub open spec fn wf(self) -> bool {
        &&& self.map.wf()
        &&& positions_bounded(self.map@, self.buffer@.len() as int)
    }

    /// The index holds exactly `texts` and the key map that one build of the
    /// strategy `S` over them populates.
    pub open spec fn is_built_from<S: IndexFn>(self, texts: Seq<Seq<char>>) -> bool {
        &&& self.texts() == texts
        &&& self.map@ == built_map(|t: Seq<char>| S::keys(t), texts)
    }

    /// Builds a reverse index over `buffer`: stores the items, then runs the
    /// strategy once for each position, in position order.
    #[verifier::loop_isolation(false)]
    pub fn from_buffer<S: IndexFn>(buffer: Vec<String>) -> (ri: ReverseIndex)
        ensures
            ri.wf(),
            ri.buffer == buffer,
            ri.is_built_from::<S>(buffer@.map_values(|s: String| s@)),
    {
        let ghost kf = |t: Seq<char>| S::keys(t);
        let mut ri = ReverseIndex { map: KeyMap::new(), buffer };
        let n = ri.buffer.len();
        let mut position: usize = 0;
        while position < n
            invariant
                position <= n,
                n == ri.buffer@.len(),
                ri.buffer == buffer,
                ri.wf(),
                ri.map@ == built_map_to(kf, ri.texts(), position as int),
            decreases n - position,
        {
            S::index_item(&mut ri, position);
            position = position + 1;
        }
        ri
    }

    /// Builds a reverse index from an ordered collection of items; the same
    /// as `from_buffer` on the collected items.
    pub fn from_iter<S: IndexFn>(items: Vec<String>) -> (ri: ReverseIndex)
        ensures
            ri.wf(),
            ri.buffer == items,
            ri.is_built_from::<S>(items@.map_values(|s: String| s@)),
    {
        Self::from_buffer::<S>(items)
    }

    /// Appends `string` at the end of the buffer and runs the strategy for
    /// the new position only. Prior positions and their map entries are
    /// untouched; nothing is sorted or deduplicated.
    pub fn add_word<S: IndexFn>(self, string: String) -> (ri: ReverseIndex)
        requires
            self.wf(),
        ensures
            ri.wf(),
            ri.buffer@ == self.buffer@.push(string),
            ri.map@ == insert_keys(self.map@, S::keys(string@), self.buffer@.len() as usize),
    {
        let mut ri = ReverseIndex { map: self.map, buffer: self.buffer };
        ri.buffer.push(string);
        let length = ri.buffer.len();
        proof {
            assert(positions_bounded(ri.map@, ri.buffer@.len() as int));
        }
        S::index_item(&mut ri, length - 1);
        ri
    }

    /// Exact-match lookup: the items at the positions recorded under
    /// `search`, in recorded order, or no items if the key is absent.
    #[verifier::loop_isolation(false)]
    pub fn get<'a>(&'a self, search: &str) -> (r: Vec<&'a String>)
        requires
            self.wf(),
        ensures
            self.map@.contains_key(search@) ==> r@.len() == self.map@[search@].len()
                && (forall|i: int|
                    0 <= i < r@.len()
                        ==> r@[i]@ == self.texts()[self.map@[search@][i] as int]),
            !self.map@.contains_key(search@) ==> r@.len() == 0,
    {
        match self.map.get(search) {
            Some(positions) => {
                let n = positions.len();
                let mut r: Vec<&'a String> = Vec::new();
                let mut i: usize = 0;
                while i < n
                    invariant
                        i <= n,
                        r@.len() == i,
                        forall|j: int|
                            0 <= j < i ==> r@[j]@ == self.texts()[self.map@[search@][j] as int],
                    decreases n - i,
                {
                    let p = positions[i];
                    assert(p == self.map@[search@][i as int]);
                    assert(p < self.buffer@.len());
                    r.push(&self.buffer[p]);
                    i = i + 1;
                }
                r
            },
            None => Vec::new(),
        }
    }

    /// Consumes the index and hands back ownership of the buffer.
    pub fn eject_buffer(self) -> (buffer: Vec<String>)
        ensures
            buffer == self.buffer,
    {
        self.buffer
    }

    /// Concatenates `buffer` onto the current items, sorts the whole by the
    /// lexicographic item order, removes duplicates, and rebuilds the index
    /// from scratch with strategy `S`. The sole operation that reorders the
    /// buffer; it invalidates all previously issued positions.
    pub fn concatonate_dedup_and_reindex<S: IndexFn>(self, buffer: Vec<String>) -> (ri:
        ReverseIndex)
        ensures
            ri.wf(),
            text::strictly_sorted(ri.texts()),
            forall|t: Seq<char>|
                ri.texts().contains(t) <==> (self.texts().contains(t) || views(
                    buffer@,
                ).contains(t)),
            ri.is_built_from::<S>(ri.texts()),
    {
        let mut old_buffer = self.eject_buffer();
        let mut more = buffer;
        old_buffer.append(&mut more);
        proof {
            assert forall|t: Seq<char>| views(old_buffer@).contains(t)
                <==> (views(self.buffer@).contains(t) || views(buffer@).contains(t)) by {
                let combined = views(old_buffer@);
                let left = views(self.buffer@);
                let right = views(buffer@);
                assert(combined.len() == left.len() + right.len());
                assert(forall|i: int| 0 <= i < left.len() ==> combined[i] == left[i]);
                assert(forall|i: int|
                    0 <= i < right.len() ==> combined[left.len() + i] == right[i]);
                if combined.contains(t) {
                    let i = choose|i: int| 0 <= i < combined.len() && combined[i] == t;
                    if i < left.len() {
                        assert(left[i] == t);
                    } else {
                        assert(right[i - left.len()] == t);
                    }
                }
                if left.contains(t) {
                    let i = choose|i: int| 0 <= i < left.len() && left[i] == t;
                    assert(combined[i] == t);
                }
                if right.contains(t) {
                    let i = choose|i: int| 0 <= i < right.len() && right[i] == t;
                    assert(combined[left.len() + i] == t);
                }
            }
        }
        let merged = sort_dedup(old_buffer);
        Self::from_buffer::<S>(merged)
    }
}

/// Inserts a clone of `item` into the strictly ascending `out` at its sorted
/// position, unless an equal text is already present.
fn sorted_insert_unique(out: &mut Vec<String>, item: &String)
    requires
        text::strictly_sorted(views(old(out)@)),
    ensures
        text::strictly_sorted(views(final(out)@)),
        forall|t: Seq<char>|
            views(final(out)@).contains(t) <==> (views(old(out)@).contains(t) || t == item@),
{
    let m = out.len();
    let mut j: usize = 0;
    loop
        invariant
            j <= m,
            *out == *old(out),
            m == out@.len(),
            text::strictly_sorted(views(out@)),
            forall|jj: int| 0 <= jj < j ==> text::lex_lt(views(out@)[jj], item@),
        ensures
            j <= m,
            *out == *old(out),
            m == out@.len(),
            forall|jj: int| 0 <= jj < j ==> text::lex_lt(views(out@)[jj], item@),
            j < m ==> !text::lex_lt(views(out@)[j as int], item@),
        decreases m - j,
    {
        if j >= m {
            break;
        }
        let le = text::str_le(out[j].as_str(), item.as_str());
        if !le {
            proof {
                assert(!text::lex_lt(views(out@)[j as int], item@));
            }
            break;
        }
        let eq = text::str_eq(out[j].as_str(), item.as_str());
        if eq {
            break;
        }
        j = j + 1;
    }
    if j < m {
        let eq = text::str_eq(out[j].as_str(), item.as_str());
        if eq {
            proof {
                assert(views(out@)[j as int] == item@);
                assert(views(out@).contains(item@));
            }
            return;
        }
        proof {
            text::lemma_lex_le_total(views(out@)[j as int], item@);
            assert(text::lex_lt(item@, views(out@)[j as int]));
        }
    }
    let ghost ov = views(out@);
    proof {
        out@.insert_ensures(j as int, *item);
    }
    out.insert(j, item.clone());
    proof {
        let nv = views(out@);
        assert(out@ == old(out)@.insert(j as int, *item));
        assert(nv.len() == ov.len() + 1);
        assert(forall|i: int| 0 <= i < j ==> nv[i] == ov[i]);
        assert(forall|i: int| j <= i < ov.len() ==> nv[i + 1] == ov[i]);
        assert(nv[j as int] == item@);
        assert forall|a: int, b: int| 0 <= a < b < nv.len() implies text::lex_lt(
            nv[a],
            nv[b],
        ) by {
            if b < j {
                assert(nv[a] == ov[a] && nv[b] == ov[b]);
            } else if a < j && b == j {
                assert(nv[a] == ov[a]);
            } else if a < j && b > j {
                assert(nv[a] == ov[a] && nv[b] == ov[b - 1]);
                assert(a < b - 1);
            } else if a == j {
                assert(nv[b] == ov[b - 1]);
                if b - 1 == j {
                    assert(text::lex_lt(item@, ov[j as int]));
                } else {
                    text::lemma_lex_lt_trans(item@, ov[j as int], ov[b - 1]);
                }
            } else {
                assert(nv[a] == ov[a - 1] && nv[b] == ov[b - 1]);
            }
        }
        assert forall|t: Seq<char>| nv.contains(t) <==> (ov.contains(t) || t == item@) by {
            if nv.contains(t) {
                let i = choose|i: int| 0 <= i < nv.len() && nv[i] == t;
                if i < j {
                    assert(ov[i] == t);
                } else if i == j {
                } else {
                    assert(ov[i - 1] == t);
                }
            }
            if ov.contains(t) {
                let i = choose|i: int| 0 <= i < ov.len() && ov[i] == t;
                if i < j {
                    assert(nv[i] == t);
                } else {
                    assert(nv[i + 1] == t);
                }
            }
            assert(nv[j as int] == item@);
        }
    }
}

/// How often `k` occurs among the keys `ks`.
pub open spec fn key_occurrences(ks: Seq<Seq<char>>, k: Seq<char>) -> nat
    decreases ks.len(),
{
    if ks.len() == 0 {
        0
    } else {
        key_occurrences(ks.drop_last(), k) + if ks.last() == k {
            1nat
        } else {
            0nat
        }
    }
}

/// The positions that a build over the first `n` texts records under `k`:
/// each position `p`, in ascending order, repeated once per occurrence of
/// `k` among the keys the strategy registers for `p`'s text.
pub open spec fn strategy_positions(
    kf: spec_fn(Seq<char>) -> Seq<Seq<char>>,
    texts: Seq<Seq<char>>,
    n: int,
    k: Seq<char>,
) -> Seq<usize>
    decreases n,
{
    if n <= 0 {
        Seq::empty()
    } else {
        strategy_positions(kf, texts, n - 1, k) + Seq::new(
            key_occurrences(kf(texts[n - 1]), k),
            |x: int| (n - 1) as usize,
        )
    }
}

/// A key occurring nowhere among `ks` occurs zero times.
pub proof fn lemma_no_occurrence(ks: Seq<Seq<char>>, k: Seq<char>)
    requires
        !ks.contains(k),
    ensures
        key_occurrences(ks, k) == 0,
    decreases ks.len(),
{
    if ks.len() > 0 {
        assert(!ks.drop_last().contains(k)) by {
            if ks.drop_last().contains(k) {
                let w = choose|w: int| 0 <= w < ks.drop_last().len() && ks.drop_last()[w] == k;
                assert(ks[w] == k);
            }
        }
        assert(ks.last() != k);
        lemma_no_occurrence(ks.drop_last(), k);
    }
}

/// Registering position `p` under the keys `ks` appends `p` to `k`'s list
/// once per occurrence of `k` in `ks`, and touches no other key.
pub proof fn lemma_insert_keys_key(
    m: Map<Seq<char>, Seq<usize>>,
    ks: Seq<Seq<char>>,
    p: usize,
    k: Seq<char>,
)
    ensures
        insert_keys(m, ks, p).contains_key(k) <==> (m.contains_key(k) || ks.contains(k)),
        insert_keys(m, ks, p).contains_key(k) ==> insert_keys(m, ks, p)[k] == (if m.contains_key(
            k,
        ) {
            m[k]
        } else {
            Seq::empty()
        }) + Seq::new(key_occurrences(ks, k), |x: int| p),
    decreases ks.len(),
{
    if ks.len() == 0 {
        assert(!ks.contains(k));
        if m.contains_key(k) {
            assert(m[k] + Seq::new(0, |x: int| p) =~= m[k]);
        }
    } else {
        let tail = ks.drop_last();
        let last = ks.last();
        lemma_insert_keys_key(m, tail, p, k);
        let m1 = insert_keys(m, tail, p);
        let m2 = insert_pos(m1, last, p);
        assert(m2 == insert_keys(m, ks, p));
        assert(ks.contains(k) <==> (tail.contains(k) || last == k)) by {
            if ks.contains(k) {
                let w = choose|w: int| 0 <= w < ks.len() && ks[w] == k;
                if w < ks.len() - 1 {
                    assert(tail[w] == k);
                }
            }
            if tail.contains(k) {
                let w = choose|w: int| 0 <= w < tail.len() && tail[w] == k;
                assert(ks[w] == k);
            }
            if last == k {
                assert(ks[ks.len() - 1] == k);
            }
        }
        let base = if m.contains_key(k) {
            m[k]
        } else {
            Seq::empty()
        };
        if last == k {
            assert(m2.contains_key(k));
            assert(key_occurrences(ks, k) == key_occurrences(tail, k) + 1);
            if m1.contains_key(k) {
                assert(m2[k] == m1[k].push(p));
                assert(m1[k] == base + Seq::new(key_occurrences(tail, k), |x: int| p));
                assert(m2[k] =~= base + Seq::new(key_occurrences(ks, k), |x: int| p));
            } else {
                assert(!m.contains_key(k) && !tail.contains(k));
                lemma_no_occurrence(tail, k);
                assert(m2[k] == seq![p]);
                assert(m2[k] =~= base + Seq::new(key_occurrences(ks, k), |x: int| p));
            }
        } else {
            assert(key_occurrences(ks, k) == key_occurrences(tail, k));
            assert(m2.contains_key(k) <==> m1.contains_key(k));
            if m1.contains_key(k) {
                assert(m2[k] == m1[k]);
            }
        }
    }
}

/// A build over the first `n` texts records under `k` exactly the positions
/// whose strategy run registered `k`, in the order those registrations
/// occurred: ascending by position, one entry per occurrence of `k` among a
/// position's keys.
pub proof fn lemma_built_map_matches_strategy(
    kf: spec_fn(Seq<char>) -> Seq<Seq<char>>,
    texts: Seq<Seq<char>>,
    n: int,
    k: Seq<char>,
)
    requires
        0 <= n <= texts.len(),
    ensures
        built_map_to(kf, texts, n).contains_key(k) <==> (exists|p: int|
            0 <= p < n && #[trigger] kf(texts[p]).contains(k)),
        built_map_to(kf, texts, n).contains_key(k) ==> built_map_to(kf, texts, n)[k]
            == strategy_positions(kf, texts, n, k),
        !built_map_to(kf, texts, n).contains_key(k) ==> strategy_positions(kf, texts, n, k)
            == Seq::<usize>::empty(),
    decreases n,
{
    if n > 0 {
        lemma_built_map_matches_strategy(kf, texts, n - 1, k);
        let prev = built_map_to(kf, texts, n - 1);
        let cur = built_map_to(kf, texts, n);
        let ks = kf(texts[n - 1]);
        lemma_insert_keys_key(prev, ks, (n - 1) as usize, k);
        assert(cur == insert_keys(prev, ks, (n - 1) as usize));
        if cur.contains_key(k) {
            if prev.contains_key(k) {
                assert(cur[k] =~= strategy_positions(kf, texts, n, k));
            } else {
                assert(strategy_positions(kf, texts, n - 1, k) == Seq::<usize>::empty());
                assert(cur[k] =~= strategy_positions(kf, texts, n, k));
            }
        } else {
            assert(!ks.contains(k));
            lemma_no_occurrence(ks, k);
            assert(strategy_positions(kf, texts, n, k) =~= strategy_positions(
                kf,
                texts,
                n - 1,
                k,
            ));
        }
    } else {
        assert(!built_map_to(kf, texts, 0).contains_key(k));
    }
}

/// Building an index twice from the same ordered input with the same
/// strategy yields equal key maps and equal buffers: the build is a pure
/// function of its input.
pub proof fn lemma_build_deterministic<S: IndexFn>(
    a: ReverseIndex,
    b: ReverseIndex,
    texts: Seq<Seq<char>>,
)
    requires
        a.is_built_from::<S>(texts),
        b.is_built_from::<S>(texts),
    ensures
        a.map@ == b.map@,
        a.texts() == b.texts(),
{
}

/// After an append, the recorded positions of every key that the appended
/// item's text does not produce are unchanged, and so are the items they
/// point at: lookups under such keys return what they returned before.
pub proof fn lemma_append_preserves_unrelated<S: IndexFn>(
    before: ReverseIndex,
    after: ReverseIndex,
    string: String,
    k: Seq<char>,
)
    requires
        before.wf(),
        after.buffer@ == before.buffer@.push(string),
        after.map@ == insert_keys(
            before.map@,
            S::keys(string@),
            before.buffer@.len() as usize,
        ),
        !S::keys(string@).contains(k),
    ensures
        after.map@.contains_key(k) <==> before.map@.contains_key(k),
        after.map@.contains_key(k) ==> after.map@[k] == before.map@[k],
        before.map@.contains_key(k) ==> forall|i: int|
            0 <= i < before.map@[k].len() ==> after.texts()[#[trigger] before.map@[k][i] as int]
                == before.texts()[before.map@[k][i] as int],
{
    let p = before.buffer@.len() as usize;
    let ks = S::keys(string@);
    lemma_insert_keys_key(before.map@, ks, p, k);
    lemma_no_occurrence(ks, k);
    if after.map@.contains_key(k) {
        assert(after.map@[k] =~= before.map@[k]);
    }
    if before.map@.contains_key(k) {
        assert forall|i: int|
            0 <= i < before.map@[k].len() implies after.texts()[#[trigger] before.map@[k][i] as int]
            == before.texts()[before.map@[k][i] as int] by {
            assert(before.map@[k][i] < before.buffer@.len());
            assert(after.texts()[before.map@[k][i] as int]
                == after.buffer@[before.map@[k][i] as int]@);
        }
    }
}

/// For an index built over `texts`, a key is present exactly when some
/// position's strategy keys contain it, and its recorded positions are
/// exactly the strategy's registrations in insertion order. With `get`'s
/// contract: lookup returns exactly the items whose strategy run inserted
/// their position under the key, in that order.
pub proof fn lemma_built_index_lookup<S: IndexFn>(
    ri: ReverseIndex,
    texts: Seq<Seq<char>>,
    k: Seq<char>,
)
    requires
        ri.is_built_from::<S>(texts),
    ensures
        ri.map@.contains_key(k) <==> (exists|p: int|
            0 <= p < texts.len() && #[trigger] S::keys(texts[p]).contains(k)),
        ri.map@.contains_key(k) ==> ri.map@[k] == strategy_positions(
            |t: Seq<char>| S::keys(t),
            texts,
            texts.len() as int,
            k,
        ),
{
    let kf = |t: Seq<char>| S::keys(t);
    lemma_built_map_matches_strategy(kf, texts, texts.len() as int, k);
    if ri.map@.contains_key(k) {
        let p = choose|p: int| 0 <= p < texts.len() && #[trigger] kf(texts[p]).contains(k);
        assert(S::keys(texts[p]).contains(k));
    }
    if exists|p: int| 0 <= p < texts.len() && #[trigger] S::keys(texts[p]).contains(k) {
        let p = choose|p: int| 0 <= p < texts.len() && #[trigger] S::keys(texts[p]).contains(k);
        assert(kf(texts[p]).contains(k));
        assert(ri.map@.contains_key(k));
    }
}

/// Sorts `items` by the lexicographic text order and removes duplicate
/// texts: the result ascends strictly and holds exactly the input texts.
#[verifier::loop_isolation(false)]
fn sort_dedup(items: Vec<String>) -> (out: Vec<String>)
    ensures
        text::strictly_sorted(views(out@)),
        forall|t: Seq<char>| views(out@).contains(t) <==> views(items@).contains(t),
{
    let n = items.len();
    let mut out: Vec<String> = Vec::new();
    let mut i: usize = 0;
    while i < n
        invariant
            i <= n,
            n == items@.len(),
            text::strictly_sorted(views(out@)),
            forall|t: Seq<char>|
                views(out@).contains(t) <==> views(items@.take(i as int)).contains(t),
        decreases n - i,
    {
        let ghost before = views(out@);
        sorted_insert_unique(&mut out, &items[i]);
        proof {
            let tv_prev = views(items@.take(i as int));
            let tv_next = views(items@.take(i + 1));
            assert(tv_next.len() == i + 1);
            assert(forall|k: int| 0 <= k < i ==> tv_next[k] == tv_prev[k]);
            assert(tv_next[i as int] == items@[i as int]@);
            assert forall|t: Seq<char>| tv_next.contains(t)
                <==> (tv_prev.contains(t) || t == items@[i as int]@) by {
                if tv_next.contains(t) {
                    let k = choose|k: int| 0 <= k < tv_next.len() && tv_next[k] == t;
                    if k < i {
                        assert(tv_prev[k] == t);
                    }
                }
                if tv_prev.contains(t) {
                    let k = choose|k: int| 0 <= k < tv_prev.len() && tv_prev[k] == t;
                    assert(tv_next[k] == t);
                }
            }
        }
        i = i + 1;
    }
    proof {
        assert(items@.take(n as int) =~= items@);
    }
    out
}

} // verus!

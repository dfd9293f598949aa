//! Document search index: a reverse index whose strategy keys each document
//! under its whitespace-delimited words, with a multi-term search that ranks
//! documents by how many distinct query terms they match, and a positional
//! navigator over the matched documents.

use vstd::prelude::*;
use crate::key_map::insert_keys;
use crate::reverse_index::{IndexFn, ReverseIndex, views};
use crate::reverse_index::{lemma_insert_pos_bounded, positions_bounded};
use crate::ri_iter::RiIndex;
use crate::text;

verus! {

/// The indexing strategy of the document search index: an item's keys are
/// its whitespace-delimited words, in order of appearance. A word repeated
/// in one document pushes that document's position once per occurrence.
pub struct TokenStrategy;

impl IndexFn for TokenStrategy {
    open spec fn keys(text: Seq<char>) -> Seq<Seq<char>> {
        text::split_ws(text)
    }

    fn index_item(ri: &mut ReverseIndex, position: usize) {
        let text = ri.buffer[position].clone();
        let words = text::split_whitespace_chars(text.as_str());
        let n = words.len();
        let ghost ks = Self::keys(text@);
        let ghost m0 = ri.map@;
        proof {
            assert(ks == views(words@));
        }
        let mut i: usize = 0;
        while i < n
            invariant
                i <= n,
                n == words@.len(),
                ks == views(words@),
                ri.buffer == old(ri).buffer,
                position < ri.buffer@.len(),
                m0 == old(ri).map@,
                ri.map.wf(),
                positions_bounded(ri.map@, ri.buffer@.len() as int),
                ri.map@ == insert_keys(m0, ks.take(i as int), position),
            decreases n - i,
        {
            let word = words[i].clone();
            proof {
                assert(word@ == ks[i as int]);
                lemma_insert_pos_bounded(ri.map@, word@, position, ri.buffer@.len() as int);
                assert(ks.take(i + 1).drop_last() =~= ks.take(i as int));
                assert(ks.take(i + 1).last() == ks[i as int]);
            }
            ri.map.insert(word, position);
            i = i + 1;
        }
        proof {
            assert(ks.take(n as int) =~= ks);
        }
    }
}

/// How many distinct terms of `terms` the key map records position `p`
/// under. A term repeated in `terms` counts once, at its first occurrence;
/// a term counts at most once however often `p` stands in its list.
pub open spec fn match_count(
    m: Map<Seq<char>, Seq<usize>>,
    terms: Seq<Seq<char>>,
    p: usize,
) -> nat
    decreases terms.len(),
{
    if terms.len() == 0 {
        0
    } else {
        let rest = match_count(m, terms.drop_last(), p);
        let t = terms.last();
        if terms.drop_last().contains(t) {
            rest
        } else if m.contains_key(t) && m[t].contains(p) {
            rest + 1
        } else {
            rest
        }
    }
}

/// The number of `true` entries.
spec fn num_true(bs: Seq<bool>) -> nat
    decreases bs.len(),
{
    if bs.len() == 0 {
        0
    } else {
        num_true(bs.drop_last()) + if bs.last() {
            1nat
        } else {
            0nat
        }
    }
}

proof fn lemma_num_true_le(bs: Seq<bool>)
    ensures
        num_true(bs) <= bs.len(),
    decreases bs.len(),
{
    if bs.len() > 0 {
        lemma_num_true_le(bs.drop_last());
    }
}

proof fn lemma_num_true_set(bs: Seq<bool>, i: int)
    requires
        0 <= i < bs.len(),
        !bs[i],
    ensures
        num_true(bs.update(i, true)) == num_true(bs) + 1,
    decreases bs.len(),
{
    let bs2 = bs.update(i, true);
    if i == bs.len() - 1 {
        assert(bs2.drop_last() =~= bs.drop_last());
        assert(bs2.last());
        assert(!bs.last());
    } else {
        assert(bs2.drop_last() =~= bs.drop_last().update(i, true));
        assert(bs2.last() == bs.last());
        lemma_num_true_set(bs.drop_last(), i);
    }
}

/// Ingests documents and keys each under the words that appear in it: given
/// a listing of words, the documents containing them can be found.
pub struct DocumentReverseIndex(ReverseIndex);

impl DocumentReverseIndex {
    /// The underlying reverse index.
    pub closed spec fn inner(self) -> ReverseIndex {
        self.0
    }

    /// The index is well formed.
    pub open spec fn wf(self) -> bool {
        self.inner().wf()
    }

    /// How many distinct terms of `query` match the document at position
    /// `p`.
    pub open spec fn doc_count(self, query: Seq<char>, p: usize) -> nat {
        match_count(self.inner().map@, text::split_ws(query), p)
    }

    /// `ps` ranks the documents matching `query`: each listed position
    /// matches at least one term, none repeats, every matching position is
    /// listed, and the list descends by match count with ties broken by
    /// ascending position.
    pub open spec fn ranked(self, query: Seq<char>, ps: Seq<usize>) -> bool {
        let n = self.inner().buffer@.len();
        &&& forall|i: int|
            0 <= i < ps.len() ==> ps[i] < n && self.doc_count(query, #[trigger] ps[i]) > 0
        &&& forall|i: int, j: int| 0 <= i < j < ps.len() ==> ps[i] != ps[j]
        &&& forall|i: int, j: int|
            0 <= i < j < ps.len() ==> self.doc_count(query, #[trigger] ps[i]) > self.doc_count(
                query,
                #[trigger] ps[j],
            ) || (self.doc_count(query, ps[i]) == self.doc_count(query, ps[j]) && ps[i] < ps[j])
        &&& forall|p: usize| p < n && self.doc_count(query, p) > 0 ==> #[trigger] ps.contains(p)
    }

    /// Constructs the reverse index from a buffer of documents. Offers no
    /// deduplication.
    pub fn from_buffer(buffer: Vec<String>) -> (ri: DocumentReverseIndex)
        ensures
            ri.wf(),
            ri.inner().buffer == buffer,
            ri.inner().is_built_from::<TokenStrategy>(views(buffer@)),
    {
        DocumentReverseIndex(ReverseIndex::from_buffer::<TokenStrategy>(buffer))
    }

    /// Constructs the reverse index from an ordered collection of documents.
    pub fn from_iter(items: Vec<String>) -> (ri: DocumentReverseIndex)
        ensures
            ri.wf(),
            ri.inner().buffer == items,
            ri.inner().is_built_from::<TokenStrategy>(views(items@)),
    {
        DocumentReverseIndex(ReverseIndex::from_iter::<TokenStrategy>(items))
    }

    /// Adds one document to the reverse index without re-sorting or
    /// deduplicating the buffer.
    pub fn add_document(self, string: String) -> (ri: DocumentReverseIndex)
        requires
            self.wf(),
        ensures
            ri.wf(),
            ri.inner().buffer@ == self.inner().buffer@.push(string),
            ri.inner().map@ == insert_keys(
                self.inner().map@,
                TokenStrategy::keys(string@),
                self.inner().buffer@.len() as usize,
            ),
    {
        DocumentReverseIndex(self.0.add_word::<TokenStrategy>(string))
    }

    /// Counts, per buffer position, how many distinct terms of `terms` the
    /// key map records that position under.
    #[verifier::loop_isolation(false)]
    fn compute_counts(&self, terms: &Vec<String>) -> (counts: Vec<usize>)
        requires
            self.wf(),
        ensures
            counts@.len() == self.inner().buffer@.len(),
            forall|p: int|
                0 <= p < counts@.len() ==> counts@[p] == match_count(
                    self.inner().map@,
                    views(terms@),
                    p as usize,
                ),
    {
        let ghost m = self.0.map@;
        let ghost tv = views(terms@);
        let n = self.0.buffer.len();
        let mut counts: Vec<usize> = Vec::new();
        let mut q: usize = 0;
        while q < n
            invariant
                q <= n,
                counts@.len() == q,
                forall|p: int| 0 <= p < q ==> counts@[p] == 0,
            decreases n - q,
        {
            counts.push(0);
            q = q + 1;
        }
        let t_total = terms.len();
        let mut i: usize = 0;
        while i < t_total
            invariant
                i <= t_total,
                t_total == terms@.len(),
                counts@.len() == n,
                n == self.inner().buffer@.len(),
                forall|p: int| 0 <= p < n ==> counts@[p] <= i,
                forall|p: int|
                    0 <= p < n ==> counts@[p] == match_count(m, tv.take(i as int), p as usize),
            decreases t_total - i,
        {
            let ghost tv_prev = tv.take(i as int);
            let ghost tv_next = tv.take(i + 1);
            proof {
                assert(tv_next.drop_last() =~= tv_prev);
                assert(tv_next.last() == tv[i as int]);
            }
            let mut dup = false;
            let mut j: usize = 0;
            while j < i
                invariant
                    j <= i,
                    i < t_total,
                    dup ==> tv_prev.contains(tv[i as int]),
                    !dup ==> forall|k: int| 0 <= k < j ==> tv[k] != tv[i as int],
                decreases i - j,
            {
                if text::str_eq(terms[j].as_str(), terms[i].as_str()) {
                    dup = true;
                    proof {
                        assert(tv_prev[j as int] == tv[j as int]);
                    }
                }
                j = j + 1;
            }
            if !dup {
                proof {
                    assert forall|k: int| 0 <= k < tv_prev.len() implies tv_prev[k] != tv[i as int] by {
                        assert(tv_prev[k] == tv[k]);
                    }
                    assert(!tv_prev.contains(tv[i as int]));
                }
                match self.0.map.get(terms[i].as_str()) {
                    Some(positions) => {
                        let ghost plist = m[tv[i as int]];
                        let mut matched: Vec<bool> = Vec::new();
                        let mut q2: usize = 0;
                        while q2 < n
                            invariant
                                q2 <= n,
                                matched@.len() == q2,
                                forall|p: int| 0 <= p < q2 ==> !matched@[p],
                            decreases n - q2,
                        {
                            matched.push(false);
                            q2 = q2 + 1;
                        }
                        let p_len = positions.len();
                        let mut k: usize = 0;
                        while k < p_len
                            invariant
                                k <= p_len,
                                p_len == plist.len(),
                                positions@ == plist,
                                matched@.len() == n,
                                forall|p: int|
                                    0 <= p < n ==> matched@[p] == plist.take(k as int).contains(
                                        p as usize,
                                    ),
                            decreases p_len - k,
                        {
                            let pos = positions[k];
                            assert(pos < n);
                            let ghost matched_before = matched@;
                            matched[pos] = true;
                            proof {
                                assert(plist.take(k + 1).drop_last() =~= plist.take(k as int));
                                assert forall|p: int| 0 <= p < n implies matched@[p] == plist.take(
                                    k + 1,
                                ).contains(p as usize) by {
                                    let tk = plist.take(k + 1);
                                    assert(tk.last() == pos);
                                    if p == pos {
                                        assert(tk[k as int] == pos);
                                        assert(tk.contains(pos));
                                    } else {
                                        assert(matched@[p] == matched_before[p]);
                                        if tk.contains(p as usize) {
                                            let w = choose|w: int|
                                                0 <= w < tk.len() && tk[w] == p as usize;
                                            assert(w < k);
                                            assert(plist.take(k as int)[w] == p as usize);
                                        }
                                        if plist.take(k as int).contains(p as usize) {
                                            let w = choose|w: int|
                                                0 <= w < k && plist.take(k as int)[w] == (
                                                p as usize);
                                            assert(tk[w] == p as usize);
                                        }
                                    }
                                }
                            }
                            k = k + 1;
                        }
                        proof {
                            assert(plist.take(p_len as int) =~= plist);
                        }
                        let ghost counts_before = counts@;
                        let mut p: usize = 0;
                        while p < n
                            invariant
                                p <= n,
                                counts@.len() == n,
                                matched@.len() == n,
                                i < t_total,
                                forall|pp: int| 0 <= pp < n ==> counts_before[pp] <= i,
                                forall|pp: int|
                                    0 <= pp < n ==> matched@[pp] == plist.contains(pp as usize),
                                forall|pp: int|
                                    0 <= pp < n ==> counts_before[pp] == match_count(
                                        m,
                                        tv_prev,
                                        pp as usize,
                                    ),
                                forall|pp: int|
                                    p <= pp < n ==> counts@[pp] == counts_before[pp],
                                forall|pp: int|
                                    0 <= pp < p ==> counts@[pp] == counts_before[pp] + if matched@[pp] {
                                        1int
                                    } else {
                                        0int
                                    },
                            decreases n - p,
                        {
                            if matched[p] {
                                proof {
                                    assert(counts@[p as int] == counts_before[p as int]);
                                    assert(counts_before[p as int] <= i);
                                }
                                let c = counts[p];
                                counts[p] = c + 1;
                            }
                            p = p + 1;
                        }
                        proof {
                            assert(m.contains_key(tv[i as int]));
                            assert forall|pp: int| 0 <= pp < n implies counts@[pp] == match_count(
                                m,
                                tv_next,
                                pp as usize,
                            ) by {
                                assert(matched@[pp] == plist.contains(pp as usize));
                            }
                        }
                    },
                    None => {
                        proof {
                            assert(!m.contains_key(tv[i as int]));
                            assert(forall|pp: int|
                                0 <= pp < n ==> counts@[pp] == match_count(
                                    m,
                                    tv_next,
                                    pp as usize,
                                ));
                        }
                    },
                }
            } else {
                proof {
                    assert(forall|pp: int|
                        0 <= pp < n ==> counts@[pp] == match_count(m, tv_next, pp as usize));
                }
            }
            i = i + 1;
        }
        proof {
            assert(tv.take(t_total as int) =~= tv);
        }
        counts
    }

    /// The matched buffer positions for `search`, every one of them, ranked
    /// by descending match count with ties broken by ascending position.
    #[verifier::loop_isolation(false)]
    fn get_raw_indicies(&self, search: &str) -> (r: Vec<usize>)
        requires
            self.wf(),
        ensures
            self.ranked(search@, r@),
    {
        let terms = text::split_whitespace_chars(search);
        let counts = self.compute_counts(&terms);
        let r = select_ranked(&counts);
        proof {
            assert forall|p: usize| p < counts@.len() implies counts@[p as int] == self.doc_count(
                search@,
                p,
            ) by {
                assert(views(terms@) == text::split_ws(search@));
            }
        }
        r
    }

    /// Splits `search` on whitespace and returns up to `number_of_documents`
    /// matching documents, best match first: documents match more distinct
    /// search terms than any document ranked after them, and earlier
    /// positions win ties. No term matching anything yields no documents.
    pub fn get<'a>(&'a self, search: &str, number_of_documents: usize) -> (r: Vec<&'a String>)
        requires
            self.wf(),
        ensures
            exists|ps: Seq<usize>|
                {
                    &&& self.ranked(search@, ps)
                    &&& r@.len() == if ps.len() < number_of_documents {
                        ps.len()
                    } else {
                        number_of_documents as nat
                    }
                    &&& (forall|i: int|
                        0 <= i < r@.len() ==> r@[i]@ == self.inner().texts()[ps[i] as int])
                },
    {
        let ranking = self.get_raw_indicies(search);
        let total = ranking.len();
        let limit = if total < number_of_documents {
            total
        } else {
            number_of_documents
        };
        let mut r: Vec<&'a String> = Vec::new();
        let mut i: usize = 0;
        while i < limit
            invariant
                i <= limit,
                limit <= total,
                total == ranking@.len(),
                self.wf(),
                self.ranked(search@, ranking@),
                r@.len() == i,
                forall|j: int| 0 <= j < i ==> r@[j]@ == self.inner().texts()[ranking@[j] as int],
            decreases limit - i,
        {
            let p = ranking[i];
            assert(p < self.inner().buffer@.len());
            r.push(&self.0.buffer[p]);
            i = i + 1;
        }
        r
    }

    /// As `get`, but returns navigator handles bound to the matched
    /// positions instead of the documents themselves, for walking to
    /// buffer-adjacent documents afterwards.
    pub fn get_indices<'a>(&'a self, search: &str, number_of_documents: usize) -> (r: Vec<
        RiIndex<'a>,
    >)
        requires
            self.wf(),
        ensures
            exists|ps: Seq<usize>|
                {
                    &&& self.ranked(search@, ps)
                    &&& r@.len() == if ps.len() < number_of_documents {
                        ps.len()
                    } else {
                        number_of_documents as nat
                    }
                    &&& (forall|i: int|
                        0 <= i < r@.len() ==> (#[trigger] r@[i]).wf() && r@[i].target()
                            == self.inner() && r@[i].position() == ps[i])
                },
    {
        let ranking = self.get_raw_indicies(search);
        let total = ranking.len();
        let limit = if total < number_of_documents {
            total
        } else {
            number_of_documents
        };
        let mut r: Vec<RiIndex<'a>> = Vec::new();
        let mut i: usize = 0;
        while i < limit
            invariant
                i <= limit,
                limit <= total,
                total == ranking@.len(),
                self.wf(),
                self.ranked(search@, ranking@),
                r@.len() == i,
                forall|j: int|
                    0 <= j < i ==> (#[trigger] r@[j]).wf() && r@[j].target() == self.inner()
                        && r@[j].position() == ranking@[j],
            decreases limit - i,
        {
            let p = ranking[i];
            assert(p < self.inner().buffer@.len());
            r.push(RiIndex::new(p, &self.0));
            i = i + 1;
        }
        r
    }

    /// Adds a buffer of further documents: sorts the combined buffer,
    /// removes duplicates, and reruns the indexing.
    pub fn concatonate_dedup_and_reindex(self, buffer: Vec<String>) -> (ri: DocumentReverseIndex)
        ensures
            ri.wf(),
            text::strictly_sorted(ri.inner().texts()),
            forall|t: Seq<char>|
                ri.inner().texts().contains(t) <==> (self.inner().texts().contains(t) || views(
                    buffer@,
                ).contains(t)),
            ri.inner().is_built_from::<TokenStrategy>(ri.inner().texts()),
    {
        DocumentReverseIndex(self.0.concatonate_dedup_and_reindex::<TokenStrategy>(buffer))
    }
}

/// Selects every position with a positive count, ordered by descending
/// count, ties broken by ascending position.
fn select_ranked(counts: &Vec<usize>) -> (r: Vec<usize>)
    ensures
        forall|i: int| 0 <= i < r@.len() ==> r@[i] < counts@.len() && counts@[#[trigger] r@[i] as int] > 0,
        forall|i: int, j: int| 0 <= i < j < r@.len() ==> r@[i] != r@[j],
        forall|i: int, j: int|
            0 <= i < j < r@.len() ==> counts@[#[trigger] r@[i] as int] > counts@[#[trigger] r@[j] as int]
                || (counts@[r@[i] as int] == counts@[r@[j] as int] && r@[i] < r@[j]),
        forall|p: usize| p < counts@.len() && counts@[p as int] > 0 ==> #[trigger] r@.contains(p),
{
    let n = counts.len();
    let mut taken: Vec<bool> = Vec::new();
    let mut q: usize = 0;
    while q < n
        invariant
            q <= n,
            taken@.len() == q,
            forall|p: int| 0 <= p < q ==> !taken@[p],
        decreases n - q,
    {
        taken.push(false);
        q = q + 1;
    }
    proof {
        lemma_num_true_le(taken@);
    }
    let mut r: Vec<usize> = Vec::new();
    loop
        invariant
            taken@.len() == n,
            n == counts@.len(),
            forall|i: int| 0 <= i < r@.len() ==> r@[i] < n && counts@[#[trigger] r@[i] as int] > 0,
            forall|p: usize| p < n ==> (taken@[p as int] <==> r@.contains(p)),
            forall|i: int, j: int| 0 <= i < j < r@.len() ==> r@[i] != r@[j],
            forall|i: int, j: int|
                0 <= i < j < r@.len() ==> counts@[#[trigger] r@[i] as int] > counts@[#[trigger] r@[j] as int] || (counts@[r@[i] as int] == counts@[r@[j] as int] && r@[i] < r@[j]),
            forall|i: int, p: usize| #![trigger r@[i], taken@[p as int]]
                0 <= i < r@.len() && p < n && !taken@[p as int] && counts@[p as int] > 0
                    ==> counts@[r@[i] as int] > counts@[p as int] || (counts@[r@[i] as int] == counts@[p as int] && r@[i] < p),
        ensures
            forall|i: int| 0 <= i < r@.len() ==> r@[i] < n && counts@[#[trigger] r@[i] as int] > 0,
            forall|p: usize| p < n ==> (taken@[p as int] <==> r@.contains(p)),
            forall|i: int, j: int| 0 <= i < j < r@.len() ==> r@[i] != r@[j],
            forall|i: int, j: int|
                0 <= i < j < r@.len() ==> counts@[#[trigger] r@[i] as int] > counts@[#[trigger] r@[j] as int] || (counts@[r@[i] as int] == counts@[r@[j] as int] && r@[i] < r@[j]),
            forall|p: usize| p < n && counts@[p as int] > 0 ==> taken@[p as int],
        decreases n - num_true(taken@),
    {
        let mut best: usize = n;
        let mut q2: usize = 0;
        while q2 < n
            invariant
                q2 <= n,
                n == counts@.len(),
                taken@.len() == n,
                best == n || (best < q2 && !taken@[best as int] && counts@[best as int] > 0),
                best == n ==> forall|p: int| 0 <= p < q2 ==> taken@[p] || counts@[p] == 0,
                best < n ==> forall|p: usize|
                    p < q2 && p != best && !taken@[p as int] && counts@[p as int] > 0
                        ==> counts@[best as int] > counts@[p as int] || (counts@[best as int]
                        == counts@[p as int] && best < p),
            decreases n - q2,
        {
            if !taken[q2] && counts[q2] > 0 {
                if best == n {
                    best = q2;
                } else if counts[q2] > counts[best] {
                    best = q2;
                }
            }
            q2 = q2 + 1;
        }
        if best == n {
            break;
        }
        proof {
            lemma_num_true_set(taken@, best as int);
            lemma_num_true_le(taken@);
        }
        taken[best] = true;
        proof {
            lemma_num_true_le(taken@);
        }
        let ghost r_before = r@;
        r.push(best);
        proof {
            assert(r@ == r_before.push(best));
            assert(r@.last() == best);
            assert forall|p: usize| p < n implies (taken@[p as int] <==> r@.contains(p)) by {
                if p == best {
                    assert(r@[r@.len() - 1] == best);
                    assert(r@.contains(best));
                } else {
                    if r@.contains(p) {
                        let w = choose|w: int| 0 <= w < r@.len() && r@[w] == p;
                        assert(w < r_before.len());
                        assert(r_before[w] == p);
                        assert(r_before.contains(p));
                    }
                    if r_before.contains(p) {
                        let w = choose|w: int| 0 <= w < r_before.len() && r_before[w] == p;
                        assert(r@[w] == p);
                    }
                }
            }
        }
    }
    proof {
        assert forall|p: usize| p < n && counts@[p as int] > 0 implies r@.contains(p) by {
            assert(taken@[p as int]);
        }
    }
    r
}

} // verus!

//! Word completion index: a reverse index whose strategy keys each word
//! under every one of its character prefixes, so that looking up a prefix
//! returns all indexed words beginning with it.

use vstd::prelude::*;
use vstd::string::*;
use crate::key_map::insert_keys;
use crate::reverse_index::{IndexFn, ReverseIndex, views};
use crate::reverse_index::{lemma_insert_pos_bounded, positions_bounded};
use crate::text;

verus! {

/// The indexing strategy of the word completion index: an item's keys are
/// all prefixes of its text, shortest first, of length 1 up to the full
/// text.
pub struct PrefixStrategy;

impl IndexFn for PrefixStrategy {
    open spec fn keys(text: Seq<char>) -> Seq<Seq<char>> {
        Seq::new(text.len(), |i: int| text.take(i + 1))
    }

    fn index_item(ri: &mut ReverseIndex, position: usize) {
        let text = ri.buffer[position].clone();
        let n = text.as_str().unicode_len();
        let ghost ks = Self::keys(text@);
        let ghost m0 = ri.map@;
        let mut i: usize = 0;
        while i < n
            invariant
                i <= n,
                n == text@.len(),
                ri.buffer == old(ri).buffer,
                text@ == old(ri).buffer@[position as int]@,
                position < ri.buffer@.len(),
                ks == Self::keys(text@),
                m0 == old(ri).map@,
                ri.map.wf(),
                positions_bounded(ri.map@, ri.buffer@.len() as int),
                ri.map@ == insert_keys(m0, ks.take(i as int), position),
            decreases n - i,
        {
            let key = text.as_str().substring_char(0, i + 1).to_owned();
            proof {
                assert(key@ == ks[i as int]);
                lemma_insert_pos_bounded(ri.map@, key@, position, ri.buffer@.len() as int);
                assert(ks.take(i + 1).drop_last() =~= ks.take(i as int));
                assert(ks.take(i + 1).last() == ks[i as int]);
            }
            ri.map.insert(key, position);
            i = i + 1;
        }
        proof {
            assert(ks.take(n as int) =~= ks);
        }
    }
}

/// The prefix strategy registers `k` for a text exactly when `k` is a
/// non-empty prefix of it.
pub proof fn lemma_prefix_keys_contain(t: Seq<char>, k: Seq<char>)
    ensures
        PrefixStrategy::keys(t).contains(k) <==> (1 <= k.len() <= t.len() && k == t.take(
            k.len() as int,
        )),
{
    let ks = PrefixStrategy::keys(t);
    if ks.contains(k) {
        let i = choose|i: int| 0 <= i < ks.len() && ks[i] == k;
        assert(k == t.take(i + 1));
        assert(k.len() == i + 1);
    }
    if 1 <= k.len() <= t.len() && k == t.take(k.len() as int) {
        assert(ks[k.len() - 1] == k);
    }
}

/// For a word index built over `texts`, a key is recorded exactly when it is
/// a non-empty prefix of some indexed word: looking up a prefix finds the
/// words beginning with it and nothing else.
pub proof fn lemma_completion_semantics(ri: ReverseIndex, texts: Seq<Seq<char>>, k: Seq<char>)
    requires
        ri.is_built_from::<PrefixStrategy>(texts),
    ensures
        ri.map@.contains_key(k) <==> (exists|p: int|
            0 <= p < texts.len() && 1 <= k.len() <= #[trigger] texts[p].len() && k == texts[p].take(k.len() as int)),
{
    crate::reverse_index::lemma_built_index_lookup::<PrefixStrategy>(ri, texts, k);
    assert forall|p: int| 0 <= p < texts.len() implies (#[trigger] PrefixStrategy::keys(
        texts[p],
    ).contains(k) <==> (1 <= k.len() <= texts[p].len() && k == texts[p].take(
        k.len() as int,
    ))) by {
        lemma_prefix_keys_contain(texts[p], k);
    }
    if ri.map@.contains_key(k) {
        let p = choose|p: int| 0 <= p < texts.len() && #[trigger] PrefixStrategy::keys(
            texts[p],
        ).contains(k);
        assert(1 <= k.len() <= texts[p].len() && k == texts[p].take(k.len() as int));
    }
    if exists|p: int|
        0 <= p < texts.len() && 1 <= k.len() <= #[trigger] texts[p].len() && k == texts[p].take(k.len() as int) {
        let p = choose|p: int|
            0 <= p < texts.len() && 1 <= k.len() <= #[trigger] texts[p].len()
                && k == texts[p].take(k.len() as int);
        assert(PrefixStrategy::keys(texts[p]).contains(k));
    }
}

/// Ingests a set of words and keys each under all of its prefixes, from the
/// one-character prefix up to the whole word. Given a prefix of an indexed
/// word, the full words beginning with it can be retrieved: the basis of a
/// completion engine as shells have one.
pub struct WordReverseIndex(ReverseIndex);

impl WordReverseIndex {
    /// The underlying reverse index.
    pub closed spec fn inner(self) -> ReverseIndex {
        self.0
    }

    /// The index is well formed.
    pub open spec fn wf(self) -> bool {
        self.inner().wf()
    }

    /// Builds the completion index over `buffer` with the prefix strategy.
    pub fn from_buffer(buffer: Vec<String>) -> (ri: WordReverseIndex)
        ensures
            ri.wf(),
            ri.inner().buffer == buffer,
            ri.inner().is_built_from::<PrefixStrategy>(views(buffer@)),
    {
        WordReverseIndex(ReverseIndex::from_buffer::<PrefixStrategy>(buffer))
    }

    /// Appends one word without re-sorting or deduplicating the buffer.
    pub fn add_word(self, string: String) -> (ri: WordReverseIndex)
        requires
            self.wf(),
        ensures
            ri.wf(),
            ri.inner().buffer@ == self.inner().buffer@.push(string),
            ri.inner().map@ == insert_keys(
                self.inner().map@,
                PrefixStrategy::keys(string@),
                self.inner().buffer@.len() as usize,
            ),
    {
        WordReverseIndex(self.0.add_word::<PrefixStrategy>(string))
    }

    /// The words recorded under `search`: all indexed words with that
    /// prefix, in build order.
    pub fn get<'a>(&'a self, search: &str) -> (r: Vec<&'a String>)
        requires
            self.wf(),
        ensures
            self.inner().map@.contains_key(search@) ==> r@.len()
                == self.inner().map@[search@].len() && (forall|i: int|
                0 <= i < r@.len()
                    ==> r@[i]@ == self.inner().texts()[self.inner().map@[search@][i] as int]),
            !self.inner().map@.contains_key(search@) ==> r@.len() == 0,
    {
        self.0.get(search)
    }

    /// Adds another vector of words: sorts the combined buffer, removes
    /// duplicates, and reindexes from scratch.
    pub fn concatonate_dedup_and_reindex(self, buffer: Vec<String>) -> (ri: WordReverseIndex)
        ensures
            ri.wf(),
            text::strictly_sorted(ri.inner().texts()),
            forall|t: Seq<char>|
                ri.inner().texts().contains(t) <==> (self.inner().texts().contains(t) || views(
                    buffer@,
                ).contains(t)),
            ri.inner().is_built_from::<PrefixStrategy>(ri.inner().texts()),
    {
        WordReverseIndex(self.0.concatonate_dedup_and_reindex::<PrefixStrategy>(buffer))
    }
}

} // verus!

//! Character-level text primitives: lexicographic comparison of character
//! sequences, whitespace classification, and whitespace splitting. All
//! executable functions are proved against the spec-level definitions here.

use vstd::prelude::*;
use vstd::string::*;

verus! {

/// Lexicographic (code-point) order on character sequences: `a <= b`.
/// For UTF-8 encoded strings this coincides with Rust's byte-wise `Ord`
/// on `String`, since UTF-8 preserves code-point order.
pub open spec fn lex_le(a: Seq<char>, b: Seq<char>) -> bool
    decreases a.len(),
{
    if a.len() == 0 {
        true
    } else if b.len() == 0 {
        false
    } else if a[0] != b[0] {
        a[0] < b[0]
    } else {
        lex_le(a.drop_first(), b.drop_first())
    }
}

/// Strict lexicographic order.
pub open spec fn lex_lt(a: Seq<char>, b: Seq<char>) -> bool {
    lex_le(a, b) && a != b
}

/// No two distinct positions hold equal texts, and the texts ascend in the
/// lexicographic order: the sequence is sorted and free of duplicates.
pub open spec fn strictly_sorted(ts: Seq<Seq<char>>) -> bool {
    forall|i: int, j: int| 0 <= i < j < ts.len() ==> lex_lt(ts[i], ts[j])
}

/// Any two character sequences are comparable.
pub proof fn lemma_lex_le_total(a: Seq<char>, b: Seq<char>)
    ensures
        lex_le(a, b) || lex_le(b, a),
    decreases a.len(),
{
    if a.len() == 0 {
        assert(lex_le(a, b));
    } else if b.len() == 0 {
        assert(lex_le(b, a));
    } else if a[0] == b[0] {
        lemma_lex_le_total(a.drop_first(), b.drop_first());
        assert(lex_le(a, b) || lex_le(b, a));
    } else {
        assert(a[0] < b[0] || b[0] < a[0]);
        assert(lex_le(a, b) || lex_le(b, a));
    }
}

/// Sequences below each other are equal.
pub proof fn lemma_lex_le_antisym(a: Seq<char>, b: Seq<char>)
    requires
        lex_le(a, b),
        lex_le(b, a),
    ensures
        a == b,
    decreases a.len(),
{
    if a.len() == 0 {
        assert(b.len() == 0);
        assert(a =~= b);
    } else {
        assert(b.len() > 0);
        assert(a[0] == b[0]);
        lemma_lex_le_antisym(a.drop_first(), b.drop_first());
        assert(a =~= b) by {
            assert(forall|i: int| 1 <= i < a.len() ==> a[i] == a.drop_first()[i - 1]);
            assert(forall|i: int| 1 <= i < b.len() ==> b[i] == b.drop_first()[i - 1]);
        }
    }
}

/// The lexicographic order is transitive.
pub proof fn lemma_lex_le_trans(a: Seq<char>, b: Seq<char>, c: Seq<char>)
    requires
        lex_le(a, b),
        lex_le(b, c),
    ensures
        lex_le(a, c),
    decreases a.len(),
{
    if a.len() > 0 {
        assert(b.len() > 0);
        assert(c.len() > 0);
        if a[0] == b[0] && b[0] == c[0] {
            lemma_lex_le_trans(a.drop_first(), b.drop_first(), c.drop_first());
        }
    }
}

/// The strict lexicographic order is transitive.
pub proof fn lemma_lex_lt_trans(a: Seq<char>, b: Seq<char>, c: Seq<char>)
    requires
        lex_lt(a, b),
        lex_lt(b, c),
    ensures
        lex_lt(a, c),
{
    lemma_lex_le_trans(a, b, c);
    if a == c {
        lemma_lex_le_antisym(b, c);
    }
}

/// Whitespace, as the Unicode `White_Space` property lists it.
pub open spec fn is_ws(c: char) -> bool {
    c == ' ' || c == '\t' || c == '\n' || c == '\u{b}' || c == '\u{c}' || c == '\r'
        || c == '\u{85}' || c == '\u{a0}' || c == '\u{1680}' || c == '\u{2000}'
        || c == '\u{2001}' || c == '\u{2002}' || c == '\u{2003}' || c == '\u{2004}'
        || c == '\u{2005}' || c == '\u{2006}' || c == '\u{2007}' || c == '\u{2008}'
        || c == '\u{2009}' || c == '\u{200a}' || c == '\u{2028}' || c == '\u{2029}'
        || c == '\u{202f}' || c == '\u{205f}' || c == '\u{3000}'
}

/// Length of the run of non-whitespace characters starting at `i`.
pub open spec fn word_len_from(text: Seq<char>, i: int) -> nat
    decreases text.len() - i when 0 <= i <= text.len()
{
    if i >= text.len() || is_ws(text[i]) {
        0
    } else {
        1 + word_len_from(text, i + 1)
    }
}

/// The run of non-whitespace characters starting at `i` ends within the text.
pub proof fn lemma_word_len_from_le(text: Seq<char>, i: int)
    requires
        0 <= i <= text.len(),
    ensures
        i + word_len_from(text, i) <= text.len(),
    decreases text.len() - i,
{
    if i < text.len() && !is_ws(text[i]) {
        lemma_word_len_from_le(text, i + 1);
    }
}

/// The whitespace-delimited words of `text` from position `i` on: maximal
/// runs of non-whitespace characters, in order of appearance.
pub open spec fn split_ws_from(text: Seq<char>, i: int) -> Seq<Seq<char>>
    decreases text.len() - i when 0 <= i <= text.len() via split_ws_from_decreases
{
    if i >= text.len() {
        Seq::empty()
    } else if is_ws(text[i]) {
        split_ws_from(text, i + 1)
    } else {
        seq![text.subrange(i, i + word_len_from(text, i))]
            + split_ws_from(text, i + word_len_from(text, i))
    }
}

#[via_fn]
proof fn split_ws_from_decreases(text: Seq<char>, i: int) {
    if 0 <= i < text.len() && !is_ws(text[i]) {
        lemma_word_len_from_le(text, i);
    }
}

/// The whitespace-delimited words of `text`.
pub open spec fn split_ws(text: Seq<char>) -> Seq<Seq<char>> {
    split_ws_from(text, 0)
}

/// Whether `c` is whitespace, decided exactly as `is_ws` states.
pub fn is_whitespace_char(c: char) -> (r: bool)
    ensures
        r == is_ws(c),
{
    c == ' ' || c == '\t' || c == '\n' || c == '\u{b}' || c == '\u{c}' || c == '\r'
        || c == '\u{85}' || c == '\u{a0}' || c == '\u{1680}' || c == '\u{2000}'
        || c == '\u{2001}' || c == '\u{2002}' || c == '\u{2003}' || c == '\u{2004}'
        || c == '\u{2005}' || c == '\u{2006}' || c == '\u{2007}' || c == '\u{2008}'
        || c == '\u{2009}' || c == '\u{200a}' || c == '\u{2028}' || c == '\u{2029}'
        || c == '\u{202f}' || c == '\u{205f}' || c == '\u{3000}'
}

/// A run of non-whitespace characters that is ended on both sides has the
/// exact length the scan found.
pub proof fn lemma_word_len_from_exact(text: Seq<char>, i: int, j: int)
    requires
        0 <= i <= j <= text.len(),
        forall|k: int| i <= k < j ==> !is_ws(text[k]),
        j == text.len() || is_ws(text[j]),
    ensures
        word_len_from(text, i) == j - i,
    decreases j - i,
{
    if i < j {
        lemma_word_len_from_exact(text, i + 1, j);
    }
}

/// Splits `s` into its whitespace-delimited words, exactly as `split_ws`
/// states them.
pub fn split_whitespace_chars(s: &str) -> (words: Vec<String>)
    ensures
        words@.map_values(|w: String| w@) == split_ws(s@),
{
    let n = s.unicode_len();
    let mut words: Vec<String> = Vec::new();
    let mut i: usize = 0;
    while i < n
        invariant
            i <= n,
            n == s@.len(),
            split_ws(s@) == words@.map_values(|w: String| w@) + split_ws_from(s@, i as int),
        decreases n - i,
    {
        let c = s.get_char(i);
        if is_whitespace_char(c) {
            i = i + 1;
        } else {
            let mut j: usize = i + 1;
            loop
                invariant
                    i < j <= n,
                    n == s@.len(),
                    forall|k: int| i <= k < j ==> !is_ws(s@[k]),
                ensures
                    i < j <= n,
                    forall|k: int| i <= k < j ==> !is_ws(s@[k]),
                    j == n || is_ws(s@[j as int]),
                decreases n - j,
            {
                if j >= n {
                    break;
                }
                if is_whitespace_char(s.get_char(j)) {
                    break;
                }
                j = j + 1;
            }
            let word = s.substring_char(i, j).to_owned();
            proof {
                lemma_word_len_from_exact(s@, i as int, j as int);
                assert(words@.push(word).map_values(|w: String| w@)
                    =~= words@.map_values(|w: String| w@).push(word@));
                assert(words@.map_values(|w: String| w@) + split_ws_from(s@, i as int)
                    =~= words@.map_values(|w: String| w@).push(word@)
                        + split_ws_from(s@, j as int));
            }
            words.push(word);
            i = j;
        }
    }
    proof {
        assert(words@.map_values(|w: String| w@) + split_ws_from(s@, n as int)
            =~= words@.map_values(|w: String| w@));
    }
    words
}

/// `a <= b` in the lexicographic order on the strings' characters.
pub fn str_le(a: &str, b: &str) -> (r: bool)
    ensures
        r == lex_le(a@, b@),
{
    let a_len = a.unicode_len();
    let b_len = b.unicode_len();
    let mut i: usize = 0;
    proof {
        assert(a@.skip(0) =~= a@);
        assert(b@.skip(0) =~= b@);
    }
    loop
        invariant
            i <= a_len,
            i <= b_len,
            a_len == a@.len(),
            b_len == b@.len(),
            lex_le(a@, b@) == lex_le(a@.skip(i as int), b@.skip(i as int)),
        decreases a_len - i,
    {
        if i >= a_len {
            return true;
        }
        if i >= b_len {
            return false;
        }
        let ca = a.get_char(i);
        let cb = b.get_char(i);
        if ca != cb {
            return ca < cb;
        }
        proof {
            assert(a@.skip(i as int).drop_first() =~= a@.skip(i + 1));
            assert(b@.skip(i as int).drop_first() =~= b@.skip(i + 1));
        }
        i = i + 1;
    }
}

/// Whether the strings hold the same characters.
pub fn str_eq(a: &str, b: &str) -> (r: bool)
    ensures
        r == (a@ == b@),
{
    let a_len = a.unicode_len();
    let b_len = b.unicode_len();
    if a_len != b_len {
        assert(a@ !~= b@);
        return false;
    }
    let mut i: usize = 0;
    while i < a_len
        invariant
            i <= a_len,
            a_len == a@.len(),
            a_len == b@.len(),
            forall|j: int| 0 <= j < i ==> a@[j] == b@[j],
        decreases a_len - i,
    {
        if a.get_char(i) != b.get_char(i) {
            return false;
        }
        i = i + 1;
    }
    proof {
        assert(a@ =~= b@);
    }
    true
}

} // verus!

//! The signature function: a word's characters, lower-cased and sorted into
//! ascending code-point order. Two words are anagrams of each other exactly
//! when their signatures are equal.

use vstd::prelude::*;
use vstd::relations::{sorted_by, total_ordering};
use vstd::seq_lib::lemma_sorted_unique;
use vstd::string::*;

verus! {

/// Ascending code-point order on characters, the order signatures are sorted in.
pub open spec fn char_le(a: char, b: char) -> bool {
    a <= b
}

/// The character order as a function value, for `sort_by` and `sorted_by`.
pub open spec fn char_order() -> spec_fn(char, char) -> bool {
    |a: char, b: char| char_le(a, b)
}

pub proof fn lemma_char_order_total()
    ensures
        total_ordering(char_order()),
{
    let leq = char_order();
    assert forall|a: char, b: char| #[trigger] leq(a, b) && leq(b, a) implies a == b by {
        assert(a as int == b as int);
    }
}

/// The sequence of characters that `str::to_lowercase` produces for a given
/// sequence of characters. The full Unicode lowering rules are not restated
/// here; the result depends on the input characters alone.
pub uninterp spec fn lower_of(s: Seq<char>) -> Seq<char>;

/// Relies on `str::to_lowercase`: the result is the lower-case equivalent of
/// the input, a function of the input characters alone; an empty string stays
/// empty.
#[verifier::external_body]
fn lowercase(s: &str) -> (r: String)
    ensures
        r@ == lower_of(s@),
        s@.len() == 0 ==> r@.len() == 0,
{
    s.to_lowercase()
}

/// Relies on `String::from_iter`: collecting characters yields the string of
/// exactly those characters, in order.
#[verifier::external_body]
pub(crate) fn chars_to_string(v: Vec<char>) -> (r: String)
    ensures
        r@ == v@,
{
    String::from_iter(v)
}

/// The characters of a string, as a vector.
pub(crate) fn str_to_chars(s: &str) -> (r: Vec<char>)
    ensures
        r@ == s@,
{
    let n = s.unicode_len();
    let mut r: Vec<char> = Vec::new();
    let mut i: usize = 0;
    while i < n
        invariant
            n == s@.len(),
            i <= n,
            r@ == s@.take(i as int),
        decreases n - i,
    {
        let c = s.get_char(i);
        r.push(c);
        i = i + 1;
        proof {
            assert(s@.take(i as int) =~= s@.take(i as int - 1).push(s@[i as int - 1]));
        }
    }
    proof {
        assert(s@.take(n as int) =~= s@);
    }
    r
}

/// Inserts `c` into a sorted vector, keeping it sorted.
fn insert_sorted(out: &mut Vec<char>, c: char)
    requires
        sorted_by(old(out)@, char_order()),
    ensures
        sorted_by(final(out)@, char_order()),
        final(out)@.to_multiset() == old(out)@.to_multiset().insert(c),
{
    broadcast use vstd::seq_lib::group_to_multiset_ensures;

    let mut j: usize = 0;
    while j < out.len() && out[j] < c
        invariant
            j <= out@.len(),
            out@ == old(out)@,
            forall|k: int| 0 <= k < j ==> !char_le(c, #[trigger] out@[k]),
        decreases out@.len() - j,
    {
        j = j + 1;
    }
    let ghost prior = out@;
    out.insert(j, c);
    proof {
        assert(out@ == prior.insert(j as int, c));
        assert forall|k1: int, k2: int| 0 <= k1 < k2 < out@.len() implies char_order()(
            out@[k1],
            out@[k2],
        ) by {
            assert(forall|k: int| 0 <= k < j ==> out@[k] == prior[k]);
            assert(out@[j as int] == c);
            assert(forall|k: int| j < k < out@.len() ==> out@[k] == prior[k - 1]);
            if k2 == j {
                assert(!char_le(c, prior[k1]));
            } else if k1 == j {
                if (j as int) < prior.len() {
                    assert(char_le(c, prior[j as int]));
                    if k2 > j + 1 {
                        assert(char_order()(prior[j as int], prior[k2 - 1]));
                    }
                }
            }
        }
    }
}

/// Sorts a vector of characters into ascending code-point order.
fn sort_chars(v: Vec<char>) -> (r: Vec<char>)
    ensures
        sorted_by(r@, char_order()),
        r@.to_multiset() == v@.to_multiset(),
{
    broadcast use vstd::seq_lib::group_to_multiset_ensures;

    let mut out: Vec<char> = Vec::new();
    let mut i: usize = 0;
    proof {
        assert(out@ =~= v@.take(0));
    }
    while i < v.len()
        invariant
            i <= v@.len(),
            sorted_by(out@, char_order()),
            out@.to_multiset() == v@.take(i as int).to_multiset(),
        decreases v@.len() - i,
    {
        insert_sorted(&mut out, v[i]);
        i = i + 1;
        proof {
            assert(v@.take(i as int) =~= v@.take(i as int - 1).push(v@[i as int - 1]));
            vstd::seq_lib::to_multiset_build(v@.take(i as int - 1), v@[i as int - 1]);
        }
    }
    proof {
        assert(v@.take(v@.len() as int) =~= v@);
    }
    out
}

/// A word's canonical signature: its lower-cased characters in ascending order.
pub open spec fn sig_spec(w: Seq<char>) -> Seq<char> {
    lower_of(w).sort_by(char_order())
}

/// The signature of a word, as a character vector.
pub(crate) fn sig_chars(word: &str) -> (r: Vec<char>)
    ensures
        r@ == sig_spec(word@),
        word@.len() == 0 ==> r@.len() == 0,
{
    let low = lowercase(word);
    let chars = str_to_chars(low.as_str());
    let sorted = sort_chars(chars);
    proof {
        lemma_char_order_total();
        lower_of(word@).lemma_sort_by_ensures(char_order());
        lemma_sorted_unique(sorted@, lower_of(word@).sort_by(char_order()), char_order());
        if word@.len() == 0 {
            vstd::seq_lib::to_multiset_len(sorted@);
            vstd::seq_lib::to_multiset_len(lower_of(word@));
        }
    }
    sorted
}

/// Common way to get the signature of a particular word: the word lower-cased,
/// with its letters sorted, so that all words containing the same letters have
/// the same signature. The empty word's signature is empty.
pub fn word_signature(word: &str) -> (r: String)
    ensures
        r@ == sig_spec(word@),
        word@.len() == 0 ==> r@.len() == 0,
{
    chars_to_string(sig_chars(word))
}

/// Law: the signature is a multiset canonicalizer. Two words have equal
/// signatures exactly when their lower-cased character sequences are
/// rearrangements of one another.
pub proof fn lemma_signature_canonical(w1: Seq<char>, w2: Seq<char>)
    ensures
        sig_spec(w1) == sig_spec(w2) <==> lower_of(w1).to_multiset() == lower_of(w2).to_multiset(),
{
    lemma_char_order_total();
    lower_of(w1).lemma_sort_by_ensures(char_order());
    lower_of(w2).lemma_sort_by_ensures(char_order());
    if lower_of(w1).to_multiset() == lower_of(w2).to_multiset() {
        lemma_sorted_unique(sig_spec(w1), sig_spec(w2), char_order());
    }
}

} // verus!

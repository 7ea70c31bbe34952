//! The dictionary store: a mapping from signature to the group of words
//! sharing it, built cumulatively by merging word-list sources. Every merged
//! word stays in the store, so a word without an anagram today can be joined
//! by one from a later source; lookups and the signature count see only the
//! pruned part of the mapping, the groups with at least two distinct words.

use vstd::prelude::*;

verus! {

use crate::parse::{parse_words, parse_words_spec, word_views};
use crate::sig::{sig_chars, sig_spec};

/// The distinct words sharing one signature.
pub type AnagramMatch = Vec<String>;

#[derive(Debug)]
struct GroupEntry {
    sig: Vec<char>,
    words: AnagramMatch,
}

/// The dictionary: the sole mutable state of the core, a mapping from
/// signature to anagram group.
#[derive(Debug)]
pub struct Dictionary {
    entries: Vec<GroupEntry>,
}

/// The views of the words in one group, as a set.
pub open spec fn group_set(words: Seq<String>) -> Set<Seq<char>> {
    word_views(words).to_set()
}

spec fn distinct_sigs(es: Seq<GroupEntry>) -> bool {
    forall|i: int, j: int| 0 <= i < j < es.len() ==> es[i].sig@ != es[j].sig@
}

spec fn entry_wf(e: GroupEntry) -> bool {
    &&& e.words@.len() >= 1
    &&& forall|i: int, j: int| 0 <= i < j < e.words@.len() ==> e.words@[i]@ != e.words@[j]@
    &&& forall|i: int| 0 <= i < e.words@.len() ==> sig_spec(#[trigger] e.words@[i]@) == e.sig@
}

spec fn entries_wf(es: Seq<GroupEntry>) -> bool {
    &&& distinct_sigs(es)
    &&& forall|i: int| 0 <= i < es.len() ==> entry_wf(#[trigger] es[i])
}

spec fn entries_map(es: Seq<GroupEntry>) -> Map<Seq<char>, Set<Seq<char>>>
    decreases es.len(),
{
    if es.len() == 0 {
        Map::empty()
    } else {
        entries_map(es.drop_last()).insert(es.last().sig@, group_set(es.last().words@))
    }
}

impl Dictionary {
    /// What the dictionary holds: for each signature present, the set of the
    /// views of the words sharing it.
    pub closed spec fn view(&self) -> Map<Seq<char>, Set<Seq<char>>> {
        entries_map(self.entries@)
    }

    /// Well-formedness: one group per signature, each group nonempty, without
    /// duplicates, and keyed by its members' signature.
    pub closed spec fn wf(&self) -> bool {
        entries_wf(self.entries@)
    }
}

/// Every group of a mapping is finite, keeps at least two distinct words,
/// and is keyed by its members' signature: what holds of the mapping the
/// dictionary exposes.
pub open spec fn dict_complete(m: Map<Seq<char>, Set<Seq<char>>>) -> bool {
    &&& forall|k: Seq<char>| #[trigger] m.dom().contains(k) ==> m[k].finite() && m[k].len() >= 2
    &&& forall|k: Seq<char>, w: Seq<char>|
        m.dom().contains(k) && #[trigger] m[k].contains(w) ==> sig_spec(w) == k
}

/// One word added to the mapping: it joins the group keyed by its signature,
/// the group being created if absent.
pub open spec fn insert_word(m: Map<Seq<char>, Set<Seq<char>>>, w: Seq<char>) -> Map<
    Seq<char>,
    Set<Seq<char>>,
> {
    let k = sig_spec(w);
    let g = if m.dom().contains(k) {
        m[k]
    } else {
        Set::empty()
    };
    m.insert(k, g.insert(w))
}

/// A sequence of words added to the mapping, left to right.
pub open spec fn insert_words(m: Map<Seq<char>, Set<Seq<char>>>, ws: Seq<Seq<char>>) -> Map<
    Seq<char>,
    Set<Seq<char>>,
>
    decreases ws.len(),
{
    if ws.len() == 0 {
        m
    } else {
        insert_word(insert_words(m, ws.drop_last()), ws.last())
    }
}

/// Global pruning: the part of the mapping the dictionary exposes, the groups
/// with at least two members. A word alone under its signature stays in the
/// store but is not presented until an anagram of it arrives.
pub open spec fn prune(m: Map<Seq<char>, Set<Seq<char>>>) -> Map<Seq<char>, Set<Seq<char>>> {
    Map::new(|k: Seq<char>| m.dom().contains(k) && m[k].len() >= 2, |k: Seq<char>| m[k])
}

proof fn lemma_entries_map(es: Seq<GroupEntry>)
    requires
        distinct_sigs(es),
    ensures
        forall|k: Seq<char>|
            #[trigger] entries_map(es).dom().contains(k) <==> exists|i: int|
                0 <= i < es.len() && #[trigger] es[i].sig@ == k,
        forall|i: int|
            0 <= i < es.len() ==> entries_map(es).dom().contains(#[trigger] es[i].sig@)
                && entries_map(es)[es[i].sig@] == group_set(es[i].words@),
    decreases es.len(),
{
    if es.len() > 0 {
        let prefix = es.drop_last();
        lemma_entries_map(prefix);
        assert forall|i: int| 0 <= i < es.len() implies entries_map(es).dom().contains(
            #[trigger] es[i].sig@,
        ) && entries_map(es)[es[i].sig@] == group_set(es[i].words@) by {
            if i < es.len() - 1 {
                assert(prefix[i] == es[i]);
                assert(es[i].sig@ != es.last().sig@);
            }
        }
        assert forall|k: Seq<char>| #[trigger] entries_map(es).dom().contains(k) implies exists|
            i: int,
        | 0 <= i < es.len() && #[trigger] es[i].sig@ == k by {
            if k != es.last().sig@ {
                assert(entries_map(prefix).dom().contains(k));
                assert(exists|i: int| 0 <= i < prefix.len() && #[trigger] prefix[i].sig@ == k);
                let i = choose|i: int| 0 <= i < prefix.len() && #[trigger] prefix[i].sig@ == k;
                assert(prefix[i] == es[i]);
                assert(es[i].sig@ == k);
            } else {
                assert(es[es.len() - 1].sig@ == k);
            }
        }
        assert forall|k: Seq<char>|
            exists|i: int| 0 <= i < es.len() && #[trigger] es[i].sig@ == k implies entries_map(
            es,
        ).dom().contains(k) by {
            let i = choose|i: int| 0 <= i < es.len() && #[trigger] es[i].sig@ == k;
            if i < es.len() - 1 {
                assert(prefix[i].sig@ == k);
            }
        }
    }
}

fn chars_eq(a: &Vec<char>, b: &Vec<char>) -> (r: bool)
    ensures
        r == (a@ == b@),
{
    if a.len() != b.len() {
        return false;
    }
    let mut i: usize = 0;
    while i < a.len()
        invariant
            i <= a@.len(),
            a@.len() == b@.len(),
            forall|k: int| 0 <= k < i ==> a@[k] == b@[k],
        decreases a@.len() - i,
    {
        if a[i] != b[i] {
            return false;
        }
        i = i + 1;
    }
    proof {
        assert(a@ =~= b@);
    }
    true
}

fn find_entry(entries: &Vec<GroupEntry>, key: &Vec<char>) -> (r: Option<usize>)
    ensures
        match r {
            Some(i) => i < entries@.len() && entries@[i as int].sig@ == key@,
            None => forall|i: int| 0 <= i < entries@.len() ==> entries@[i].sig@ != key@,
        },
{
    let mut i: usize = 0;
    while i < entries.len()
        invariant
            i <= entries@.len(),
            forall|k: int| 0 <= k < i ==> entries@[k].sig@ != key@,
        decreases entries@.len() - i,
    {
        let e = &entries[i];
        if chars_eq(&e.sig, key) {
            return Some(i);
        }
        i = i + 1;
    }
    None
}

fn group_contains(words: &Vec<String>, w: &String) -> (r: bool)
    ensures
        r == word_views(words@).contains(w@),
{
    let mut i: usize = 0;
    while i < words.len()
        invariant
            i <= words@.len(),
            forall|k: int| 0 <= k < i ==> #[trigger] words@[k]@ != w@,
        decreases words@.len() - i,
    {
        if words[i].eq(w) {
            proof {
                assert(word_views(words@)[i as int] == w@);
            }
            return true;
        }
        i = i + 1;
    }
    proof {
        assert forall|k: int| 0 <= k < word_views(words@).len() implies word_views(words@)[k]
            != w@ by {
            assert(words@[k]@ != w@);
        }
    }
    false
}

impl Dictionary {
    /// An empty dictionary.
    pub fn new() -> (d: Dictionary)
        ensures
            d@ == Map::<Seq<char>, Set<Seq<char>>>::empty(),
            d.wf(),
    {
        Dictionary { entries: Vec::new() }
    }
}

proof fn lemma_group_set_push(ws: Seq<String>, w: String)
    ensures
        group_set(ws.push(w)) == group_set(ws).insert(w@),
{
    assert(word_views(ws.push(w)) =~= word_views(ws).push(w@));
    assert forall|x: Seq<char>| #[trigger] group_set(ws.push(w)).contains(x) implies group_set(
        ws,
    ).insert(w@).contains(x) by {
        let i = choose|i: int|
            0 <= i < word_views(ws.push(w)).len() && word_views(ws.push(w))[i] == x;
        if i < ws.len() {
            assert(word_views(ws)[i] == x);
        }
    }
    assert forall|x: Seq<char>| #[trigger] group_set(ws).insert(w@).contains(x) implies group_set(
        ws.push(w),
    ).contains(x) by {
        if x == w@ {
            assert(word_views(ws).push(w@)[ws.len() as int] == x);
        } else {
            let i = choose|i: int| 0 <= i < word_views(ws).len() && word_views(ws)[i] == x;
            assert(word_views(ws).push(w@)[i] == x);
        }
    }
    assert(group_set(ws.push(w)) =~= group_set(ws).insert(w@));
}

proof fn lemma_group_set_len(ws: Seq<String>)
    requires
        forall|i: int, j: int| 0 <= i < j < ws.len() ==> ws[i]@ != ws[j]@,
    ensures
        group_set(ws).finite(),
        group_set(ws).len() == ws.len(),
{
    assert(word_views(ws).no_duplicates());
    word_views(ws).unique_seq_to_set();
}

proof fn lemma_entries_map_update_push(es: Seq<GroupEntry>, es2: Seq<GroupEntry>, idx: int, w: String)
    requires
        distinct_sigs(es),
        0 <= idx < es.len(),
        es2.len() == es.len(),
        es2[idx].sig@ == es[idx].sig@,
        es2[idx].words@ == es[idx].words@.push(w),
        forall|j: int| 0 <= j < es.len() && j != idx ==> es2[j] == es[j],
    ensures
        distinct_sigs(es2),
        entries_map(es2) == entries_map(es).insert(
            es[idx].sig@,
            group_set(es[idx].words@).insert(w@),
        ),
{
    let k = es[idx].sig@;
    assert forall|i: int, j: int| 0 <= i < j < es2.len() implies es2[i].sig@ != es2[j].sig@ by {
        assert(es2[i].sig@ == es[i].sig@);
        assert(es2[j].sig@ == es[j].sig@);
    }
    lemma_entries_map(es);
    lemma_entries_map(es2);
    lemma_group_set_push(es[idx].words@, w);
    let lhs = entries_map(es2);
    let rhs = entries_map(es).insert(k, group_set(es[idx].words@).insert(w@));
    assert forall|x: Seq<char>| #[trigger] lhs.dom().contains(x) implies rhs.dom().contains(x)
        && lhs[x] == rhs[x] by {
        let i = choose|i: int| 0 <= i < es2.len() && #[trigger] es2[i].sig@ == x;
        assert(es[i].sig@ == x);
        if x == k {
            assert(i == idx);
            assert(lhs[x] == group_set(es2[idx].words@));
        } else {
            assert(i != idx);
            assert(es2[i] == es[i]);
            assert(lhs[x] == group_set(es2[i].words@));
            assert(entries_map(es)[x] == group_set(es[i].words@));
        }
    }
    assert forall|x: Seq<char>| #[trigger] rhs.dom().contains(x) implies lhs.dom().contains(x) by {
        if x == k {
            assert(es2[idx].sig@ == x);
        } else {
            assert(entries_map(es).dom().contains(x));
            let i = choose|i: int| 0 <= i < es.len() && #[trigger] es[i].sig@ == x;
            assert(es2[i].sig@ == x);
        }
    }
    assert(lhs =~= rhs);
}

/// Processes a word list into the dictionary: each word joins the group keyed
/// by its signature, the group being created if absent. Words from earlier
/// merges remain, so a group that held a single word grows once an anagram of
/// it arrives.
pub fn process_dictionary(dict: &mut Dictionary, words: Vec<String>)
    requires
        old(dict).wf(),
    ensures
        final(dict).wf(),
        final(dict)@ == insert_words(old(dict)@, word_views(words@)),
{
    let ghost m0 = entries_map(old(dict).entries@);
    let ghost vs = word_views(words@);
    let mut i: usize = 0;
    proof {
        assert(vs.take(0) =~= Seq::<Seq<char>>::empty());
    }
    while i < words.len()
        invariant
            i <= words@.len(),
            vs == word_views(words@),
            entries_wf(dict.entries@),
            entries_map(dict.entries@) == insert_words(m0, vs.take(i as int)),
        decreases words@.len() - i,
    {
        let ghost es_before = dict.entries@;
        let ghost m = entries_map(es_before);
        let w = &words[i];
        let ghost k = sig_spec(w@);
        proof {
            assert(vs[i as int] == words@[i as int]@);
        }
        let key = sig_chars(w.as_str());
        match find_entry(&dict.entries, &key) {
            Some(idx) => {
                proof {
                    lemma_entries_map(es_before);
                    assert(es_before[idx as int].sig@ == k);
                    assert(m.dom().contains(k));
                    assert(m[k] == group_set(es_before[idx as int].words@));
                }
                if group_contains(&dict.entries[idx].words, w) {
                    proof {
                        assert(m[k].contains(w@));
                        assert(m[k].insert(w@) =~= m[k]);
                        assert(m.insert(k, m[k]) =~= m);
                        assert(entries_map(dict.entries@) == insert_word(m, w@));
                    }
                } else {
                    let wc = w.clone();
                    dict.entries[idx].words.push(wc);
                    proof {
                        let es2 = dict.entries@;
                        lemma_entries_map_update_push(es_before, es2, idx as int, wc);
                        assert(entries_map(es2) == insert_word(m, w@));
                        assert forall|j: int| 0 <= j < es2.len() implies entry_wf(
                            #[trigger] es2[j],
                        ) by {
                            if j == idx {
                                let ws2 = es2[j].words@;
                                let ws1 = es_before[j].words@;
                                assert(ws2 == ws1.push(wc));
                                assert(forall|t: int| 0 <= t < ws1.len() ==> ws2[t] == ws1[t]);
                                assert(ws2[ws1.len() as int]@ == w@);
                                assert forall|t: int| 0 <= t < ws1.len() implies #[trigger] ws1[t]@
                                    != w@ by {
                                    assert(word_views(ws1)[t] == ws1[t]@);
                                    if ws1[t]@ == w@ {
                                        assert(word_views(ws1).contains(w@));
                                    }
                                }
                                assert(sig_spec(w@) == es2[j].sig@);
                            } else {
                                assert(es2[j] == es_before[j]);
                            }
                        }
                    }
                }
            },
            None => {
                proof {
                    lemma_entries_map(es_before);
                    assert(!m.dom().contains(k)) by {
                        if m.dom().contains(k) {
                            let j = choose|j: int|
                                0 <= j < es_before.len() && #[trigger] es_before[j].sig@ == k;
                        }
                    }
                }
                let wc = w.clone();
                let mut group: AnagramMatch = Vec::new();
                group.push(wc);
                let ghost new_words = group@;
                dict.entries.push(GroupEntry { sig: key, words: group });
                proof {
                    let es2 = dict.entries@;
                    assert(es2.drop_last() =~= es_before);
                    assert(es2.last().sig@ == k);
                    assert(entries_map(es2) == m.insert(k, group_set(new_words)));
                    assert(group_set(new_words) =~= Set::<Seq<char>>::empty().insert(w@)) by {
                        assert(word_views(new_words).len() == 1);
                        assert(word_views(new_words)[0] == w@);
                        assert forall|x: Seq<char>| #[trigger]
                            group_set(new_words).contains(x) implies x == w@ by {
                            let t = choose|t: int|
                                0 <= t < word_views(new_words).len() && word_views(new_words)[t]
                                    == x;
                        }
                        assert(word_views(new_words).contains(w@));
                    }
                    assert(entries_map(es2) == insert_word(m, w@));
                    assert forall|i2: int, j2: int| 0 <= i2 < j2 < es2.len() implies es2[i2].sig@
                        != es2[j2].sig@ by {
                        if j2 == es2.len() - 1 {
                            assert(es_before[i2].sig@ != k);
                        }
                    }
                    assert forall|j: int| 0 <= j < es2.len() implies entry_wf(
                        #[trigger] es2[j],
                    ) by {
                        if j < es2.len() - 1 {
                            assert(es2[j] == es_before[j]);
                        } else {
                            assert(es2[j].words@ == new_words);
                            assert(new_words[0]@ == w@);
                        }
                    }
                }
            },
        }
        i = i + 1;
        proof {
            assert(vs.take(i as int).drop_last() =~= vs.take(i as int - 1));
            assert(vs.take(i as int).last() == vs[i as int - 1]);
            assert(insert_words(m0, vs.take(i as int)) == insert_word(
                insert_words(m0, vs.take(i as int - 1)),
                vs[i as int - 1],
            ));
        }
    }
    proof {
        assert(vs.take(words@.len() as int) =~= vs);
    }
}

/// The operations the command layer drives the dictionary store through.
pub trait DictionaryMethods: Sized {
    /// What the store holds: a mapping from signature to anagram group.
    spec fn store_view(&self) -> Map<Seq<char>, Set<Seq<char>>>;

    /// The store's well-formedness.
    spec fn store_wf(&self) -> bool;

    /// An empty dictionary with one word-list source merged into it.
    fn from_source(contents: &str) -> (d: Self)
        ensures
            d.store_wf(),
            d.store_view() == insert_words(
                Map::<Seq<char>, Set<Seq<char>>>::empty(),
                parse_words_spec(contents@),
            ),
    ;

    /// Merges one more word-list source into the dictionary. The merge is
    /// cumulative: words from prior merges remain, so a previously-singleton
    /// group can grow into a presented multi-member group.
    fn update(&mut self, contents: &str)
        requires
            old(self).store_wf(),
        ensures
            final(self).store_wf(),
            final(self).store_view() == insert_words(
                old(self).store_view(),
                parse_words_spec(contents@),
            ),
    ;

    /// The group of dictionary words sharing the queried word's signature, if
    /// that group has at least two members; the queried word itself is not
    /// excluded. A word with no anagrams in the store is not found.
    fn lookup<'a>(&'a self, word: &str) -> (r: Option<&'a AnagramMatch>)
        requires
            self.store_wf(),
        ensures
            match r {
                Some(g) => prune(self.store_view()).dom().contains(sig_spec(word@)) && group_set(
                    g@,
                ) == prune(self.store_view())[sig_spec(word@)] && word_views(g@).no_duplicates(),
                None => !prune(self.store_view()).dom().contains(sig_spec(word@)),
            },
    ;
}

impl DictionaryMethods for Dictionary {
    open spec fn store_view(&self) -> Map<Seq<char>, Set<Seq<char>>> {
        self@
    }

    open spec fn store_wf(&self) -> bool {
        self.wf()
    }

    fn from_source(contents: &str) -> (d: Self) {
        let mut d = Dictionary::new();
        d.update(contents);
        d
    }

    fn update(&mut self, contents: &str) {
        let words = parse_words(contents);
        process_dictionary(self, words);
    }

    fn lookup<'a>(&'a self, word: &str) -> (r: Option<&'a AnagramMatch>) {
        let key = sig_chars(word);
        proof {
            lemma_entries_map(self.entries@);
        }
        match find_entry(&self.entries, &key) {
            Some(idx) => {
                proof {
                    let ws = self.entries@[idx as int].words@;
                    assert(entry_wf(self.entries@[idx as int]));
                    lemma_group_set_len(ws);
                    assert(self@[key@] == group_set(ws));
                    assert forall|i: int, j: int|
                        0 <= i < j < word_views(ws).len() implies word_views(ws)[i] != word_views(
                        ws,
                    )[j] by {
                        assert(word_views(ws)[i] == ws[i]@);
                        assert(word_views(ws)[j] == ws[j]@);
                    }
                }
                if self.entries[idx].words.len() >= 2 {
                    Some(&self.entries[idx].words)
                } else {
                    None
                }
            },
            None => {
                proof {
                    if self@.dom().contains(key@) {
                        let j = choose|j: int|
                            0 <= j < self.entries@.len() && #[trigger] self.entries@[j].sig@
                                == key@;
                    }
                }
                None
            },
        }
    }
}

impl Dictionary {
    /// Removes all entries, returning the dictionary to empty.
    pub fn clear(&mut self)
        ensures
            final(self)@ == Map::<Seq<char>, Set<Seq<char>>>::empty(),
            final(self).wf(),
    {
        self.entries = Vec::new();
    }

    /// The number of distinct signatures currently presented: one for each
    /// group with at least two members.
    pub fn key_count(&self) -> (n: usize)
        requires
            self.wf(),
        ensures
            n == prune(self@).dom().len(),
    {
        proof {
            lemma_retained_count(self.entries@);
        }
        let mut n: usize = 0;
        let mut i: usize = 0;
        proof {
            assert(self.entries@.take(0) =~= Seq::<GroupEntry>::empty());
        }
        while i < self.entries.len()
            invariant
                i <= self.entries@.len(),
                n <= i,
                n == retained_count(self.entries@.take(i as int)),
            decreases self.entries@.len() - i,
        {
            if self.entries[i].words.len() >= 2 {
                n = n + 1;
            }
            i = i + 1;
            proof {
                assert(self.entries@.take(i as int).drop_last() =~= self.entries@.take(
                    i as int - 1,
                ));
                assert(self.entries@.take(i as int).last() == self.entries@[i as int - 1]);
            }
        }
        proof {
            assert(self.entries@.take(self.entries@.len() as int) =~= self.entries@);
        }
        n
    }
}

/// How many groups of the entries have at least two members.
spec fn retained_count(es: Seq<GroupEntry>) -> int
    decreases es.len(),
{
    if es.len() == 0 {
        0
    } else {
        retained_count(es.drop_last()) + if es.last().words@.len() >= 2 {
            1int
        } else {
            0int
        }
    }
}

proof fn lemma_retained_count(es: Seq<GroupEntry>)
    requires
        entries_wf(es),
    ensures
        prune(entries_map(es)).dom().finite(),
        prune(entries_map(es)).dom().len() == retained_count(es),
        0 <= retained_count(es) <= es.len(),
    decreases es.len(),
{
    broadcast use vstd::set::group_set_axioms;

    if es.len() == 0 {
        assert(prune(entries_map(es)).dom() =~= Set::<Seq<char>>::empty());
    } else {
        let prefix = es.drop_last();
        assert(entries_wf(prefix)) by {
            assert forall|i: int| 0 <= i < prefix.len() implies entry_wf(#[trigger] prefix[i]) by {
                assert(prefix[i] == es[i]);
            }
        }
        lemma_retained_count(prefix);
        lemma_entries_map(prefix);
        let k = es.last().sig@;
        let g = group_set(es.last().words@);
        assert(!entries_map(prefix).dom().contains(k)) by {
            if entries_map(prefix).dom().contains(k) {
                let j = choose|j: int| 0 <= j < prefix.len() && #[trigger] prefix[j].sig@ == k;
                assert(es[j].sig@ == es[es.len() - 1].sig@);
            }
        }
        assert(entry_wf(es[es.len() - 1]));
        lemma_group_set_len(es.last().words@);
        if es.last().words@.len() >= 2 {
            assert(prune(entries_map(es)).dom() =~= prune(entries_map(prefix)).dom().insert(k));
            assert(!prune(entries_map(prefix)).dom().contains(k));
        } else {
            assert(prune(entries_map(es)).dom() =~= prune(entries_map(prefix)).dom());
        }
    }
}

/// Law: every group a well-formed dictionary presents is keyed by its
/// members' signature and keeps at least two distinct words.
pub proof fn lemma_wf_complete(d: &Dictionary)
    requires
        d.wf(),
    ensures
        dict_complete(prune(d@)),
{
    let es = d.entries@;
    let p = prune(d@);
    lemma_entries_map(es);
    assert forall|k: Seq<char>| #[trigger] p.dom().contains(k) implies p[k].finite() && p[k].len()
        >= 2 by {
        let i = choose|i: int| 0 <= i < es.len() && #[trigger] es[i].sig@ == k;
        lemma_group_set_len(es[i].words@);
    }
    assert forall|k: Seq<char>, w: Seq<char>|
        p.dom().contains(k) && #[trigger] p[k].contains(w) implies sig_spec(w) == k by {
        let i = choose|i: int| 0 <= i < es.len() && #[trigger] es[i].sig@ == k;
        let ws = es[i].words@;
        assert(p[k] == group_set(ws));
        let t = choose|t: int| 0 <= t < word_views(ws).len() && word_views(ws)[t] == w;
        assert(ws[t]@ == w);
    }
}

/// Law: inserting the same word twice gives the same mapping as inserting it
/// once; a group is duplicate-insensitive.
pub proof fn lemma_insert_word_idempotent(m: Map<Seq<char>, Set<Seq<char>>>, w: Seq<char>)
    ensures
        insert_word(insert_word(m, w), w) == insert_word(m, w),
{
    let k = sig_spec(w);
    let m1 = insert_word(m, w);
    assert(m1[k].insert(w) =~= m1[k]);
    assert(insert_word(m1, w) =~= m1);
}

/// A word that was inserted stands in the group keyed by its signature.
proof fn lemma_insert_words_member(m: Map<Seq<char>, Set<Seq<char>>>, ws: Seq<Seq<char>>, w: Seq<char>)
    requires
        ws.contains(w),
    ensures
        insert_words(m, ws).dom().contains(sig_spec(w)),
        insert_words(m, ws)[sig_spec(w)].contains(w),
    decreases ws.len(),
{
    let k = sig_spec(w);
    if ws.last() == w {
    } else {
        let i = choose|i: int| 0 <= i < ws.len() && ws[i] == w;
        assert(ws.drop_last()[i] == w);
        assert(ws.drop_last().contains(w));
        lemma_insert_words_member(m, ws.drop_last(), w);
    }
}

/// Law: inserting a word that some word of the source already put into its
/// group changes nothing: groups have set semantics.
pub proof fn lemma_insert_words_idempotent(
    m: Map<Seq<char>, Set<Seq<char>>>,
    ws: Seq<Seq<char>>,
    w: Seq<char>,
)
    requires
        ws.contains(w),
    ensures
        insert_word(insert_words(m, ws), w) == insert_words(m, ws),
{
    lemma_insert_words_member(m, ws, w);
    let m1 = insert_words(m, ws);
    let k = sig_spec(w);
    assert(m1[k].insert(w) =~= m1[k]);
    assert(insert_word(m1, w) =~= m1);
}

/// Law: whatever the store holds, every group it presents has at least two
/// members; a signature carried by one word alone is never presented.
pub proof fn lemma_presented_groups_min_size(m: Map<Seq<char>, Set<Seq<char>>>)
    ensures
        forall|k: Seq<char>| #[trigger] prune(m).dom().contains(k) ==> prune(m)[k].len() >= 2,
{
}

/// Law: the merge is cumulative: merging one source and then another leaves
/// the store exactly as merging the two sources one after the other in a
/// single word list would.
pub proof fn lemma_insert_words_cumulative(
    m: Map<Seq<char>, Set<Seq<char>>>,
    a: Seq<Seq<char>>,
    b: Seq<Seq<char>>,
)
    ensures
        insert_words(insert_words(m, a), b) == insert_words(m, a + b),
    decreases b.len(),
{
    if b.len() == 0 {
        assert(a + b =~= a);
    } else {
        lemma_insert_words_cumulative(m, a, b.drop_last());
        assert((a + b).drop_last() =~= a + b.drop_last());
        assert((a + b).last() == b.last());
    }
}

/// Law: a word merged alone is not presented, but stays in the store; once a
/// later merge brings a distinct word of the same signature, both stand in
/// the presented group.
pub proof fn lemma_singleton_retained_across_merges(w1: Seq<char>, w2: Seq<char>)
    requires
        sig_spec(w1) == sig_spec(w2),
        w1 != w2,
    ensures
        !prune(insert_words(Map::<Seq<char>, Set<Seq<char>>>::empty(), seq![w1])).dom().contains(
            sig_spec(w1),
        ),
        prune(
            insert_words(insert_words(Map::<Seq<char>, Set<Seq<char>>>::empty(), seq![w1]), seq![w2]),
        ).dom().contains(sig_spec(w1)),
        prune(
            insert_words(insert_words(Map::<Seq<char>, Set<Seq<char>>>::empty(), seq![w1]), seq![w2]),
        )[sig_spec(w1)] == Set::<Seq<char>>::empty().insert(w1).insert(w2),
{
    broadcast use vstd::set::group_set_axioms;

    let k = sig_spec(w1);
    let empty = Map::<Seq<char>, Set<Seq<char>>>::empty();
    assert(seq![w1].drop_last() =~= Seq::<Seq<char>>::empty());
    assert(seq![w2].drop_last() =~= Seq::<Seq<char>>::empty());
    assert(insert_words(empty, Seq::<Seq<char>>::empty()) == empty);
    let m1 = insert_word(empty, w1);
    assert(insert_words(empty, seq![w1]) == m1);
    assert(m1[k] == Set::<Seq<char>>::empty().insert(w1));
    assert(m1[k].len() == 1);
    let m2 = insert_word(m1, w2);
    assert(insert_words(m1, Seq::<Seq<char>>::empty()) == m1);
    assert(insert_words(m1, seq![w2]) == m2);
    assert(m2[k] == Set::<Seq<char>>::empty().insert(w1).insert(w2));
    assert(m2[k].len() == 2);
}

/// Law: the lookup round trip. A word standing in any group of a complete
/// dictionary is found under its own signature, in a group that also holds
/// a second word of the same signature.
pub proof fn lemma_lookup_round_trip(m: Map<Seq<char>, Set<Seq<char>>>, k: Seq<char>, w: Seq<char>)
    requires
        dict_complete(m),
        m.dom().contains(k),
        m[k].contains(w),
    ensures
        sig_spec(w) == k,
        m.dom().contains(sig_spec(w)),
        m[sig_spec(w)].contains(w),
        m[sig_spec(w)].len() >= 2,
        exists|x: Seq<char>|
            #[trigger] m[sig_spec(w)].contains(x) && x != w && sig_spec(x) == sig_spec(w),
{
    broadcast use vstd::set::group_set_axioms;

    let rest = m[k].remove(w);
    assert(rest.len() >= 1);
    assert(rest.contains(rest.choose()));
    let x = rest.choose();
    assert(m[k].contains(x) && x != w);
}

} // verus!

use vstd::prelude::*;

use crate::text::lemma_lex_lt_asym;
use crate::text::lemma_lex_lt_irrefl;
use crate::text::lemma_lex_lt_trans;
use crate::text::lemma_lex_lt_trichotomy;
use crate::text::lex_lt;
use crate::text::str_eq;
use crate::text::str_lt;
use vstd::pervasive::VecAdditionalExecFns;

verus! {

/// The mapping that a sequence of title/content pairs stands for, a later
/// pair overwriting an earlier one with the same title.
pub open spec fn pairs_map(s: Seq<(Seq<char>, Seq<char>)>) -> Map<Seq<char>, Seq<char>>
    decreases s.len(),
{
    if s.len() == 0 {
        Map::empty()
    } else {
        pairs_map(s.drop_last()).insert(s.last().0, s.last().1)
    }
}

proof fn lemma_pairs_map_insert_mid(s: Seq<(Seq<char>, Seq<char>)>, p: int, e: (Seq<char>, Seq<char>))
    requires
        0 <= p <= s.len(),
        forall|j: int| p <= j < s.len() ==> (#[trigger] s[j]).0 != e.0,
    ensures
        pairs_map(s.insert(p, e)) == pairs_map(s).insert(e.0, e.1),
    decreases s.len() - p,
{
    let t = s.insert(p, e);
    if p == s.len() {
        assert(t.last() == e);
        assert(t.drop_last() =~= s);
    } else {
        assert(t.last() == s.last());
        assert(t.drop_last() =~= s.drop_last().insert(p, e));
        lemma_pairs_map_insert_mid(s.drop_last(), p, e);
        assert(s.last().0 != e.0);
        assert(pairs_map(s.drop_last()).insert(e.0, e.1).insert(s.last().0, s.last().1) =~= pairs_map(
            s.drop_last(),
        ).insert(s.last().0, s.last().1).insert(e.0, e.1));
    }
}

proof fn lemma_pairs_map_update(s: Seq<(Seq<char>, Seq<char>)>, p: int, e: (Seq<char>, Seq<char>))
    requires
        0 <= p < s.len(),
        s[p].0 == e.0,
        forall|j: int| p < j < s.len() ==> (#[trigger] s[j]).0 != e.0,
    ensures
        pairs_map(s.update(p, e)) == pairs_map(s).insert(e.0, e.1),
    decreases s.len(),
{
    let t = s.update(p, e);
    if p == s.len() - 1 {
        assert(t.last() == e);
        assert(t.drop_last() =~= s.drop_last());
        assert(pairs_map(s.drop_last()).insert(e.0, e.1) =~= pairs_map(s.drop_last()).insert(
            s.last().0,
            s.last().1,
        ).insert(e.0, e.1));
    } else {
        assert(t.last() == s.last());
        assert(t.drop_last() =~= s.drop_last().update(p, e));
        lemma_pairs_map_update(s.drop_last(), p, e);
        assert(s.last().0 != e.0);
        assert(pairs_map(s.drop_last()).insert(e.0, e.1).insert(s.last().0, s.last().1) =~= pairs_map(
            s.drop_last(),
        ).insert(s.last().0, s.last().1).insert(e.0, e.1));
    }
}

/// With distinct titles, the mapping holds exactly the pairs of the
/// sequence.
pub proof fn lemma_pairs_map_lookup(s: Seq<(Seq<char>, Seq<char>)>)
    requires
        forall|i: int, j: int| 0 <= i < j < s.len() ==> (#[trigger] s[i]).0 != (#[trigger] s[j]).0,
    ensures
        forall|k: Seq<char>|
            pairs_map(s).contains_key(k) <==> exists|i: int| 0 <= i < s.len() && (#[trigger] s[i]).0
                == k,
        forall|i: int|
            0 <= i < s.len() ==> pairs_map(s).contains_key((#[trigger] s[i]).0) && pairs_map(s)[s[i].0]
                == s[i].1,
    decreases s.len(),
{
    if s.len() > 0 {
        assert forall|i: int, j: int| 0 <= i < j < s.drop_last().len() implies (#[trigger] s.drop_last()[i]).0
            != (#[trigger] s.drop_last()[j]).0 by {
            assert(s.drop_last()[i] == s[i]);
            assert(s.drop_last()[j] == s[j]);
        }
        lemma_pairs_map_lookup(s.drop_last());
        assert forall|i: int| 0 <= i < s.len() implies pairs_map(s).contains_key(
            (#[trigger] s[i]).0,
        ) && pairs_map(s)[s[i].0] == s[i].1 by {
            if i < s.len() - 1 {
                assert(s.drop_last()[i] == s[i]);
                assert(s[i].0 != s[s.len() - 1].0);
            }
        }
        assert forall|k: Seq<char>| pairs_map(s).contains_key(k) implies exists|i: int|
            0 <= i < s.len() && (#[trigger] s[i]).0 == k by {
            if k == s.last().0 {
                assert(0 <= s.len() - 1 < s.len() && s[s.len() - 1].0 == k);
            } else {
                assert(pairs_map(s.drop_last()).contains_key(k));
                assert(exists|i: int|
                    0 <= i < s.drop_last().len() && (#[trigger] s.drop_last()[i]).0 == k);
                let i = choose|i: int|
                    0 <= i < s.drop_last().len() && (#[trigger] s.drop_last()[i]).0 == k;
                assert(s.drop_last()[i] == s[i]);
                assert(0 <= i < s.len() && s[i].0 == k);
            }
        }
        assert forall|k: Seq<char>|
            (exists|i: int| 0 <= i < s.len() && (#[trigger] s[i]).0 == k) implies pairs_map(
            s,
        ).contains_key(k) by {
            let i = choose|i: int| 0 <= i < s.len() && (#[trigger] s[i]).0 == k;
            assert(pairs_map(s).contains_key(s[i].0));
        }
    }
}

/// Title/content pairs in strictly ascending lexicographic order of the
/// title.
pub open spec fn sorted_pairs(s: Seq<(Seq<char>, Seq<char>)>) -> bool {
    forall|i: int, j: int|
        0 <= i < j < s.len() ==> lex_lt((#[trigger] s[i]).0, (#[trigger] s[j]).0)
}

pub proof fn lemma_sorted_pairs_distinct(s: Seq<(Seq<char>, Seq<char>)>)
    requires
        sorted_pairs(s),
    ensures
        forall|i: int, j: int| 0 <= i < j < s.len() ==> (#[trigger] s[i]).0 != (#[trigger] s[j]).0,
{
    assert forall|i: int, j: int| 0 <= i < j < s.len() implies (#[trigger] s[i]).0 != (
    #[trigger] s[j]).0 by {
        if s[i].0 == s[j].0 {
            lemma_lex_lt_irrefl(s[i].0);
        }
    }
}

/// Sorted entry sequences are a canonical form: two sorted sequences that
/// stand for the same mapping are the same sequence. So the order in which
/// a document's entries come out depends only on the mapping itself, never
/// on the order the sections were declared.
pub proof fn lemma_sorted_pairs_canonical(
    s1: Seq<(Seq<char>, Seq<char>)>,
    s2: Seq<(Seq<char>, Seq<char>)>,
)
    requires
        sorted_pairs(s1),
        sorted_pairs(s2),
        pairs_map(s1) == pairs_map(s2),
    ensures
        s1 == s2,
    decreases s1.len(),
{
    lemma_sorted_pairs_distinct(s1);
    lemma_sorted_pairs_distinct(s2);
    lemma_pairs_map_lookup(s1);
    lemma_pairs_map_lookup(s2);
    if s1.len() == 0 {
        if s2.len() > 0 {
            assert(pairs_map(s2).contains_key(s2[s2.len() - 1].0));
            assert(false);
        }
        assert(s1 =~= s2);
    } else if s2.len() == 0 {
        assert(pairs_map(s1).contains_key(s1[s1.len() - 1].0));
        assert(false);
    } else {
        let l1 = s1.last();
        let l2 = s2.last();
        // the last title of each sequence is its greatest, and both
        // sequences share one set of titles, so the last entries agree
        if l1.0 != l2.0 {
            lemma_lex_lt_trichotomy(l1.0, l2.0);
            if lex_lt(l1.0, l2.0) {
                assert(pairs_map(s2).contains_key(l2.0));
                let i = choose|i: int| 0 <= i < s1.len() && (#[trigger] s1[i]).0 == l2.0;
                assert(i < s1.len() - 1);
                assert(lex_lt(s1[i].0, s1[s1.len() - 1].0));
                lemma_lex_lt_asym(l1.0, l2.0);
                assert(false);
            } else {
                assert(pairs_map(s1).contains_key(l1.0));
                let i = choose|i: int| 0 <= i < s2.len() && (#[trigger] s2[i]).0 == l1.0;
                assert(i < s2.len() - 1);
                assert(lex_lt(s2[i].0, s2[s2.len() - 1].0));
                lemma_lex_lt_asym(l2.0, l1.0);
                assert(false);
            }
        }
        assert(pairs_map(s1)[l1.0] == l1.1);
        assert(pairs_map(s2)[l2.0] == l2.1);
        assert(l1 == l2);
        // the last title does not occur earlier, so dropping the last entry
        // removes exactly that title from the mapping
        assert forall|i: int, j: int| 0 <= i < j < s1.drop_last().len() implies lex_lt(
            (#[trigger] s1.drop_last()[i]).0,
            (#[trigger] s1.drop_last()[j]).0,
        ) by {
            assert(s1.drop_last()[i] == s1[i]);
            assert(s1.drop_last()[j] == s1[j]);
        }
        assert forall|i: int, j: int| 0 <= i < j < s2.drop_last().len() implies lex_lt(
            (#[trigger] s2.drop_last()[i]).0,
            (#[trigger] s2.drop_last()[j]).0,
        ) by {
            assert(s2.drop_last()[i] == s2[i]);
            assert(s2.drop_last()[j] == s2[j]);
        }
        lemma_sorted_pairs_distinct(s1.drop_last());
        lemma_sorted_pairs_distinct(s2.drop_last());
        lemma_pairs_map_lookup(s1.drop_last());
        lemma_pairs_map_lookup(s2.drop_last());
        assert(!pairs_map(s1.drop_last()).contains_key(l1.0)) by {
            if pairs_map(s1.drop_last()).contains_key(l1.0) {
                let i = choose|i: int|
                    0 <= i < s1.drop_last().len() && (#[trigger] s1.drop_last()[i]).0 == l1.0;
                assert(s1[i].0 == s1[s1.len() - 1].0);
            }
        }
        assert(!pairs_map(s2.drop_last()).contains_key(l2.0)) by {
            if pairs_map(s2.drop_last()).contains_key(l2.0) {
                let i = choose|i: int|
                    0 <= i < s2.drop_last().len() && (#[trigger] s2.drop_last()[i]).0 == l2.0;
                assert(s2[i].0 == s2[s2.len() - 1].0);
            }
        }
        assert(pairs_map(s1.drop_last()) =~= pairs_map(s1).remove(l1.0));
        assert(pairs_map(s2.drop_last()) =~= pairs_map(s2).remove(l2.0));
        lemma_sorted_pairs_canonical(s1.drop_last(), s2.drop_last());
        assert forall|i: int| 0 <= i < s1.len() implies s1[i] == s2[i] by {
            if i < s1.len() - 1 {
                assert(s1[i] == s1.drop_last()[i]);
                assert(s2[i] == s2.drop_last()[i]);
            }
        }
        assert(s1 =~= s2);
    }
}

/// The document: title/content pairs, kept in strictly ascending
/// lexicographic order of the title, so that iteration order never depends
/// on the order the sections appeared in.
pub struct Document {
    entries: Vec<(String, String)>,
}

impl View for Document {
    type V = Map<Seq<char>, Seq<char>>;

    open spec fn view(&self) -> Map<Seq<char>, Seq<char>> {
        pairs_map(self.entries_view())
    }
}

impl Document {
    /// The entries as character sequences, in their stored order.
    pub closed spec fn entries_view(&self) -> Seq<(Seq<char>, Seq<char>)> {
        self.entries@.map_values(|p: (String, String)| (p.0@, p.1@))
    }

    /// Entries strictly sorted by title.
    pub open spec fn wf(&self) -> bool {
        sorted_pairs(self.entries_view())
    }

    proof fn lemma_wf_distinct(&self)
        requires
            self.wf(),
        ensures
            forall|i: int, j: int|
                0 <= i < j < self.entries_view().len() ==> (#[trigger] self.entries_view()[i]).0 != (
                #[trigger] self.entries_view()[j]).0,
    {
        assert forall|i: int, j: int|
            0 <= i < j < self.entries_view().len() implies (#[trigger] self.entries_view()[i]).0 != (
        #[trigger] self.entries_view()[j]).0 by {
            if self.entries_view()[i].0 == self.entries_view()[j].0 {
                lemma_lex_lt_irrefl(self.entries_view()[i].0);
            }
        }
    }

    /// An empty document.
    pub fn new() -> (d: Document)
        ensures
            d.wf(),
            d@ == Map::<Seq<char>, Seq<char>>::empty(),
    {
        let d = Document { entries: Vec::new() };
        proof {
            assert(d.entries_view() =~= Seq::<(Seq<char>, Seq<char>)>::empty());
        }
        d
    }

    /// How many entries the document holds.
    pub fn len(&self) -> (n: usize)
        ensures
            n == self.entries_view().len(),
    {
        self.entries.len()
    }

    /// The title of the entry at the given position in sorted order.
    pub fn title_at(&self, i: usize) -> (t: &String)
        requires
            i < self.entries_view().len(),
        ensures
            t@ == self.entries_view()[i as int].0,
    {
        &self.entries[i].0
    }

    /// The content of the entry at the given position in sorted order.
    pub fn content_at(&self, i: usize) -> (c: &String)
        requires
            i < self.entries_view().len(),
        ensures
            c@ == self.entries_view()[i as int].1,
    {
        &self.entries[i].1
    }

    /// The content stored for a title, if any.
    pub fn get(&self, title: &str) -> (r: Option<&String>)
        requires
            self.wf(),
        ensures
            match r {
                Some(c) => self@.contains_key(title@) && c@ == self@[title@],
                None => !self@.contains_key(title@),
            },
    {
        proof {
            self.lemma_wf_distinct();
            lemma_pairs_map_lookup(self.entries_view());
        }
        let n = self.entries.len();
        let mut i: usize = 0;
        while i < n
            invariant
                i <= n,
                n == self.entries_view().len(),
                self.wf(),
                forall|k: int| 0 <= k < i ==> (#[trigger] self.entries_view()[k]).0 != title@,
            decreases n - i,
        {
            if str_eq(self.entries[i].0.as_str(), title) {
                proof {
                    self.lemma_wf_distinct();
                    lemma_pairs_map_lookup(self.entries_view());
                    assert(self.entries_view()[i as int].0 == title@);
                    assert(self@[title@] == self.entries_view()[i as int].1);
                }
                return Some(&self.entries[i].1);
            }
            i = i + 1;
        }
        proof {
            self.lemma_wf_distinct();
            lemma_pairs_map_lookup(self.entries_view());
        }
        None
    }

    /// Stores content under a title, keeping the sorted order; an entry
    /// with the same title is replaced entirely.
    pub fn insert(&mut self, title: String, content: String)
        requires
            old(self).wf(),
        ensures
            final(self).wf(),
            final(self)@ == old(self)@.insert(title@, content@),
    {
        let ghost tv = title@;
        let ghost cv = content@;
        let ghost ev0 = self.entries_view();
        let n = self.entries.len();
        let mut p: usize = 0;
        while p < n
            invariant
                p <= n,
                n == ev0.len(),
                self == old(self),
                ev0 == old(self).entries_view(),
                forall|k: int| 0 <= k < p ==> lex_lt((#[trigger] ev0[k]).0, title@),
            ensures
                p <= n,
                self == old(self),
                forall|k: int| 0 <= k < p ==> lex_lt((#[trigger] ev0[k]).0, title@),
                p < n ==> !lex_lt(ev0[p as int].0, title@),
            decreases n - p,
        {
            if str_lt(self.entries[p].0.as_str(), title.as_str()) {
                p = p + 1;
            } else {
                break;
            }
        }
        let is_replace = p < n && str_eq(self.entries[p].0.as_str(), title.as_str());
        proof {
            self.lemma_wf_distinct();
            if p < n && !is_replace {
                // the new title sorts strictly before the entry at p
                lemma_lex_lt_trichotomy(ev0[p as int].0, tv);
            }
        }
        if is_replace {
            proof {
                assert forall|j: int| p < j < ev0.len() implies (#[trigger] ev0[j]).0 != tv by {
                    if ev0[j].0 == tv {
                        assert(lex_lt(ev0[p as int].0, ev0[j].0));
                        lemma_lex_lt_irrefl(tv);
                    }
                }
            }
            self.entries.set(p, (title, content));
            proof {
                assert(self.entries_view() =~= ev0.update(p as int, (tv, cv)));
                lemma_pairs_map_update(ev0, p as int, (tv, cv));
                assert forall|i: int, j: int|
                    0 <= i < j < self.entries_view().len() implies lex_lt(
                    (#[trigger] self.entries_view()[i]).0,
                    (#[trigger] self.entries_view()[j]).0,
                ) by {
                    assert(ev0[i].0 == self.entries_view()[i].0);
                    assert(ev0[j].0 == self.entries_view()[j].0);
                }
            }
        } else {
            proof {
                assert forall|j: int| p <= j < ev0.len() implies (#[trigger] ev0[j]).0 != tv by {
                    if j > p && ev0[j].0 == tv {
                        // sortedness would put the entry at p before the title
                        assert(lex_lt(ev0[p as int].0, ev0[j].0));
                    }
                }
            }
            self.entries.insert(p, (title, content));
            proof {
                assert(self.entries_view() =~= ev0.insert(p as int, (tv, cv)));
                lemma_pairs_map_insert_mid(ev0, p as int, (tv, cv));
                let ev1 = self.entries_view();
                assert forall|i: int, j: int| 0 <= i < j < ev1.len() implies lex_lt(
                    (#[trigger] ev1[i]).0,
                    (#[trigger] ev1[j]).0,
                ) by {
                    if j == p {
                        assert(ev1[i].0 == ev0[i].0);
                    } else if i == p {
                        assert(ev1[j].0 == ev0[j - 1].0);
                        if j - 1 > p {
                            lemma_lex_lt_trans(tv, ev0[p as int].0, ev0[j - 1].0);
                        }
                    } else if i < p && j > p {
                        assert(ev1[i].0 == ev0[i].0);
                        assert(ev1[j].0 == ev0[j - 1].0);
                        assert(lex_lt(ev0[i].0, ev0[j - 1].0));
                    } else if j < p {
                        assert(ev1[i].0 == ev0[i].0);
                        assert(ev1[j].0 == ev0[j].0);
                    } else {
                        assert(ev1[i].0 == ev0[i - 1].0);
                        assert(ev1[j].0 == ev0[j - 1].0);
                    }
                }
            }
        }
    }
}

} // verus!

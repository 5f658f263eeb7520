//! The document index/store: keyed storage of documents with derived
//! keywords and query-time relevance scoring.

use vstd::prelude::*;
use vstd::multiset::Multiset;

use crate::document::{DocMeta, Document};
use crate::keywords;
use crate::keywords::{contains_string, keywords_of};
use crate::text::str_eq;

verus! {

/// A stored document: the document fields plus its derived keywords.
pub struct StoredDocument {
    pub path: String,
    pub content: String,
    pub title: String,
    pub summary: Option<String>,
    pub keywords: Vec<String>,
}

/// The mathematical value of a stored document.
pub ghost struct StoredDocView {
    pub path: Seq<char>,
    pub content: Seq<char>,
    pub title: Seq<char>,
    pub summary: Option<Seq<char>>,
    pub keywords: Seq<Seq<char>>,
}

impl View for StoredDocument {
    type V = StoredDocView;

    open spec fn view(&self) -> StoredDocView {
        StoredDocView {
            path: self.path@,
            content: self.content@,
            title: self.title@,
            summary: if self.summary is Some {
                Some(self.summary->0@)
            } else {
                None
            },
            keywords: self.keywords.deep_view(),
        }
    }
}

impl DeepView for StoredDocument {
    type V = StoredDocView;

    open spec fn deep_view(&self) -> StoredDocView {
        self.view()
    }
}

/// What storing a document derives from it: the document's fields plus the
/// keywords of its content.
pub open spec fn stored_view(d: DocMeta) -> StoredDocView {
    StoredDocView {
        path: d.path,
        content: d.content,
        title: d.title,
        summary: d.summary,
        keywords: keywords_of(d.content),
    }
}

/// No two entries share a path.
pub open spec fn unique_paths(entries: Seq<StoredDocView>) -> bool {
    forall|i: int, j: int|
        0 <= i < j < entries.len() ==> entries[i].path != entries[j].path
}

/// The entries as a mapping from path to entry; a later entry for a path
/// would win, though well-formed stores never hold two.
pub open spec fn map_of(entries: Seq<StoredDocView>) -> Map<Seq<char>, StoredDocView>
    decreases entries.len(),
{
    if entries.len() == 0 {
        Map::empty()
    } else {
        map_of(entries.drop_last()).insert(entries.last().path, entries.last())
    }
}

/// Replacing the entry that shares `d`'s path, or appending `d`.
pub open spec fn upsert(entries: Seq<StoredDocView>, d: StoredDocView) -> Seq<StoredDocView> {
    if exists|i: int| 0 <= i < entries.len() && entries[i].path == d.path {
        entries.update(choose|i: int| 0 <= i < entries.len() && entries[i].path == d.path, d)
    } else {
        entries.push(d)
    }
}

/// Upserting a batch of documents, in order.
pub open spec fn upsert_all(entries: Seq<StoredDocView>, ds: Seq<DocMeta>) -> Seq<StoredDocView>
    decreases ds.len(),
{
    if ds.len() == 0 {
        entries
    } else {
        upsert(upsert_all(entries, ds.drop_last()), stored_view(ds.last()))
    }
}

/// Inserting a batch of documents into the path map, in order.
pub open spec fn insert_all(
    m: Map<Seq<char>, StoredDocView>,
    ds: Seq<DocMeta>,
) -> Map<Seq<char>, StoredDocView>
    decreases ds.len(),
{
    if ds.len() == 0 {
        m
    } else {
        insert_all(m, ds.drop_last()).insert(ds.last().path, stored_view(ds.last()))
    }
}

/// How many keywords of `q` occur in `kws`; a keyword counts once however
/// often it occurs in the query.
pub open spec fn match_count(q: Seq<Seq<char>>, kws: Seq<Seq<char>>) -> nat
    decreases q.len(),
{
    if q.len() == 0 {
        0
    } else {
        match_count(q.drop_last(), kws) + if kws.contains(q.last()) {
            1nat
        } else {
            0nat
        }
    }
}

/// The entries whose keyword sets share at least one keyword with `q`, in
/// store order.
pub open spec fn scored_entries(q: Seq<Seq<char>>, entries: Seq<StoredDocView>) -> Seq<
    StoredDocView,
>
    decreases entries.len(),
{
    if entries.len() == 0 {
        Seq::empty()
    } else {
        let front = scored_entries(q, entries.drop_last());
        if match_count(q, entries.last().keywords) > 0 {
            front.push(entries.last())
        } else {
            front
        }
    }
}

/// A path is a key of the map exactly when some entry carries it.
pub proof fn lemma_map_of_contains(entries: Seq<StoredDocView>, p: Seq<char>)
    ensures
        map_of(entries).contains_key(p) <==> exists|i: int|
            0 <= i < entries.len() && entries[i].path == p,
    decreases entries.len(),
{
    if entries.len() == 0 {
    } else {
        lemma_map_of_contains(entries.drop_last(), p);
        if p == entries.last().path {
            assert(entries[entries.len() - 1].path == p);
        } else {
            if exists|i: int| 0 <= i < entries.len() && entries[i].path == p {
                let i = choose|i: int| 0 <= i < entries.len() && entries[i].path == p;
                assert(entries.drop_last()[i] == entries[i]);
            }
            if exists|i: int| 0 <= i < entries.drop_last().len() && entries.drop_last()[i].path
                == p {
                let i = choose|i: int|
                    0 <= i < entries.drop_last().len() && entries.drop_last()[i].path == p;
                assert(entries[i].path == p);
            }
        }
    }
}

/// In a store without duplicate paths the map returns each entry at its path.
pub proof fn lemma_map_of_get(entries: Seq<StoredDocView>, i: int)
    requires
        unique_paths(entries),
        0 <= i < entries.len(),
    ensures
        map_of(entries).contains_key(entries[i].path),
        map_of(entries)[entries[i].path] == entries[i],
    decreases entries.len(),
{
    if i == entries.len() - 1 {
    } else {
        assert(unique_paths(entries.drop_last())) by {
            assert(forall|a: int, b: int|
                0 <= a < b < entries.drop_last().len() ==> entries.drop_last()[a]
                    == entries[a] && entries.drop_last()[b] == entries[b]);
        }
        lemma_map_of_get(entries.drop_last(), i);
        assert(entries.drop_last()[i] == entries[i]);
        assert(entries[i].path != entries.last().path);
    }
}

/// Replacing the entry at a path rewrites exactly that key of the map.
pub proof fn lemma_map_of_update(entries: Seq<StoredDocView>, i: int, d: StoredDocView)
    requires
        unique_paths(entries),
        0 <= i < entries.len(),
        entries[i].path == d.path,
    ensures
        map_of(entries.update(i, d)) == map_of(entries).insert(d.path, d),
    decreases entries.len(),
{
    if i == entries.len() - 1 {
        assert(entries.update(i, d).drop_last() =~= entries.drop_last());
        assert(entries.update(i, d).last() == d);
        assert(map_of(entries.update(i, d)) =~= map_of(entries).insert(d.path, d));
    } else {
        assert(unique_paths(entries.drop_last())) by {
            assert(forall|a: int, b: int|
                0 <= a < b < entries.drop_last().len() ==> entries.drop_last()[a]
                    == entries[a] && entries.drop_last()[b] == entries[b]);
        }
        assert(entries.drop_last()[i] == entries[i]);
        lemma_map_of_update(entries.drop_last(), i, d);
        assert(entries.update(i, d).drop_last() =~= entries.drop_last().update(i, d));
        assert(entries.update(i, d).last() == entries.last());
        assert(entries.last().path != d.path);
        assert(map_of(entries.update(i, d)) =~= map_of(entries).insert(d.path, d));
    }
}

/// The document index/store: a keyed collection of stored documents whose
/// keywords are always exactly the extractor's output on their content.
pub struct DocumentStorage {
    documents: Vec<StoredDocument>,
}

impl View for DocumentStorage {
    type V = Map<Seq<char>, StoredDocView>;

    open spec fn view(&self) -> Map<Seq<char>, StoredDocView> {
        map_of(self.entries())
    }
}

impl DocumentStorage {
    /// The entries in store order.
    pub closed spec fn entries(self) -> Seq<StoredDocView> {
        self.documents@.map_values(|d: StoredDocument| d@)
    }

    /// Paths are unique and every entry's keywords are exactly the
    /// extractor's output on its content.
    pub open spec fn wf(self) -> bool {
        &&& unique_paths(self.entries())
        &&& forall|i: int|
            0 <= i < self.entries().len() ==> #[trigger] self.entries()[i].keywords
                == keywords_of(self.entries()[i].content)
    }

    /// An empty store.
    pub fn new() -> (s: Self)
        ensures
            s.wf(),
            s@ == Map::<Seq<char>, StoredDocView>::empty(),
            s.entries() == Seq::<StoredDocView>::empty(),
    {
        let s = DocumentStorage { documents: Vec::new() };
        proof {
            assert(s.entries() =~= Seq::<StoredDocView>::empty());
        }
        s
    }

    /// The index of the entry at `path`, if one exists.
    fn find_index(&self, path: &str) -> (r: Option<usize>)
        ensures
            match r {
                Some(i) => i < self.entries().len() && self.entries()[i as int].path == path@,
                None => forall|i: int|
                    0 <= i < self.entries().len() ==> self.entries()[i].path != path@,
            },
    {
        let mut i: usize = 0;
        while i < self.documents.len()
            invariant
                i <= self.documents.len(),
                forall|k: int| 0 <= k < i ==> self.entries()[k].path != path@,
            decreases self.documents.len() - i,
        {
            if str_eq(self.documents[i].path.as_str(), path) {
                assert(self.entries()[i as int].path == path@);
                return Some(i);
            }
            i += 1;
        }
        None
    }

    /// Keyword extraction as the store applies it to content and queries.
    pub fn extract_keywords(&self, text: &str) -> (r: Vec<String>)
        ensures
            r.deep_view() == keywords_of(text@),
    {
        keywords::extract_keywords(text)
    }

    /// Stores a document: derives its keywords and upserts it by path.
    pub fn store_document(&mut self, document: Document)
        requires
            old(self).wf(),
        ensures
            final(self).wf(),
            final(self).entries() == upsert(old(self).entries(), stored_view(document@)),
            final(self)@ == old(self)@.insert(document@.path, stored_view(document@)),
    {
        let ghost d = stored_view(document@);
        let ghost before = self.entries();
        let kws = keywords::extract_keywords(document.content.as_str());
        let stored = StoredDocument {
            path: document.path,
            content: document.content,
            title: document.title,
            summary: document.summary,
            keywords: kws,
        };
        assert(stored@ == d);
        match self.find_index(stored.path.as_str()) {
            Some(i) => {
                proof {
                    let c = choose|k: int| 0 <= k < before.len() && before[k].path == d.path;
                    if c != i as int {
                        assert(before[c].path == before[i as int].path);
                        assert(false);
                    }
                    lemma_map_of_update(before, i as int, d);
                }
                self.documents.remove(i);
                self.documents.insert(i, stored);
                assert(self.entries() =~= before.update(i as int, d));
                assert(self.entries() == upsert(before, d));
                assert(self.wf()) by {
                    assert(forall|k: int|
                        0 <= k < self.entries().len() && k != i ==> self.entries()[k] == before[k]);
                }
            },
            None => {
                self.documents.push(stored);
                assert(self.entries() =~= before.push(d));
                assert(self.entries().drop_last() =~= before);
                assert(self.entries() == upsert(before, d));
                assert(self@ == map_of(before).insert(d.path, d));
                assert(self.wf()) by {
                    assert(forall|k: int|
                        0 <= k < before.len() ==> self.entries()[k] == before[k]);
                    assert(self.entries()[before.len() as int] == d);
                }
            },
        }
    }

    /// Stores a batch of documents, upserting each in order.
    pub fn store_documents(&mut self, documents: Vec<Document>)
        requires
            old(self).wf(),
        ensures
            final(self).wf(),
            final(self).entries() == upsert_all(old(self).entries(), documents.deep_view()),
            final(self)@ == insert_all(old(self)@, documents.deep_view()),
    {
        let ghost ds = documents.deep_view();
        let ghost before = self.entries();
        let ghost m0 = self@;
        assert(ds.subrange(0, 0) =~= Seq::<DocMeta>::empty());
        let n = documents.len();
        let mut i: usize = 0;
        while i < n
            invariant
                i <= n,
                n == documents.len(),
                ds == documents.deep_view(),
                self.wf(),
                self.entries() == upsert_all(before, ds.subrange(0, i as int)),
                self@ == insert_all(m0, ds.subrange(0, i as int)),
            decreases n - i,
        {
            let d = documents[i].clone();
            assert(d@ == ds[i as int]);
            assert(ds.subrange(0, i as int + 1).drop_last() =~= ds.subrange(0, i as int));
            assert(ds.subrange(0, i as int + 1).last() == ds[i as int]);
            self.store_document(d);
            i += 1;
        }
        assert(ds.subrange(0, n as int) =~= ds);
    }

    /// All stored entries, in store order.
    pub fn get_all_documents<'a>(&'a self) -> (r: Vec<&'a StoredDocument>)
        ensures
            r@.len() == self.entries().len(),
            forall|i: int| 0 <= i < r@.len() ==> #[trigger] r@[i]@ == self.entries()[i],
    {
        let mut r: Vec<&StoredDocument> = Vec::new();
        let mut i: usize = 0;
        while i < self.documents.len()
            invariant
                i <= self.documents.len(),
                r@.len() == i,
                forall|k: int| 0 <= k < i ==> #[trigger] r@[k]@ == self.entries()[k],
            decreases self.documents.len() - i,
        {
            r.push(&self.documents[i]);
            i += 1;
        }
        r
    }

    /// The entry at exactly `path`, or nothing.
    pub fn get_document<'a>(&'a self, path: &str) -> (r: Option<&'a StoredDocument>)
        requires
            self.wf(),
        ensures
            match r {
                Some(d) => self@.contains_key(path@) && d@ == self@[path@],
                None => !self@.contains_key(path@),
            },
    {
        match self.find_index(path) {
            Some(i) => {
                proof {
                    lemma_map_of_get(self.entries(), i as int);
                }
                Some(&self.documents[i])
            },
            None => {
                proof {
                    lemma_map_of_contains(self.entries(), path@);
                }
                None
            },
        }
    }

    /// The stored documents sharing at least one keyword with the query, in
    /// descending order of how many query keywords they hold.
    pub fn find_relevant_documents<'a>(&'a self, query: &str) -> (r: Vec<&'a StoredDocument>)
        requires
            self.wf(),
        ensures
            forall|a: int, b: int|
                0 <= a <= b < r@.len() ==> match_count(keywords_of(query@), r@[a]@.keywords)
                    >= match_count(keywords_of(query@), r@[b]@.keywords),
            forall|i: int|
                0 <= i < r@.len() ==> match_count(keywords_of(query@), #[trigger] r@[i]@.keywords)
                    > 0,
            r@.map_values(|d: &StoredDocument| d@).to_multiset() == scored_entries(
                keywords_of(query@),
                self.entries(),
            ).to_multiset(),
    {
        broadcast use vstd::seq_lib::group_to_multiset_ensures;
        broadcast use vstd::multiset::group_multiset_axioms;

        let ghost qd = keywords_of(query@);
        let q = keywords::extract_keywords(query);
        let ghost pview = |p: (&'a StoredDocument, usize)| p.0@;

        // Score every entry, keeping those with a positive count.
        let mut pairs: Vec<(&StoredDocument, usize)> = Vec::new();
        let mut i: usize = 0;
        assert(self.entries().subrange(0, 0) =~= Seq::<StoredDocView>::empty());
        assert(pairs@.map_values(pview) =~= Seq::<StoredDocView>::empty());
        while i < self.documents.len()
            invariant
                i <= self.documents.len(),
                q.deep_view() == qd,
                pview == (|p: (&'a StoredDocument, usize)| p.0@),
                pairs@.map_values(pview) == scored_entries(
                    qd,
                    self.entries().subrange(0, i as int),
                ),
                forall|k: int|
                    0 <= k < pairs@.len() ==> (#[trigger] pairs@[k]).1 == match_count(
                        qd,
                        pairs@[k].0@.keywords,
                    ) && pairs@[k].1 > 0,
            decreases self.documents.len() - i,
        {
            let ghost prefix = self.entries().subrange(0, i as int);
            let ghost before = pairs@.map_values(pview);
            let dref = &self.documents[i];
            let score = count_matches(&q, &dref.keywords);
            assert(dref@ == self.entries()[i as int]);
            assert(self.entries().subrange(0, i as int + 1).drop_last() =~= prefix);
            assert(self.entries().subrange(0, i as int + 1).last() == self.entries()[i as int]);
            if score > 0 {
                pairs.push((dref, score));
                assert(pairs@.map_values(pview) =~= before.push(self.entries()[i as int]));
            }
            i += 1;
        }
        assert(self.entries().subrange(0, self.documents.len() as int) =~= self.entries());
        let ghost target = scored_entries(qd, self.entries());
        assert(pairs@.map_values(pview) == target);

        // Selection sort on the match count, highest first.
        let mut rest = pairs;
        let mut ordered: Vec<(&StoredDocument, usize)> = Vec::new();
        assert(ordered@.map_values(pview) =~= Seq::<StoredDocView>::empty());
        proof {
            assert forall|x: StoredDocView|
                Seq::<StoredDocView>::empty().to_multiset().count(x) == 0 by {
                assert(!Seq::<StoredDocView>::empty().contains(x));
            }
            assert(ordered@.map_values(pview).to_multiset() =~= Multiset::<StoredDocView>::empty());
            assert(ordered@.map_values(pview).to_multiset().add(
                rest@.map_values(pview).to_multiset(),
            ) =~= target.to_multiset());
        }
        while rest.len() > 0
            invariant
                pview == (|p: (&'a StoredDocument, usize)| p.0@),
                ordered@.map_values(pview).to_multiset().add(
                    rest@.map_values(pview).to_multiset(),
                ) == target.to_multiset(),
                forall|k: int|
                    0 <= k < rest@.len() ==> (#[trigger] rest@[k]).1 == match_count(
                        qd,
                        rest@[k].0@.keywords,
                    ) && rest@[k].1 > 0,
                forall|k: int|
                    0 <= k < ordered@.len() ==> (#[trigger] ordered@[k]).1 == match_count(
                        qd,
                        ordered@[k].0@.keywords,
                    ) && ordered@[k].1 > 0,
                forall|a: int, b: int|
                    0 <= a <= b < ordered@.len() ==> (#[trigger] ordered@[a]).1
                        >= (#[trigger] ordered@[b]).1,
                forall|a: int, b: int|
                    0 <= a < ordered@.len() && 0 <= b < rest@.len() ==> (#[trigger] ordered@[a]).1
                        >= (#[trigger] rest@[b]).1,
            decreases rest.len(),
        {
            // The index of a maximal remaining match count.
            let mut k: usize = 0;
            let mut j: usize = 1;
            while j < rest.len()
                invariant
                    k < j <= rest.len(),
                    rest.len() > 0,
                    forall|t: int| 0 <= t < j ==> (#[trigger] rest@[t]).1 <= rest@[k as int].1,
                decreases rest.len() - j,
            {
                if rest[j].1 > rest[k].1 {
                    k = j;
                }
                j += 1;
            }
            let ghost restseq = rest@.map_values(pview);
            let ghost ordseq = ordered@.map_values(pview);
            let ghost picked = restseq[k as int];
            let p = rest.remove(k);
            ordered.push(p);
            proof {
                broadcast use vstd::seq_lib::group_to_multiset_ensures;
                broadcast use vstd::multiset::group_multiset_axioms;

                assert(rest@.map_values(pview) =~= restseq.remove(k as int));
                assert(ordered@.map_values(pview) =~= ordseq.push(picked));
                assert(0 <= k < restseq.len() && restseq[k as int] == picked);
                assert(restseq.contains(picked));
                assert(restseq.to_multiset().count(picked) > 0);
                assert(ordseq.push(picked).to_multiset().add(
                    restseq.remove(k as int).to_multiset(),
                ) =~= ordseq.to_multiset().add(restseq.to_multiset()));
            }
        }
        proof {
            assert(rest@.map_values(pview) =~= Seq::<StoredDocView>::empty());
            assert forall|x: StoredDocView|
                rest@.map_values(pview).to_multiset().count(x) == 0 by {
                assert(!rest@.map_values(pview).contains(x));
            }
            assert(ordered@.map_values(pview).to_multiset() =~= target.to_multiset());
        }

        // Hand the documents out in the sorted order.
        let mut r: Vec<&StoredDocument> = Vec::new();
        let mut m: usize = 0;
        while m < ordered.len()
            invariant
                m <= ordered.len(),
                r@.len() == m,
                forall|t: int| 0 <= t < m ==> #[trigger] r@[t] == ordered@[t].0,
            decreases ordered.len() - m,
        {
            let e = ordered[m].0;
            r.push(e);
            m += 1;
        }
        assert(r@.map_values(|d: &StoredDocument| d@) =~= ordered@.map_values(pview));
        assert(forall|t: int| 0 <= t < r@.len() ==> #[trigger] r@[t]@ == ordered@[t].0@);
        r
    }
}

/// Storing a document and then reading its path back yields content, title
/// and summary identical to the stored document's.
pub proof fn store_then_get_preserves(s0: DocumentStorage, s1: DocumentStorage, d: DocMeta)
    requires
        s1@ == s0@.insert(d.path, stored_view(d)),
    ensures
        s1@.contains_key(d.path),
        s1@[d.path].content == d.content,
        s1@[d.path].title == d.title,
        s1@[d.path].summary == d.summary,
{
}

/// Storing a batch of two documents into an empty store leaves exactly two
/// entries when their paths differ, and exactly one when they are equal.
pub proof fn store_two_counts(s0: DocumentStorage, s1: DocumentStorage, d1: DocMeta, d2: DocMeta)
    requires
        s0@ == Map::<Seq<char>, StoredDocView>::empty(),
        s1@ == insert_all(s0@, seq![d1, d2]),
    ensures
        d1.path != d2.path ==> s1@.len() == 2,
        d1.path == d2.path ==> s1@.len() == 1,
{
    let ds = seq![d1, d2];
    assert(ds.drop_last() =~= seq![d1]);
    assert(seq![d1].drop_last() =~= Seq::<DocMeta>::empty());
    assert(insert_all(s0@, Seq::<DocMeta>::empty()) == s0@);
    assert(seq![d1].last() == d1);
    assert(insert_all(s0@, seq![d1]) == s0@.insert(d1.path, stored_view(d1)));
    assert(ds.last() == d2);
    assert(insert_all(s0@, ds) == insert_all(s0@, seq![d1]).insert(d2.path, stored_view(d2)));
    assert(s1@ == Map::<Seq<char>, StoredDocView>::empty().insert(
        d1.path,
        stored_view(d1),
    ).insert(d2.path, stored_view(d2)));
    let m1 = Map::<Seq<char>, StoredDocView>::empty().insert(d1.path, stored_view(d1));
    assert(Map::<Seq<char>, StoredDocView>::empty().dom() =~= Set::<Seq<char>>::empty());
    assert(m1.dom() =~= Set::<Seq<char>>::empty().insert(d1.path));
    assert(m1.dom().len() == 1);
    assert(s1@.dom() =~= m1.dom().insert(d2.path));
    if d1.path == d2.path {
        assert(s1@.dom() =~= m1.dom());
    }
}

/// Storing a batch of two documents into an empty store leaves the entries
/// that a full read returns: two when the paths differ, one when they are
/// equal.
pub proof fn store_two_entry_counts(d1: DocMeta, d2: DocMeta)
    ensures
        d1.path != d2.path ==> upsert_all(Seq::<StoredDocView>::empty(), seq![d1, d2]).len() == 2,
        d1.path == d2.path ==> upsert_all(Seq::<StoredDocView>::empty(), seq![d1, d2]).len() == 1,
{
    let ds = seq![d1, d2];
    assert(ds.drop_last() =~= seq![d1]);
    assert(seq![d1].drop_last() =~= Seq::<DocMeta>::empty());
    let e0 = Seq::<StoredDocView>::empty();
    assert(upsert_all(e0, Seq::<DocMeta>::empty()) == e0);
    assert(seq![d1].last() == d1);
    let e1 = upsert(e0, stored_view(d1));
    assert(e1 == e0.push(stored_view(d1)));
    assert(upsert_all(e0, seq![d1]) == e1);
    assert(ds.last() == d2);
    assert(upsert_all(e0, ds) == upsert(e1, stored_view(d2)));
    assert(e1[0] == stored_view(d1));
    if d1.path == d2.path {
        assert(e1[0].path == stored_view(d2).path);
        let c = choose|i: int| 0 <= i < e1.len() && e1[i].path == stored_view(d2).path;
        assert(upsert(e1, stored_view(d2)) == e1.update(c, stored_view(d2)));
    } else {
        assert(forall|i: int| 0 <= i < e1.len() ==> e1[i].path != stored_view(d2).path);
        assert(upsert(e1, stored_view(d2)) == e1.push(stored_view(d2)));
    }
}

/// Re-storing a document at an existing path replaces the prior entry
/// entirely: the store maps the path to the new document and holds no more
/// paths than before.
pub proof fn restore_replaces(
    s0: DocumentStorage,
    s1: DocumentStorage,
    s2: DocumentStorage,
    d1: DocMeta,
    d2: DocMeta,
)
    requires
        d1.path == d2.path,
        s1@ == s0@.insert(d1.path, stored_view(d1)),
        s2@ == s1@.insert(d2.path, stored_view(d2)),
    ensures
        s2@ == s0@.insert(d2.path, stored_view(d2)),
        s2@[d2.path] == stored_view(d2),
        s2@.dom() == s1@.dom(),
{
    assert(s2@ =~= s0@.insert(d2.path, stored_view(d2)));
    assert(s2@.dom() =~= s1@.dom());
}

/// No duplicate entries accumulate when a path is stored twice: the second
/// upsert rewrites in place and adds nothing.
pub proof fn restore_no_duplicates(e: Seq<StoredDocView>, d1: StoredDocView, d2: StoredDocView)
    requires
        d1.path == d2.path,
    ensures
        upsert(upsert(e, d1), d2).len() == upsert(e, d1).len(),
{
    let e1 = upsert(e, d1);
    if exists|i: int| 0 <= i < e.len() && e[i].path == d1.path {
        let c = choose|i: int| 0 <= i < e.len() && e[i].path == d1.path;
        assert(e1[c].path == d2.path);
    } else {
        assert(e1 == e.push(d1));
        assert(e1[e.len() as int].path == d2.path);
    }
    assert(exists|i: int| 0 <= i < e1.len() && e1[i].path == d2.path);
}

/// How many keywords of `q` occur in `kws`.
fn count_matches(q: &Vec<String>, kws: &Vec<String>) -> (r: usize)
    ensures
        r == match_count(q.deep_view(), kws.deep_view()),
{
    let ghost qd = q.deep_view();
    let ghost kd = kws.deep_view();
    assert(qd.subrange(0, 0) =~= Seq::<Seq<char>>::empty());
    let mut count: usize = 0;
    let mut i: usize = 0;
    while i < q.len()
        invariant
            i <= q.len(),
            qd == q.deep_view(),
            kd == kws.deep_view(),
            count == match_count(qd.subrange(0, i as int), kd),
            count <= i,
        decreases q.len() - i,
    {
        assert(qd.subrange(0, i as int + 1).drop_last() =~= qd.subrange(0, i as int));
        assert(qd.subrange(0, i as int + 1).last() == qd[i as int]);
        if contains_string(kws, &q[i]) {
            count += 1;
        }
        i += 1;
    }
    assert(qd.subrange(0, q.len() as int) =~= qd);
    count
}

} // verus!


use vstd::prelude::*;
use crate::lexer::{tokenize, tokens, lemma_tokens_from_len, Lexer};
use crate::counts::{count_in, sub_floor, TermCounts};
use crate::snapshot::{
    assoc, entries_view, keys_distinct, total, lemma_assoc_contains, lemma_assoc_value, record_doc, record_entries,
    record_ok, valid_snapshot, DocRecord,
};

verus! {

/// The number of occurrences of each distinct token of `toks`.
pub open spec fn term_counts(toks: Seq<Seq<char>>) -> Map<Seq<char>, nat>
    decreases toks.len(),
{
    if toks.len() == 0 {
        Map::empty()
    } else {
        let m = term_counts(toks.drop_last());
        m.insert(toks.last(), count_in(m, toks.last()) + 1)
    }
}

/// Counts each distinct token of `content`, and the tokens in all.
pub fn count_tokens(content: &str) -> (r: (TermCounts, usize))
    ensures
        r.0.wf(),
        r.0@ == term_counts(tokens(content@)),
        r.1 == tokens(content@).len(),
        r.0.positive(),
        r.0.sum() == r.1,
{
    let mut lexer = Lexer::new(content);
    let mut tf = TermCounts::new();
    let mut count: usize = 0;
    let ghost mut seen: Seq<Seq<char>> = Seq::empty();
    proof {
        lemma_tokens_from_len(content@, 0);
    }
    loop
        invariant
            lexer.input() == content@,
            seen + lexer.remaining() == tokens(content@),
            tokens(content@).len() <= content@.len(),
            tf.wf(),
            tf@ == term_counts(seen),
            count == seen.len(),
            tf.positive(),
            tf.sum() == count,
        decreases lexer.remaining().len(),
    {
        let ghost before = lexer.remaining();
        match lexer.next_token() {
            Some(t) => {
                proof {
                    lemma_count_le_len(seen, t@);
                    assert(seen.len() < tokens(content@).len()) by {
                        assert((seen + before).len() == tokens(content@).len());
                    }
                    assert(seen.push(t@) + lexer.remaining() =~= seen + before);
                    assert(seen.push(t@).drop_last() =~= seen);
                }
                tf.increment(&t);
                count = count + 1;
                proof {
                    seen = seen.push(t@);
                }
            },
            None => {
                assert(seen =~= tokens(content@));
                return (tf, count);
            },
        }
    }
}

/// No term occurs more often than there are tokens.
pub proof fn lemma_count_le_len(toks: Seq<Seq<char>>, k: Seq<char>)
    ensures
        count_in(term_counts(toks), k) <= toks.len(),
    decreases toks.len(),
{
    if toks.len() > 0 {
        lemma_count_le_len(toks.drop_last(), k);
    }
}


/// What the index records of one document.
pub struct DocView {
    pub tf: Map<Seq<char>, nat>,
    pub count: nat,
    pub last_modified: u64,
}

/// One indexed document: its term counts, its token total and its timestamp.
pub struct Doc {
    tf: TermCounts,
    count: usize,
    last_modified: u64,
}

impl View for Doc {
    type V = DocView;

    closed spec fn view(&self) -> DocView {
        DocView { tf: self.tf@, count: self.count as nat, last_modified: self.last_modified }
    }
}

impl Doc {
    /// The term table is sound, every count is positive, and the token total
    /// is the sum of the counts.
    pub closed spec fn wf(&self) -> bool {
        &&& self.tf.wf()
        &&& self.tf.positive()
        &&& self.count == self.tf.sum()
    }

    pub(crate) fn new(tf: TermCounts, count: usize, last_modified: u64) -> (r: Doc)
        requires
            tf.wf(),
            tf.positive(),
            count == tf.sum(),
        ensures
            r.wf(),
            r@ == (DocView { tf: tf@, count: count as nat, last_modified }),
    {
        Doc { tf, count, last_modified }
    }
}

/// `df` with one subtracted, stopping at zero, for each term of `terms`.
pub open spec fn retract(df: Map<Seq<char>, nat>, terms: Set<Seq<char>>) -> Map<Seq<char>, nat> {
    Map::new(
        |t: Seq<char>| df.contains_key(t),
        |t: Seq<char>| if terms.contains(t) { sub_floor(df[t]) } else { df[t] },
    )
}

/// `df` with one added for each term of `terms`.
pub open spec fn enlist(df: Map<Seq<char>, nat>, terms: Set<Seq<char>>) -> Map<Seq<char>, nat> {
    Map::new(
        |t: Seq<char>| df.contains_key(t) || terms.contains(t),
        |t: Seq<char>| if terms.contains(t) { count_in(df, t) + 1 } else { df[t] },
    )
}

/// The document frequencies once the document at `p`, if any, is taken out.
pub open spec fn df_without(
    docs: Map<Seq<char>, DocView>,
    df: Map<Seq<char>, nat>,
    p: Seq<char>,
) -> Map<Seq<char>, nat> {
    if docs.contains_key(p) {
        retract(df, docs[p].tf.dom())
    } else {
        df
    }
}

/// The record that indexing `toks` at time `t` produces.
pub open spec fn doc_of(toks: Seq<Seq<char>>, t: u64) -> DocView {
    DocView { tf: term_counts(toks), count: toks.len(), last_modified: t }
}

/// The documents and document frequencies after indexing `toks` at `p`.
pub open spec fn after_add(
    state: (Map<Seq<char>, DocView>, Map<Seq<char>, nat>),
    p: Seq<char>,
    t: u64,
    toks: Seq<Seq<char>>,
) -> (Map<Seq<char>, DocView>, Map<Seq<char>, nat>) {
    (
        state.0.insert(p, doc_of(toks, t)),
        enlist(df_without(state.0, state.1, p), term_counts(toks).dom()),
    )
}

/// The documents and document frequencies after taking out the document at `p`.
pub open spec fn after_remove(
    state: (Map<Seq<char>, DocView>, Map<Seq<char>, nat>),
    p: Seq<char>,
) -> (Map<Seq<char>, DocView>, Map<Seq<char>, nat>) {
    (state.0.remove(p), df_without(state.0, state.1, p))
}

/// The paths of the documents whose term counts mention `t`.
pub open spec fn docs_with(docs: Map<Seq<char>, DocView>, t: Seq<char>) -> Set<Seq<char>> {
    docs.dom().filter(|p: Seq<char>| docs[p].tf.contains_key(t))
}

/// Appending `x` to a sequence adds `x` to its set of elements.
pub proof fn lemma_push_to_set(s: Seq<Seq<char>>, x: Seq<char>)
    ensures
        s.push(x).to_set() == s.to_set().insert(x),
{
    assert forall|y: Seq<char>| s.push(x).contains(y) <==> (s.contains(y) || y == x) by {
        if s.push(x).contains(y) {
            let k = choose|k: int| 0 <= k < s.push(x).len() && s.push(x)[k] == y;
            if k < s.len() {
                assert(s[k] == y);
            }
        }
        if s.contains(y) {
            let k = choose|k: int| 0 <= k < s.len() && s[k] == y;
            assert(s.push(x)[k] == y);
        }
        if y == x {
            assert(s.push(x)[s.len() as int] == y);
        }
    }
    assert(s.push(x) =~= s + seq![x]);
    Seq::lemma_to_set_insert_commutes(s, x);
}

/// The documents containing a term are finitely many, and no more than all.
pub proof fn lemma_docs_with_finite(docs: Map<Seq<char>, DocView>, t: Seq<char>)
    requires
        docs.dom().finite(),
    ensures
        docs_with(docs, t).finite(),
        docs_with(docs, t).len() <= docs.dom().len(),
{
    docs.dom().lemma_len_filter(|p: Seq<char>| docs[p].tf.contains_key(t));
}

/// `n`, but at least one.
pub open spec fn at_least_one(n: nat) -> nat {
    if n == 0 {
        1
    } else {
        n
    }
}

/// Whether term `t` carries a positive weight in a corpus of `n` documents:
/// fewer documents than all of them contain it.
pub open spec fn weighty(df: Map<Seq<char>, nat>, n: nat, t: Seq<char>) -> bool {
    at_least_one(count_in(df, t)) < n
}

/// Whether term `t` adds a positive amount to the score of document `d`:
/// it occurs in `d` and carries a positive weight.
pub open spec fn scores_on(
    state: (Map<Seq<char>, DocView>, Map<Seq<char>, nat>),
    d: DocView,
    t: Seq<char>,
) -> bool {
    count_in(d.tf, t) > 0 && weighty(state.1, state.0.dom().len(), t)
}

/// Whether document `d` scores above zero for the query tokens `q`.
pub open spec fn relevant(
    state: (Map<Seq<char>, DocView>, Map<Seq<char>, nat>),
    d: DocView,
    q: Seq<Seq<char>>,
) -> bool {
    exists|j: int| 0 <= j < q.len() && #[trigger] scores_on(state, d, q[j])
}

/// The statistics of one query token in one document.
pub struct TermHit {
    /// How often the token occurs in the document.
    pub occurrences: usize,
    /// How many documents of the corpus contain the token.
    pub doc_freq: usize,
}

/// A document that scores above zero for a query, with what its score is made of.
pub struct Candidate {
    pub path: String,
    /// The document's token total.
    pub total: usize,
    /// One entry per query token, in query order.
    pub hits: Vec<TermHit>,
}

/// What a candidate for document `d` and query tokens `q` holds.
pub open spec fn describes(
    c: Candidate,
    state: (Map<Seq<char>, DocView>, Map<Seq<char>, nat>),
    q: Seq<Seq<char>>,
) -> bool {
    let d = state.0[c.path@];
    &&& state.0.contains_key(c.path@)
    &&& c.total == d.count
    &&& c.hits@.len() == q.len()
    &&& forall|j: int|
        #![trigger c.hits@[j]]
        0 <= j < q.len() ==> c.hits@[j].occurrences == count_in(d.tf, q[j])
            && c.hits@[j].doc_freq == count_in(state.1, q[j])
}

/// The corpus: documents keyed by path, and for each term the number of
/// documents that contain it.
pub struct Model {
    paths: Vec<String>,
    docs: Vec<Doc>,
    df: TermCounts,
    index: Ghost<Map<Seq<char>, DocView>>,
}

impl Model {
    /// The indexed documents, keyed by path.
    pub closed spec fn docs_view(&self) -> Map<Seq<char>, DocView> {
        self.index@
    }

    /// The document frequency table.
    pub closed spec fn df_view(&self) -> Map<Seq<char>, nat> {
        self.df@
    }

    /// The documents and the document frequencies together.
    pub open spec fn state(&self) -> (Map<Seq<char>, DocView>, Map<Seq<char>, nat>) {
        (self.docs_view(), self.df_view())
    }

    /// The stored paths, in storage order.
    pub closed spec fn path_seq(&self) -> Seq<Seq<char>> {
        self.paths@.map_values(|p: String| p@)
    }

    /// Each path is stored once with its sound document, the view holds
    /// exactly the stored documents, and each term's document frequency is
    /// the number of documents that contain it.
    pub closed spec fn wf(&self) -> bool {
        &&& self.paths.len() == self.docs.len()
        &&& self.path_seq().no_duplicates()
        &&& forall|i: int|
            #![trigger self.path_seq()[i]]
            0 <= i < self.path_seq().len() ==> self.index@.contains_key(self.path_seq()[i])
                && self.index@[self.path_seq()[i]] == self.docs[i]@
                && self.docs[i].wf()
        &&& forall|p: Seq<char>| #[trigger]
            self.index@.contains_key(p) ==> self.path_seq().contains(p)
        &&& self.index@.dom().finite()
        &&& self.index@.dom().len() == self.paths.len()
        &&& self.df.wf()
        &&& forall|t: Seq<char>| #[trigger]
            count_in(self.df@, t) == docs_with(self.index@, t).len()
    }

    /// An empty index.
    pub fn new() -> (r: Model)
        ensures
            r.wf(),
            r.docs_view() == Map::<Seq<char>, DocView>::empty(),
            r.df_view() == Map::<Seq<char>, nat>::empty(),
    {
        let r = Model {
            paths: Vec::new(),
            docs: Vec::new(),
            df: TermCounts::new(),
            index: Ghost(Map::empty()),
        };
        assert(r.path_seq() =~= Seq::<Seq<char>>::empty());
        assert forall|t: Seq<char>| #[trigger]
            count_in(r.df@, t) == docs_with(r.index@, t).len() by {
            assert(docs_with(r.index@, t) =~= Set::empty());
        }
        r
    }

    fn find_path(&self, path: &String) -> (r: Option<usize>)
        requires
            self.wf(),
        ensures
            match r {
                Some(i) => i < self.paths.len() && self.path_seq()[i as int] == path@,
                None => !self.docs_view().contains_key(path@),
            },
    {
        let n = self.paths.len();
        let mut i: usize = 0;
        while i < n
            invariant
                n == self.paths.len(),
                i <= n,
                forall|j: int| 0 <= j < i ==> self.path_seq()[j] != path@,
            decreases n - i,
        {
            if self.paths[i] == *path {
                return Some(i);
            }
            i = i + 1;
        }
        None
    }

    /// Takes out the document at `path`, if there is one: each of its terms
    /// loses one from its document frequency, stopping at zero.
    pub fn remove_document(&mut self, path: &String)
        requires
            old(self).wf(),
        ensures
            final(self).wf(),
            final(self).state() == after_remove(old(self).state(), path@),
    {
        match self.find_path(path) {
            None => {
                assert(self.index@.remove(path@) =~= self.index@);
            },
            Some(i) => {
                let ghost old_paths = self.path_seq();
                let ghost old_index = self.index@;
                let ghost old_df = self.df@;
                let doc = self.docs.remove(i);
                let _ = self.paths.remove(i);
                self.index = Ghost(self.index@.remove(path@));
                proof {
                    assert(self.path_seq() =~= old_paths.remove(i as int));
                    self.lemma_paths_after_remove(old_paths, old_index, i as int);
                    doc.tf.lemma_terms();
                }
                let n = doc.tf.len();
                let ghost terms = doc.tf.terms();
                let ghost kept_paths = self.paths@;
                let ghost kept_docs = self.docs@;
                let mut j: usize = 0;
                while j < n
                    invariant
                        n == terms.len(),
                        j <= n,
                        terms == doc.tf.terms(),
                        terms.no_duplicates(),
                        self.df.wf(),
                        self.df@ == retract(old_df, terms.subrange(0, j as int).to_set()),
                        self.index@ == old_index.remove(path@),
                        self.paths@ == kept_paths,
                        self.docs@ == kept_docs,
                    decreases n - j,
                {
                    let ghost before = self.df@;
                    self.df.decrement(doc.tf.term(j));
                    proof {
                        let done = terms.subrange(0, j as int);
                        assert(terms.subrange(0, j + 1) =~= done.push(terms[j as int]));
                        assert(!done.contains(terms[j as int]));
                        let x = terms[j as int];
                        lemma_push_to_set(done, x);
                        assert(self.df@ =~= retract(old_df, done.push(x).to_set()));
                    }
                    j = j + 1;
                }
                proof {
                    assert(terms.subrange(0, n as int) =~= terms);
                    assert(old_index[path@] == doc@);
                    self.lemma_df_after_remove(old_index, old_df, path@);
                }
            },
        }
    }

    proof fn lemma_paths_after_remove(
        &self,
        old_paths: Seq<Seq<char>>,
        old_index: Map<Seq<char>, DocView>,
        i: int,
    )
        requires
            0 <= i < old_paths.len(),
            old_paths.no_duplicates(),
            self.path_seq() == old_paths.remove(i),
            self.index@ == old_index.remove(old_paths[i]),
            old_index.dom().finite(),
            old_index.dom().len() == old_paths.len(),
            forall|p: Seq<char>| #[trigger] old_index.contains_key(p) ==> old_paths.contains(p),
            forall|k: int| 0 <= k < old_paths.len() ==> old_index.contains_key(#[trigger] old_paths[k]),
        ensures
            self.path_seq().no_duplicates(),
            forall|p: Seq<char>| #[trigger] self.index@.contains_key(p) ==> self.path_seq().contains(p),
            self.index@.dom().finite(),
            self.index@.dom().len() == old_paths.len() - 1,
    {
        let q = self.path_seq();
        assert forall|a: int, b: int| 0 <= a < b < q.len() implies q[a] != q[b] by {
            let a2 = if a < i { a } else { a + 1 };
            let b2 = if b < i { b } else { b + 1 };
            assert(q[a] == old_paths[a2]);
            assert(q[b] == old_paths[b2]);
        }
        assert forall|p: Seq<char>| #[trigger] self.index@.contains_key(p) implies q.contains(p) by {
            let k = choose|k: int| 0 <= k < old_paths.len() && old_paths[k] == p;
            if k < i {
                assert(q[k] == p);
            } else {
                assert(k != i);
                assert(q[k - 1] == p);
            }
        }
    }

    proof fn lemma_df_after_remove(
        &self,
        old_index: Map<Seq<char>, DocView>,
        old_df: Map<Seq<char>, nat>,
        p: Seq<char>,
    )
        requires
            old_index.contains_key(p),
            old_index.dom().finite(),
            self.index@ == old_index.remove(p),
            self.df@ == retract(old_df, old_index[p].tf.dom()),
            forall|t: Seq<char>| #[trigger] count_in(old_df, t) == docs_with(old_index, t).len(),
        ensures
            forall|t: Seq<char>| #[trigger] count_in(self.df@, t) == docs_with(self.index@, t).len(),
    {
        assert forall|t: Seq<char>| #[trigger] count_in(self.df@, t) == docs_with(self.index@, t).len() by {
            let before = docs_with(old_index, t);
            lemma_docs_with_finite(old_index, t);
            assert(count_in(old_df, t) == before.len());
            if old_index[p].tf.contains_key(t) {
                assert(docs_with(self.index@, t) =~= before.remove(p));
                assert(before.contains(p));
                assert(before.remove(p).len() == before.len() - 1);
                assert(old_df.contains_key(t));
            } else {
                assert(docs_with(self.index@, t) =~= before);
            }
        }
    }

    /// Indexes `content` at `path` with timestamp `last_modified`, replacing
    /// any earlier record of `path`. The earlier record's terms are first
    /// taken out of the document frequencies, then each distinct term of the
    /// new content adds one.
    pub fn add_document(&mut self, path: String, last_modified: u64, content: &str)
        requires
            old(self).wf(),
        ensures
            final(self).wf(),
            final(self).state() == after_add(old(self).state(), path@, last_modified, tokens(content@)),
    {
        self.remove_document(&path);
        let (tf, count) = count_tokens(content);
        self.store(path, Doc::new(tf, count, last_modified));
    }

    /// Adds a document under a path that is not indexed yet.
    pub(crate) fn store(&mut self, path: String, doc: Doc)
        requires
            old(self).wf(),
            !old(self).docs_view().contains_key(path@),
            doc.wf(),
        ensures
            final(self).wf(),
            final(self).docs_view() == old(self).docs_view().insert(path@, doc@),
            final(self).df_view() == enlist(old(self).df_view(), doc@.tf.dom()),
    {
        let ghost mid_index = self.index@;
        let ghost mid_df = self.df@;
        let ghost mid_paths = self.path_seq();
        let ghost pv = path@;
        let ghost dv = doc@;
        let ghost mid_docs = self.docs@;
        assert forall|k: int|
            #![trigger mid_paths[k]]
            0 <= k < mid_paths.len() implies mid_index.contains_key(mid_paths[k])
                && mid_index[mid_paths[k]] == mid_docs[k]@ && mid_docs[k].wf() by {
            assert(self.path_seq()[k] == mid_paths[k]);
        }
        self.paths.push(path);
        self.docs.push(doc);
        self.index = Ghost(self.index@.insert(pv, dv));
        proof {
            assert(self.path_seq() =~= mid_paths.push(pv));
            self.lemma_paths_after_push(mid_paths, mid_index, mid_docs, pv);
        }
        let last = self.docs.len() - 1;
        let n = self.docs[last].tf.len();
        proof {
            self.docs[last as int].tf.lemma_terms();
        }
        let ghost terms = self.docs[last as int].tf.terms();
        let ghost kept_paths = self.paths@;
        let ghost kept_docs = self.docs@;
        let mut j: usize = 0;
        while j < n
            invariant
                last + 1 == self.docs.len(),
                n == terms.len(),
                j <= n,
                terms == self.docs[last as int].tf.terms(),
                terms.to_set() == dv.tf.dom(),
                terms.no_duplicates(),
                self.df.wf(),
                self.df@ == enlist(mid_df, terms.subrange(0, j as int).to_set()),
                self.index@ == mid_index.insert(pv, dv),
                self.paths@ == kept_paths,
                self.docs@ == kept_docs,
                !mid_index.contains_key(pv),
                mid_index.dom().finite(),
                mid_index.dom().len() + 1 == self.docs.len(),
                forall|t: Seq<char>| #[trigger] count_in(mid_df, t) == docs_with(mid_index, t).len(),
            decreases n - j,
        {
            let ghost done = terms.subrange(0, j as int);
            let ghost x = terms[j as int];
            proof {
                assert(terms.subrange(0, j + 1) =~= done.push(x));
                assert(!done.contains(x));
                lemma_push_to_set(done, x);
                lemma_docs_with_finite(mid_index, x);
                assert(count_in(self.df@, x) == count_in(mid_df, x));
            }
            self.df.increment(self.docs[last].tf.term(j));
            proof {
                assert(self.df@ =~= enlist(mid_df, done.push(x).to_set()));
            }
            j = j + 1;
        }
        proof {
            assert(terms.subrange(0, n as int) =~= terms);
            self.lemma_df_after_add(mid_index, mid_df, pv, dv);
        }
    }

    proof fn lemma_paths_after_push(
        &self,
        old_paths: Seq<Seq<char>>,
        old_index: Map<Seq<char>, DocView>,
        old_docs: Seq<Doc>,
        p: Seq<char>,
    )
        requires
            !old_index.contains_key(p),
            old_paths.no_duplicates(),
            self.docs@ == old_docs.push(self.docs[old_paths.len() as int]),
            self.path_seq() == old_paths.push(p),
            self.index@ == old_index.insert(p, self.docs[old_paths.len() as int]@),
            self.docs.len() == old_paths.len() + 1,
            self.docs[old_paths.len() as int].wf(),
            old_index.dom().finite(),
            old_index.dom().len() == old_paths.len(),
            forall|q: Seq<char>| #[trigger] old_index.contains_key(q) ==> old_paths.contains(q),
            forall|k: int|
                #![trigger old_paths[k]]
                0 <= k < old_paths.len() ==> old_index.contains_key(old_paths[k])
                    && old_index[old_paths[k]] == old_docs[k]@ && old_docs[k].wf(),
        ensures
            self.path_seq().no_duplicates(),
            forall|i: int|
                #![trigger self.path_seq()[i]]
                0 <= i < self.path_seq().len() ==> self.index@.contains_key(self.path_seq()[i])
                    && self.index@[self.path_seq()[i]] == self.docs[i]@
                    && self.docs[i].wf(),
            forall|q: Seq<char>| #[trigger] self.index@.contains_key(q) ==> self.path_seq().contains(q),
            self.index@.dom().finite(),
            self.index@.dom().len() == self.docs.len(),
    {
        let s = self.path_seq();
        let m = old_paths.len() as int;
        assert forall|a: int, b: int| 0 <= a < b < s.len() implies s[a] != s[b] by {
            if b == m {
                assert(old_index.contains_key(old_paths[a]));
            } else {
                assert(s[a] == old_paths[a] && s[b] == old_paths[b]);
            }
        }
        assert forall|i: int|
            #![trigger s[i]]
            0 <= i < s.len() implies self.index@.contains_key(s[i])
                && self.index@[s[i]] == self.docs[i]@
                && self.docs[i].wf() by {
            if i < m {
                assert(s[i] == old_paths[i]);
                assert(self.docs[i] == old_docs[i]);
                assert(old_index.contains_key(old_paths[i]));
            }
        }
        assert forall|q: Seq<char>| #[trigger] self.index@.contains_key(q) implies s.contains(q) by {
            if q == p {
                assert(s[m] == q);
            } else {
                let k = choose|k: int| 0 <= k < old_paths.len() && old_paths[k] == q;
                assert(s[k] == q);
            }
        }
    }

    proof fn lemma_df_after_add(
        &self,
        old_index: Map<Seq<char>, DocView>,
        old_df: Map<Seq<char>, nat>,
        p: Seq<char>,
        d: DocView,
    )
        requires
            !old_index.contains_key(p),
            old_index.dom().finite(),
            self.index@ == old_index.insert(p, d),
            self.df@ == enlist(old_df, d.tf.dom()),
            forall|t: Seq<char>| #[trigger] count_in(old_df, t) == docs_with(old_index, t).len(),
        ensures
            forall|t: Seq<char>| #[trigger] count_in(self.df@, t) == docs_with(self.index@, t).len(),
    {
        assert forall|t: Seq<char>| #[trigger] count_in(self.df@, t) == docs_with(self.index@, t).len() by {
            let before = docs_with(old_index, t);
            lemma_docs_with_finite(old_index, t);
            assert(count_in(old_df, t) == before.len());
            if d.tf.contains_key(t) {
                assert(docs_with(self.index@, t) =~= before.insert(p));
                assert(!before.contains(p));
            } else {
                assert(docs_with(self.index@, t) =~= before);
            }
        }
    }

    /// The documents that score above zero for `query`, each once, with
    /// the counts their scores are computed from. A document scores above
    /// zero exactly when some query term occurs in it and is missing from at
    /// least one document of the corpus.
    pub fn search_candidates(&self, query: &str) -> (r: Vec<Candidate>)
        requires
            self.wf(),
        ensures
            forall|i: int|
                0 <= i < r.len() ==> describes(#[trigger] r@[i], self.state(), tokens(query@))
                    && relevant(self.state(), self.docs_view()[r@[i].path@], tokens(query@)),
            forall|p: Seq<char>|
                self.docs_view().contains_key(p) && relevant(
                    self.state(),
                    #[trigger] self.docs_view()[p],
                    tokens(query@),
                ) ==> exists|i: int| 0 <= i < r.len() && r@[i].path@ == p,
            forall|i: int, k: int| 0 <= i < k < r.len() ==> r@[i].path@ != r@[k].path@,
            self.docs_view().dom().len() == 0 ==> r.len() == 0,
            (forall|j: int, p: Seq<char>|
                0 <= j < tokens(query@).len() && self.docs_view().contains_key(p)
                    ==> !(#[trigger] self.docs_view()[p].tf.contains_key(tokens(query@)[j])))
                ==> r.len() == 0,
    {
        let toks = tokenize(query);
        let ghost q = tokens(query@);
        let ghost st = self.state();
        let n = self.paths.len();
        let mut out: Vec<Candidate> = Vec::new();
        let ghost mut origin: Seq<int> = Seq::empty();
        let mut i: usize = 0;
        while i < n
            invariant
                self.wf(),
                st == self.state(),
                n == self.paths.len(),
                i <= n,
                toks@.map_values(|t: String| t@) == q,
                origin.len() == out.len(),
                forall|e: int|
                    0 <= e < out.len() ==> 0 <= #[trigger] origin[e] < i
                        && out@[e].path@ == self.path_seq()[origin[e]]
                        && describes(out@[e], st, q)
                        && relevant(st, self.docs_view()[out@[e].path@], q),
                forall|e: int, f: int| 0 <= e < f < out.len() ==> origin[e] < origin[f],
                forall|k: int|
                    0 <= k < i && relevant(st, #[trigger] self.docs_view()[self.path_seq()[k]], q)
                        ==> exists|e: int| 0 <= e < out.len() && origin[e] == k,
            decreases n - i,
        {
            let doc = &self.docs[i];
            let ghost pi = self.path_seq()[i as int];
            proof {
                assert(self.index@.contains_key(pi));
            }
            let ghost d = self.docs_view()[pi];
            let mut hits: Vec<TermHit> = Vec::new();
            let mut hit = false;
            let mut j: usize = 0;
            while j < toks.len()
                invariant
                    self.wf(),
                    st == self.state(),
                    n == self.paths.len(),
                    n == st.0.dom().len(),
                    doc.tf.wf(),
                    d == doc@,
                    toks@.map_values(|t: String| t@) == q,
                    j <= toks.len(),
                    hits@.len() == j,
                    forall|k: int|
                        #![trigger hits@[k]]
                        0 <= k < j ==> hits@[k].occurrences == count_in(d.tf, q[k])
                            && hits@[k].doc_freq == count_in(st.1, q[k]),
                    hit == exists|k: int| 0 <= k < j && #[trigger] scores_on(st, d, q[k]),
                decreases toks.len() - j,
            {
                let occurrences = doc.tf.get(&toks[j]);
                let doc_freq = self.df.get(&toks[j]);
                let ghost t = q[j as int];
                proof {
                    assert(toks@[j as int]@ == t);
                }
                let floor = if doc_freq == 0 { 1 } else { doc_freq };
                let scores = occurrences > 0 && floor < n;
                proof {
                    assert(scores == scores_on(st, d, t));
                    if hit {
                        let k = choose|k: int| 0 <= k < j && #[trigger] scores_on(st, d, q[k]);
                        assert(0 <= k < j + 1 && scores_on(st, d, q[k]));
                    }
                    if scores {
                        assert(0 <= j < j + 1 && scores_on(st, d, q[j as int]));
                    }
                }
                hit = hit || scores;
                hits.push(TermHit { occurrences, doc_freq });
                j = j + 1;
            }
            proof {
                assert(hit == relevant(st, d, q));
            }
            if hit {
                let ghost before = out@;
                let ghost old_origin = origin;
                out.push(Candidate { path: self.paths[i].clone(), total: doc.count, hits });
                proof {
                    origin = origin.push(i as int);
                    assert(out@[out.len() - 1].path@ == pi);
                    assert forall|e: int|
                        0 <= e < out.len() implies 0 <= #[trigger] origin[e] < i + 1
                            && out@[e].path@ == self.path_seq()[origin[e]]
                            && describes(out@[e], st, q)
                            && relevant(st, self.docs_view()[out@[e].path@], q) by {
                        if e < before.len() {
                            assert(out@[e] == before[e]);
                        }
                    }
                    assert forall|k: int|
                        0 <= k < i + 1 && relevant(st, #[trigger] self.docs_view()[self.path_seq()[k]], q)
                            implies exists|e: int| 0 <= e < out.len() && origin[e] == k by {
                        if k < i {
                            let e = choose|e: int| 0 <= e < before.len() && old_origin[e] == k;
                            assert(origin[e] == k);
                        } else {
                            assert(origin[out.len() - 1] == k);
                        }
                    }
                }
            }
            i = i + 1;
        }
        proof {
            assert forall|e: int| 0 <= e < out.len() implies describes(#[trigger] out@[e], st, q)
                && relevant(st, self.docs_view()[out@[e].path@], q) by {
                assert(0 <= origin[e] < n);
            }
            if out.len() > 0 {
                assert(0 <= origin[0] < n);
                let pp = out@[0].path@;
                let jj = choose|jj: int| 0 <= jj < q.len() && #[trigger] scores_on(st, self.docs_view()[pp], q[jj]);
                assert(self.docs_view()[pp].tf.contains_key(q[jj]));
                assert(self.docs_view().dom().len() > 0);
            }
            assert forall|e: int, f: int| 0 <= e < f < out.len() implies out@[e].path@ != out@[f].path@ by {
                assert(origin[e] < origin[f]);
            }
            assert forall|p: Seq<char>|
                self.docs_view().contains_key(p) && relevant(st, #[trigger] self.docs_view()[p], q)
                    implies exists|e: int| 0 <= e < out.len() && out@[e].path@ == p by {
                let k = choose|k: int| 0 <= k < self.path_seq().len() && self.path_seq()[k] == p;
                assert(relevant(st, self.docs_view()[self.path_seq()[k]], q));
                let e = choose|e: int| 0 <= e < out.len() && origin[e] == k;
                assert(out@[e].path@ == p);
            }
        }
        out
    }

    /// The number of indexed documents.
    pub fn doc_count(&self) -> (r: usize)
        requires
            self.wf(),
        ensures
            r == self.docs_view().dom().len(),
    {
        self.paths.len()
    }

    /// The number of indexed documents that contain `term`.
    pub fn document_frequency(&self, term: &String) -> (r: usize)
        requires
            self.wf(),
        ensures
            r == count_in(self.df_view(), term@),
    {
        self.df.get(term)
    }

    /// How often `term` occurs in the document at `path`, if it is indexed.
    pub fn term_frequency(&self, path: &String, term: &String) -> (r: Option<usize>)
        requires
            self.wf(),
        ensures
            match r {
                Some(c) => self.docs_view().contains_key(path@) && c == count_in(
                    self.docs_view()[path@].tf,
                    term@,
                ),
                None => !self.docs_view().contains_key(path@),
            },
    {
        match self.find_path(path) {
            Some(i) => {
                proof {
                    assert(self.index@.contains_key(self.path_seq()[i as int]));
                }
                Some(self.docs[i].tf.get(term))
            },
            None => None,
        }
    }

    /// The token total of the document at `path`, if it is indexed.
    pub fn token_count(&self, path: &String) -> (r: Option<usize>)
        requires
            self.wf(),
        ensures
            match r {
                Some(c) => self.docs_view().contains_key(path@) && c == self.docs_view()[path@].count,
                None => !self.docs_view().contains_key(path@),
            },
    {
        match self.find_path(path) {
            Some(i) => {
                proof {
                    assert(self.index@.contains_key(self.path_seq()[i as int]));
                }
                Some(self.docs[i].count)
            },
            None => None,
        }
    }

    /// The document frequency table.
    pub(crate) fn df_table(&self) -> (r: &TermCounts)
        requires
            self.wf(),
        ensures
            r.wf(),
            r@ == self.df_view(),
    {
        &self.df
    }

    /// Replaces the document frequency table by one that agrees with it on
    /// every term.
    pub(crate) fn replace_df(&mut self, df: TermCounts)
        requires
            old(self).wf(),
            df.wf(),
            forall|t: Seq<char>| #[trigger] count_in(df@, t) == count_in(old(self).df_view(), t),
        ensures
            final(self).wf(),
            final(self).docs_view() == old(self).docs_view(),
            final(self).df_view() == df@,
    {
        self.df = df;
        assert forall|t: Seq<char>| #[trigger] count_in(self.df@, t) == docs_with(self.index@, t).len() by {
            assert(count_in(old(self).df@, t) == docs_with(old(self).index@, t).len());
        }
    }

    /// The stored form of the index: one record per document, and the
    /// document frequency list. It is a sound snapshot of this very index.
    pub fn snapshot(&self) -> (r: (Vec<DocRecord>, Vec<(String, usize)>))
        requires
            self.wf(),
        ensures
            valid_snapshot(r.0@, entries_view(r.1@)),
            assoc(record_entries(r.0@)) == self.docs_view(),
            assoc(entries_view(r.1@)) == self.df_view(),
    {
        let n = self.paths.len();
        let mut out: Vec<DocRecord> = Vec::new();
        let mut i: usize = 0;
        while i < n
            invariant
                self.wf(),
                n == self.paths.len(),
                i <= n,
                out@.len() == i,
                forall|j: int|
                    0 <= j < i ==> (#[trigger] out@[j]).path@ == self.path_seq()[j]
                        && record_doc(out@[j]) == self.docs[j]@ && record_ok(out@[j]),
            decreases n - i,
        {
            let doc = &self.docs[i];
            proof {
                assert(self.index@.contains_key(self.path_seq()[i as int]));
            }
            let tf = doc.tf.entries();
            out.push(DocRecord {
                path: self.paths[i].clone(),
                tf,
                count: doc.count,
                last_modified: doc.last_modified,
            });
            i = i + 1;
        }
        let df = self.df.entries();
        let ghost re = record_entries(out@);
        proof {
            assert forall|a: int, b: int| 0 <= a < b < re.len() implies re[a].0 != re[b].0 by {
                assert(re[a].0 == self.path_seq()[a] && re[b].0 == self.path_seq()[b]);
            }
            assert forall|k: Seq<char>| assoc(re).contains_key(k) <==> self.index@.contains_key(k) by {
                lemma_assoc_contains(re, k);
                if self.index@.contains_key(k) {
                    let j = choose|j: int| 0 <= j < self.path_seq().len() && self.path_seq()[j] == k;
                    assert(re[j].0 == k);
                }
                if assoc(re).contains_key(k) {
                    let j = choose|j: int| 0 <= j < re.len() && re[j].0 == k;
                    assert(self.path_seq()[j] == k);
                }
            }
            assert forall|k: Seq<char>| assoc(re).contains_key(k) implies assoc(re)[k] == self.index@[k] by {
                lemma_assoc_contains(re, k);
                let j = choose|j: int| 0 <= j < re.len() && re[j].0 == k;
                lemma_assoc_value(re, j);
                assert(self.path_seq()[j] == k);
            }
            assert(assoc(re) =~= self.index@);
            assert forall|j: int| 0 <= j < out@.len() implies record_ok(#[trigger] out@[j]) by {}
        }
        (out, df)
    }

    /// Whether the document at `path` is missing or older than `last_modified`.
    pub fn requires_reindexing(&self, path: &String, last_modified: u64) -> (r: bool)
        requires
            self.wf(),
        ensures
            r == (!self.docs_view().contains_key(path@)
                || self.docs_view()[path@].last_modified < last_modified),
    {
        match self.find_path(path) {
            Some(i) => self.docs[i].last_modified < last_modified,
            None => true,
        }
    }
}


impl Default for Model {
    fn default() -> (r: Model)
        ensures
            r.wf(),
            r.docs_view() == Map::<Seq<char>, DocView>::empty(),
            r.df_view() == Map::<Seq<char>, nat>::empty(),
    {
        Model::new()
    }
}

/// Indexing the same content at the same path and time twice in a row leaves
/// the same documents and document frequencies as indexing it once.
pub proof fn lemma_add_idempotent(
    state: (Map<Seq<char>, DocView>, Map<Seq<char>, nat>),
    p: Seq<char>,
    t: u64,
    toks: Seq<Seq<char>>,
)
    ensures
        after_add(after_add(state, p, t, toks), p, t, toks) == after_add(state, p, t, toks),
{
    let once = after_add(state, p, t, toks);
    let twice = after_add(once, p, t, toks);
    let terms = term_counts(toks).dom();
    assert(twice.0 =~= once.0);
    let base = df_without(state.0, state.1, p);
    let back = retract(once.1, terms);
    assert forall|k: Seq<char>| terms.contains(k) implies count_in(back, k) == count_in(base, k) by {
        assert(once.1.contains_key(k));
    }
    assert(twice.1 =~= once.1);
}

/// Each document frequency counts exactly the indexed documents that contain
/// the term, so a term with a positive frequency occurs in some document.
pub proof fn lemma_df_counts_documents(m: &Model)
    requires
        m.wf(),
    ensures
        forall|t: Seq<char>|
            #[trigger] count_in(m.df_view(), t) == docs_with(m.docs_view(), t).len(),
        forall|t: Seq<char>|
            #[trigger] count_in(m.df_view(), t) > 0 ==> exists|p: Seq<char>|
                m.docs_view().contains_key(p) && #[trigger] m.docs_view()[p].tf.contains_key(t),
{
    assert forall|t: Seq<char>| #[trigger] count_in(m.df_view(), t) > 0 implies exists|p: Seq<char>|
        m.docs_view().contains_key(p) && #[trigger] m.docs_view()[p].tf.contains_key(t) by {
        let w = docs_with(m.docs_view(), t);
        assert(count_in(m.df_view(), t) == w.len());
        lemma_docs_with_finite(m.docs_view(), t);
        if w =~= Set::empty() {
            assert(w.len() == 0);
        } else {
            let p = choose|p: Seq<char>| w.contains(p);
            assert(m.docs_view().contains_key(p) && m.docs_view()[p].tf.contains_key(t));
        }
    }
}

/// What a sound index guarantees: finitely many documents, each with
/// finitely many terms, every stored term count positive, and each
/// document's token total the sum of its term counts.
pub proof fn lemma_index_facts(m: &Model)
    requires
        m.wf(),
    ensures
        m.docs_view().dom().finite(),
        forall|p: Seq<char>| #[trigger] m.docs_view().contains_key(p) ==> {
            let d = m.docs_view()[p];
            &&& d.tf.dom().finite()
            &&& forall|t: Seq<char>| #[trigger] d.tf.contains_key(t) ==> d.tf[t] > 0
            &&& exists|e: Seq<(Seq<char>, nat)>|
                keys_distinct(e) && #[trigger] assoc(e) == d.tf && total(e) == d.count
        },
{
    assert forall|p: Seq<char>| #[trigger] m.docs_view().contains_key(p) implies {
        let d = m.docs_view()[p];
        &&& d.tf.dom().finite()
        &&& forall|t: Seq<char>| #[trigger] d.tf.contains_key(t) ==> d.tf[t] > 0
        &&& exists|e: Seq<(Seq<char>, nat)>|
            keys_distinct(e) && #[trigger] assoc(e) == d.tf && total(e) == d.count
    } by {
        let i = choose|i: int| 0 <= i < m.path_seq().len() && m.path_seq()[i] == p;
        assert(m.index@.contains_key(m.path_seq()[i]));
        let doc = m.docs[i];
        doc.tf.lemma_listing();
        let e = doc.tf.listing();
        assert(keys_distinct(e) && assoc(e) == doc.tf@ && total(e) == doc@.count);
    }
}

/// A document with no tokens has no term counts, so it never scores above
/// zero for any query.
pub proof fn lemma_empty_document_never_relevant(m: &Model, p: Seq<char>, q: Seq<Seq<char>>)
    requires
        m.wf(),
        m.docs_view().contains_key(p),
        m.docs_view()[p].count == 0,
    ensures
        m.docs_view()[p].tf == Map::<Seq<char>, nat>::empty(),
        !relevant(m.state(), m.docs_view()[p], q),
{
    let i = choose|i: int| 0 <= i < m.path_seq().len() && m.path_seq()[i] == p;
    assert(m.index@.contains_key(m.path_seq()[i]));
    let doc = m.docs[i];
    doc.tf.lemma_zero_sum_empty();
    assert(doc.tf@ =~= Map::<Seq<char>, nat>::empty());
}

/// Taking out a document lowers the frequency of each of its terms by one,
/// stopping at zero, and leaves every other frequency as it was; taking out
/// a path that is not indexed changes nothing.
pub proof fn lemma_remove_counts(
    state: (Map<Seq<char>, DocView>, Map<Seq<char>, nat>),
    p: Seq<char>,
)
    ensures
        forall|t: Seq<char>|
            state.0.contains_key(p) && state.0[p].tf.contains_key(t) ==> #[trigger] count_in(
                after_remove(state, p).1,
                t,
            ) == sub_floor(count_in(state.1, t)),
        forall|t: Seq<char>|
            !(state.0.contains_key(p) && state.0[p].tf.contains_key(t)) ==> #[trigger] count_in(
                after_remove(state, p).1,
                t,
            ) == count_in(state.1, t),
        !state.0.contains_key(p) ==> after_remove(state, p) == state,
{
    if !state.0.contains_key(p) {
        assert(state.0.remove(p) =~= state.0);
    }
}

} // verus!

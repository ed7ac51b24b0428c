use vstd::prelude::*;
use crate::counts::{count_in, TermCounts};
use crate::model::{docs_with, lemma_df_counts_documents, Doc, DocView, Model};

verus! {

/// The map that a list of keyed entries describes (a later entry for a key
/// replaces an earlier one).
pub open spec fn assoc<V>(e: Seq<(Seq<char>, V)>) -> Map<Seq<char>, V>
    decreases e.len(),
{
    if e.len() == 0 {
        Map::empty()
    } else {
        assoc(e.drop_last()).insert(e.last().0, e.last().1)
    }
}

/// No key occurs twice among the entries.
pub open spec fn keys_distinct<V>(e: Seq<(Seq<char>, V)>) -> bool {
    forall|i: int, j: int| 0 <= i < j < e.len() ==> e[i].0 != e[j].0
}

/// The sum of the entries' counts.
pub open spec fn total(e: Seq<(Seq<char>, nat)>) -> nat
    decreases e.len(),
{
    if e.len() == 0 {
        0
    } else {
        total(e.drop_last()) + e.last().1
    }
}

/// The entries with their terms and counts as plain values.
pub open spec fn entries_view(v: Seq<(String, usize)>) -> Seq<(Seq<char>, nat)> {
    v.map_values(|x: (String, usize)| (x.0@, x.1 as nat))
}

/// The stored form of one document: its path, its term counts, its token
/// total and its timestamp.
pub struct DocRecord {
    pub path: String,
    pub tf: Vec<(String, usize)>,
    pub count: usize,
    pub last_modified: u64,
}

/// What a record says of its document.
pub open spec fn record_doc(r: DocRecord) -> DocView {
    DocView { tf: assoc(entries_view(r.tf@)), count: r.count as nat, last_modified: r.last_modified }
}

/// The records as (path, document) entries.
pub open spec fn record_entries(rs: Seq<DocRecord>) -> Seq<(Seq<char>, DocView)> {
    rs.map_values(|r: DocRecord| (r.path@, record_doc(r)))
}

/// A document record is sound: each term once, with a positive count, and
/// a token total that is the sum of the counts.
pub open spec fn record_ok(r: DocRecord) -> bool {
    let e = entries_view(r.tf@);
    &&& keys_distinct(e)
    &&& forall|i: int| 0 <= i < e.len() ==> #[trigger] e[i].1 > 0
    &&& r.count == total(e)
}

/// A snapshot is sound: each path once, each record sound, each term once in
/// the frequency list, and every frequency the number of documents that
/// contain the term.
pub open spec fn valid_snapshot(rs: Seq<DocRecord>, df: Seq<(Seq<char>, nat)>) -> bool {
    &&& keys_distinct(record_entries(rs))
    &&& forall|i: int| 0 <= i < rs.len() ==> record_ok(#[trigger] rs[i])
    &&& keys_distinct(df)
    &&& forall|t: Seq<char>|
        #[trigger] count_in(assoc(df), t) == docs_with(assoc(record_entries(rs)), t).len()
}

/// Why a snapshot was refused.
#[derive(Debug, Clone, PartialEq, Eq)]
pub enum SnapshotError {
    /// Two records share this path.
    DuplicatePath(String),
    /// A record lists a term twice.
    DuplicateTerm { path: String, term: String },
    /// A record lists a term with a zero count.
    ZeroCount { path: String, term: String },
    /// A record's token total is not the sum of its counts.
    CountMismatch(String),
    /// The frequency list names a term twice.
    DuplicateFrequency(String),
    /// The frequency of a term is not the number of documents containing it.
    FrequencyMismatch(String),
}

/// A key has an entry in the map exactly when some entry names it.
pub proof fn lemma_assoc_contains<V>(e: Seq<(Seq<char>, V)>, k: Seq<char>)
    ensures
        assoc(e).contains_key(k) <==> exists|i: int| 0 <= i < e.len() && e[i].0 == k,
    decreases e.len(),
{
    if e.len() > 0 {
        lemma_assoc_contains(e.drop_last(), k);
        if assoc(e.drop_last()).contains_key(k) {
            let i = choose|i: int| 0 <= i < e.drop_last().len() && e.drop_last()[i].0 == k;
            assert(e[i].0 == k);
        }
        if exists|i: int| 0 <= i < e.len() && e[i].0 == k {
            let i = choose|i: int| 0 <= i < e.len() && e[i].0 == k;
            if i < e.len() - 1 {
                assert(e.drop_last()[i].0 == k);
            }
        }
    }
}

/// With distinct keys, each entry's value is the map's value for its key.
pub proof fn lemma_assoc_value<V>(e: Seq<(Seq<char>, V)>, j: int)
    requires
        keys_distinct(e),
        0 <= j < e.len(),
    ensures
        assoc(e).contains_key(e[j].0),
        assoc(e)[e[j].0] == e[j].1,
    decreases e.len(),
{
    if j < e.len() - 1 {
        lemma_assoc_value(e.drop_last(), j);
        assert(e.drop_last()[j] == e[j]);
    }
}

/// A prefix of the entries sums to no more than all of them.
pub proof fn lemma_total_prefix(e: Seq<(Seq<char>, nat)>, i: int)
    requires
        0 <= i <= e.len(),
    ensures
        total(e.take(i)) <= total(e),
    decreases e.len() - i,
{
    if i < e.len() {
        lemma_total_prefix(e, i + 1);
        assert(e.take(i + 1).drop_last() =~= e.take(i));
    } else {
        assert(e.take(i) =~= e);
    }
}

/// Reads one record's term counts, checking that each term comes once with a
/// positive count and that the counts add up to the record's token total.
fn record_table(rec: &DocRecord) -> (r: Result<TermCounts, SnapshotError>)
    ensures
        r is Ok <==> record_ok(*rec),
        r matches Ok(tf) ==> tf.wf() && tf@ == assoc(entries_view(rec.tf@)) && tf.positive()
            && tf.sum() == rec.count,
        r matches Err(e) ==> (e is ZeroCount || e is DuplicateTerm || e is CountMismatch),
{
    let ghost e = entries_view(rec.tf@);
    let mut tf = TermCounts::new();
    let mut sum: usize = 0;
    let mut i: usize = 0;
    while i < rec.tf.len()
        invariant
            e == entries_view(rec.tf@),
            i <= rec.tf.len(),
            tf.wf(),
            tf@ == assoc(e.take(i as int)),
            keys_distinct(e.take(i as int)),
            forall|k: int| 0 <= k < i ==> #[trigger] e[k].1 > 0,
            sum == total(e.take(i as int)),
            tf.positive(),
            tf.sum() == sum,
        decreases rec.tf.len() - i,
    {
        let term = &rec.tf[i].0;
        let v = rec.tf[i].1;
        let ghost x = e[i as int];
        proof {
            assert(e.take(i + 1).drop_last() =~= e.take(i as int));
            assert(e.take(i + 1).last() == x);
        }
        if v == 0 {
            assert(e[i as int].1 == 0);
            return Err(SnapshotError::ZeroCount { path: rec.path.clone(), term: term.clone() });
        }
        if tf.contains(term) {
            proof {
                lemma_assoc_contains(e.take(i as int), x.0);
                let j = choose|j: int| 0 <= j < e.take(i as int).len() && e.take(i as int)[j].0 == x.0;
                assert(e[j].0 == e[i as int].0);
            }
            return Err(SnapshotError::DuplicateTerm { path: rec.path.clone(), term: term.clone() });
        }
        if v > usize::MAX - sum {
            proof {
                lemma_total_prefix(e, i + 1);
            }
            return Err(SnapshotError::CountMismatch(rec.path.clone()));
        }
        proof {
            lemma_assoc_contains(e.take(i as int), x.0);
            let ghost next = e.take(i + 1);
            assert forall|a: int, b: int| 0 <= a < b < next.len() implies #[trigger] next[a].0
                != #[trigger] next[b].0 by {
                if b == i {
                    assert(e.take(i as int)[a].0 == e[a].0);
                } else {
                    assert(e.take(i as int)[a] == e[a] && e.take(i as int)[b] == e[b]);
                }
            }
        }
        tf.set(term, v);
        sum = sum + v;
        i = i + 1;
    }
    proof {
        assert(e.take(i as int) =~= e);
    }
    if sum != rec.count {
        return Err(SnapshotError::CountMismatch(rec.path.clone()));
    }
    Ok(tf)
}


impl Model {
    /// Rebuilds an index from its stored form: the document records and the
    /// list of document frequencies. A snapshot that is not sound is refused
    /// with the first flaw found.
    pub fn from_snapshot(docs: &Vec<DocRecord>, df: &Vec<(String, usize)>) -> (r: Result<
        Model,
        SnapshotError,
    >)
        ensures
            r is Ok <==> valid_snapshot(docs@, entries_view(df@)),
            r matches Ok(m) ==> m.wf() && m.docs_view() == assoc(record_entries(docs@))
                && m.df_view() == assoc(entries_view(df@)),
            r matches Err(SnapshotError::DuplicatePath(p)) ==> exists|i: int, j: int|
                0 <= i < j < docs.len() && docs@[i].path@ == p@ && docs@[j].path@ == p@,
            r matches Err(SnapshotError::DuplicateFrequency(t)) ==> exists|i: int, j: int|
                0 <= i < j < df.len() && df@[i].0@ == t@ && df@[j].0@ == t@,
            r matches Err(SnapshotError::FrequencyMismatch(t)) ==> count_in(
                assoc(entries_view(df@)),
                t@,
            ) != docs_with(assoc(record_entries(docs@)), t@).len(),
    {
        let ghost re = record_entries(docs@);
        let mut model = Model::new();
        let mut i: usize = 0;
        while i < docs.len()
            invariant
                re == record_entries(docs@),
                i <= docs.len(),
                model.wf(),
                model.docs_view() == assoc(re.take(i as int)),
                keys_distinct(re.take(i as int)),
                forall|k: int| 0 <= k < i ==> record_ok(#[trigger] docs@[k]),
            decreases docs.len() - i,
        {
            let rec = &docs[i];
            proof {
                assert(re.take(i + 1).drop_last() =~= re.take(i as int));
                assert(re[i as int] == (rec.path@, record_doc(*rec)));
                lemma_assoc_contains(re.take(i as int), rec.path@);
            }
            if model.token_count(&rec.path).is_some() {
                proof {
                    let j = choose|j: int| 0 <= j < re.take(i as int).len() && re.take(i as int)[j].0 == rec.path@;
                    assert(re[j].0 == docs@[j].path@);
                    assert(re.take(i as int)[j] == re[j]);
                }
                return Err(SnapshotError::DuplicatePath(rec.path.clone()));
            }
            match record_table(rec) {
                Err(e) => {
                    return Err(e);
                },
                Ok(tf) => {
                    model.store(rec.path.clone(), Doc::new(tf, rec.count, rec.last_modified));
                    proof {
                        let next = re.take(i + 1);
                        assert forall|a: int, b: int| 0 <= a < b < next.len() implies #[trigger] next[a].0
                            != #[trigger] next[b].0 by {
                            if b == i {
                                assert(re.take(i as int)[a] == re[a]);
                            } else {
                                assert(re.take(i as int)[a] == re[a] && re.take(i as int)[b] == re[b]);
                            }
                        }
                    }
                },
            }
            i = i + 1;
        }
        proof {
            assert(re.take(i as int) =~= re);
            lemma_df_counts_documents(&model);
        }
        let ghost de = entries_view(df@);
        let mut given = TermCounts::new();
        let mut k: usize = 0;
        while k < df.len()
            invariant
                de == entries_view(df@),
                k <= df.len(),
                given.wf(),
                given@ == assoc(de.take(k as int)),
                keys_distinct(de.take(k as int)),
            decreases df.len() - k,
        {
            let term = &df[k].0;
            proof {
                assert(de.take(k + 1).drop_last() =~= de.take(k as int));
                assert(de[k as int] == (term@, df@[k as int].1 as nat));
                lemma_assoc_contains(de.take(k as int), term@);
            }
            if given.contains(term) {
                proof {
                    let j = choose|j: int| 0 <= j < de.take(k as int).len() && de.take(k as int)[j].0 == term@;
                    assert(de.take(k as int)[j] == de[j]);
                }
                return Err(SnapshotError::DuplicateFrequency(term.clone()));
            }
            proof {
                let next = de.take(k + 1);
                assert forall|a: int, b: int| 0 <= a < b < next.len() implies #[trigger] next[a].0
                    != #[trigger] next[b].0 by {
                    if b == k {
                        assert(de.take(k as int)[a] == de[a]);
                    } else {
                        assert(de.take(k as int)[a] == de[a] && de.take(k as int)[b] == de[b]);
                    }
                }
            }
            given.set(term, df[k].1);
            k = k + 1;
        }
        proof {
            assert(de.take(k as int) =~= de);
            given.lemma_terms();
        }
        let n = given.len();
        let mut j: usize = 0;
        while j < n
            invariant
                n == given.terms().len(),
                j <= n,
                re == record_entries(docs@),
                de == entries_view(df@),
                model.docs_view() == assoc(re),
                given@ == assoc(de),
                forall|t: Seq<char>|
                    #[trigger] count_in(model.df_view(), t) == docs_with(model.docs_view(), t).len(),

                given.wf(),
                model.wf(),
                forall|a: int|
                    0 <= a < j ==> count_in(given@, #[trigger] given.terms()[a]) == count_in(
                        model.df_view(),
                        given.terms()[a],
                    ),
            decreases n - j,
        {
            let t = given.term(j);
            proof {
                given.lemma_terms();
                assert(given.terms().to_set().contains(given.terms()[j as int]));
            }
            if given.value(j) != model.document_frequency(t) {
                proof {
                    assert(given@.contains_key(t@));
                    assert(count_in(assoc(de), t@) != docs_with(assoc(re), t@).len());
                    assert(!valid_snapshot(docs@, de));
                }
                return Err(SnapshotError::FrequencyMismatch(t.clone()));
            }
            j = j + 1;
        }
        let table = model.df_table();
        proof {
            table.lemma_terms();
        }
        let m = table.len();
        j = 0;
        while j < m
            invariant
                m == table.terms().len(),
                j <= m,
                re == record_entries(docs@),
                de == entries_view(df@),
                model.docs_view() == assoc(re),
                given@ == assoc(de),
                forall|t: Seq<char>|
                    #[trigger] count_in(model.df_view(), t) == docs_with(model.docs_view(), t).len(),

                given.wf(),
                table.wf(),
                table@ == model.df_view(),
                forall|a: int|
                    0 <= a < j ==> count_in(table@, #[trigger] table.terms()[a]) == count_in(
                        given@,
                        table.terms()[a],
                    ),
            decreases m - j,
        {
            let t = table.term(j);
            proof {
                table.lemma_terms();
                assert(table.terms().to_set().contains(table.terms()[j as int]));
            }
            if table.value(j) != given.get(t) {
                proof {
                    assert(table@.contains_key(t@));
                    assert(count_in(table@, t@) == count_in(model.df_view(), t@));
                    assert(count_in(assoc(de), t@) != docs_with(assoc(re), t@).len());
                    assert(!valid_snapshot(docs@, de));
                }
                return Err(SnapshotError::FrequencyMismatch(t.clone()));
            }
            j = j + 1;
        }
        proof {
            given.lemma_terms();
            table.lemma_terms();
            assert forall|t: Seq<char>| #[trigger] count_in(given@, t) == count_in(model.df_view(), t) by {
                if given@.contains_key(t) {
                    assert(given.terms().to_set().contains(t));
                    let a = choose|a: int| 0 <= a < given.terms().len() && given.terms()[a] == t;
                    assert(count_in(given@, given.terms()[a]) == count_in(model.df_view(), given.terms()[a]));
                } else if table@.contains_key(t) {
                    assert(table.terms().to_set().contains(t));
                    let a = choose|a: int| 0 <= a < table.terms().len() && table.terms()[a] == t;
                    assert(count_in(table@, table.terms()[a]) == count_in(given@, table.terms()[a]));
                }
            }
        }
        model.replace_df(given);
        Ok(model)
    }
}

} // verus!

//! The inverted index and how it is built from document records.
use vstd::prelude::*;
use crate::tokenize::{split_path, split_slash};

verus! {

/// A document as ingested: its name and the paths it lists.
pub struct FileData {
    pub name: String,
    pub files: Vec<String>,
}

impl FileData {
    /// The listed paths, as character sequences.
    pub open spec fn files_view(&self) -> Seq<Seq<char>> {
        self.files@.map_values(|f: String| f@)
    }
}

/// The document-id table: ids are dense from 0, and `data[id]` is the name
/// of document `id`; `count` is the next id to hand out.
pub struct MappedDocumentIds {
    pub count: u64,
    pub data: Vec<String>,
}

impl MappedDocumentIds {
    /// The names by id, as character sequences.
    pub open spec fn names_view(&self) -> Seq<Seq<char>> {
        self.data@.map_values(|n: String| n@)
    }

    /// An empty table.
    pub fn new() -> (r: Self)
        ensures
            r.count == 0,
            r.data@.len() == 0,
    {
        MappedDocumentIds { count: 0, data: Vec::new() }
    }
}

/// The inverse document frequency of a term, kept exactly as the ratio whose
/// natural logarithm it is: `(N - df + 0.5) / (df + 0.5)`, scaled by two.
#[derive(Clone, Copy)]
pub struct IdfRatio {
    pub numerator: u128,
    pub denominator: u128,
}

/// Numerator of the IDF ratio for `n` documents and a posting list of length `df`.
pub open spec fn idf_numerator(n: nat, df: nat) -> int {
    2 * (n - df) + 1
}

/// Denominator of the IDF ratio for a posting list of length `df`.
pub open spec fn idf_denominator(df: nat) -> int {
    2 * (df as int) + 1
}

/// The inverted index. `terms[i]` has the posting list `terms_to_docs[i]`
/// and the weight `idf[i]`; `num_docs` documents were ingested.
pub struct IndexedData {
    pub terms: Vec<String>,
    pub terms_to_docs: Vec<Vec<u64>>,
    pub idf: Vec<IdfRatio>,
    pub num_docs: usize,
    pub mapped_doc_ids: MappedDocumentIds,
}

/// Position of the first occurrence of `t` in `terms`, or -1.
pub open spec fn index_of(terms: Seq<Seq<char>>, t: Seq<char>) -> int
    decreases terms.len(),
{
    if terms.len() == 0 {
        -1
    } else if terms[0] == t {
        0
    } else {
        let r = index_of(terms.drop_first(), t);
        if r < 0 {
            -1
        } else {
            r + 1
        }
    }
}

/// `index_of` finds the first occurrence, and -1 exactly when there is none.
pub proof fn lemma_index_of(terms: Seq<Seq<char>>, t: Seq<char>)
    ensures
        -1 <= index_of(terms, t) < terms.len(),
        index_of(terms, t) == -1 <==> (forall|k: int| 0 <= k < terms.len() ==> terms[k] != t),
        index_of(terms, t) >= 0 ==> terms[index_of(terms, t)] == t,
        forall|k: int| 0 <= k < index_of(terms, t) ==> terms[k] != t,
    decreases terms.len(),
{
    if terms.len() > 0 {
        let rest = terms.drop_first();
        lemma_index_of(rest, t);
        if terms[0] != t {
            assert forall|k: int| 0 < k < terms.len() implies terms[k] == rest[k - 1] by {}
            if index_of(rest, t) == -1 {
                assert forall|k: int| 0 <= k < terms.len() implies terms[k] != t by {
                    if k > 0 {
                        assert(rest[k - 1] != t);
                    }
                }
            }
        }
    }
}

/// State of a build: the terms in order of first appearance, and their postings.
pub type BuildState = (Seq<Seq<char>>, Seq<Seq<u64>>);

/// Records that document `id` holds term `t`: its id is appended to the
/// term's postings unless it is already the last entry there.
pub open spec fn add_term(st: BuildState, t: Seq<char>, id: u64) -> BuildState {
    let i = index_of(st.0, t);
    if i < 0 {
        (st.0.push(t), st.1.push(seq![id]))
    } else if st.1[i].len() > 0 && st.1[i].last() == id {
        st
    } else {
        (st.0, st.1.update(i, st.1[i].push(id)))
    }
}

/// `add_term` for each of `ts` in order.
pub open spec fn add_terms(st: BuildState, ts: Seq<Seq<char>>, id: u64) -> BuildState
    decreases ts.len(),
{
    if ts.len() == 0 {
        st
    } else {
        add_term(add_terms(st, ts.drop_last(), id), ts.last(), id)
    }
}

/// The terms of each path of `files` in order.
pub open spec fn add_files(st: BuildState, files: Seq<Seq<char>>, id: u64) -> BuildState
    decreases files.len(),
{
    if files.len() == 0 {
        st
    } else {
        add_terms(add_files(st, files.drop_last(), id), split_slash(files.last()), id)
    }
}

/// The state after ingesting documents whose path lists are `docs`, the
/// `k`-th of them under id `k`.
pub open spec fn add_documents(docs: Seq<Seq<Seq<char>>>) -> BuildState
    decreases docs.len(),
{
    if docs.len() == 0 {
        (Seq::empty(), Seq::empty())
    } else {
        add_files(add_documents(docs.drop_last()), docs.last(), (docs.len() - 1) as u64)
    }
}

/// No term occurs twice.
pub open spec fn terms_distinct(terms: Seq<Seq<char>>) -> bool {
    forall|i: int, j: int| 0 <= i < j < terms.len() ==> terms[i] != terms[j]
}

/// Posting lists are non-empty, strictly increasing, and hold ids below `n`.
pub open spec fn postings_wf(st: BuildState, n: nat) -> bool {
    &&& st.0.len() == st.1.len()
    &&& forall|i: int| 0 <= i < st.1.len() ==> #[trigger] st.1[i].len() > 0
    &&& forall|i: int, a: int, b: int|
        0 <= i < st.1.len() && 0 <= a < b < st.1[i].len() ==> st.1[i][a] < st.1[i][b]
    &&& forall|i: int, a: int| 0 <= i < st.1.len() && 0 <= a < st.1[i].len() ==> st.1[i][a] < n
}

/// Adding a term for document `id` keeps the postings well formed up to `id + 1`.
pub proof fn lemma_add_term_wf(st: BuildState, t: Seq<char>, id: u64)
    requires
        postings_wf(st, (id + 1) as nat),
        terms_distinct(st.0),
    ensures
        postings_wf(add_term(st, t, id), (id + 1) as nat),
        terms_distinct(add_term(st, t, id).0),
{
    lemma_index_of(st.0, t);
    let i = index_of(st.0, t);
    if i >= 0 && !(st.1[i].len() > 0 && st.1[i].last() == id) {
        let p = st.1[i].push(id);
        assert(st.1[i].last() < id);
        assert forall|a: int, b: int| 0 <= a < b < p.len() implies p[a] < p[b] by {
            if b == p.len() - 1 {
                assert(st.1[i][a] <= st.1[i].last());
            }
        }
    }
}

/// A strictly increasing list of ids below `n` holds at most `n` of them.
pub proof fn lemma_increasing_len(s: Seq<u64>, n: nat)
    requires
        forall|a: int, b: int| 0 <= a < b < s.len() ==> s[a] < s[b],
        forall|a: int| 0 <= a < s.len() ==> s[a] < n,
    ensures
        s.len() <= n,
{
    assert forall|k: int| 0 <= k < s.len() implies s[k] >= k by {
        lemma_increasing_at_least(s, k);
    }
    if s.len() > 0 {
        assert(s[s.len() - 1] >= s.len() - 1);
    }
}

/// The `k`-th of strictly increasing naturals is at least `k`.
proof fn lemma_increasing_at_least(s: Seq<u64>, k: int)
    requires
        forall|a: int, b: int| 0 <= a < b < s.len() ==> s[a] < s[b],
        0 <= k < s.len(),
    ensures
        s[k] >= k,
    decreases k,
{
    if k > 0 {
        lemma_increasing_at_least(s, k - 1);
    }
}

impl IndexedData {
    /// The terms, as character sequences.
    pub open spec fn terms_view(&self) -> Seq<Seq<char>> {
        self.terms@.map_values(|t: String| t@)
    }

    /// The posting lists.
    pub open spec fn postings_view(&self) -> Seq<Seq<u64>> {
        self.terms_to_docs@.map_values(|p: Vec<u64>| p@)
    }

    /// The terms with their postings.
    pub open spec fn state(&self) -> BuildState {
        (self.terms_view(), self.postings_view())
    }

    /// The posting list of `t`, empty for a term that is not indexed.
    pub open spec fn postings_of(&self, t: Seq<char>) -> Seq<u64> {
        let i = index_of(self.terms_view(), t);
        if i < 0 {
            Seq::empty()
        } else {
            self.postings_view()[i]
        }
    }

    /// The table of weights agrees with the postings for `num_docs` documents.
    pub open spec fn idf_wf(&self) -> bool {
        &&& self.idf@.len() == self.terms_to_docs@.len()
        &&& forall|i: int|
            0 <= i < self.idf@.len() ==> {
                &&& #[trigger] self.idf@[i].numerator == idf_numerator(
                    self.num_docs as nat,
                    self.terms_to_docs@[i]@.len(),
                )
                &&& self.idf@[i].denominator == idf_denominator(self.terms_to_docs@[i]@.len())
            }
    }

    /// The invariant of a built index.
    pub open spec fn wf(&self) -> bool {
        &&& self.terms@.len() == self.terms_to_docs@.len()
        &&& postings_wf(self.state(), self.num_docs as nat)
        &&& self.idf_wf()
        &&& self.mapped_doc_ids.data@.len() == self.num_docs
        &&& self.mapped_doc_ids.count == self.num_docs
    }

    /// An index of no documents.
    pub fn new() -> (r: Self)
        ensures
            r.wf(),
            r.num_docs == 0,
            r.terms@.len() == 0,
            r.terms_to_docs@.len() == 0,
            r.idf@.len() == 0,
            r.mapped_doc_ids.data@.len() == 0,
    {
        IndexedData {
            terms: Vec::new(),
            terms_to_docs: Vec::new(),
            idf: Vec::new(),
            num_docs: 0,
            mapped_doc_ids: MappedDocumentIds::new(),
        }
    }
}

/// Position of `t` among `terms`, if it is there.
pub fn find_term(terms: &Vec<String>, t: &String) -> (r: Option<usize>)
    ensures
        match r {
            Some(i) => index_of(terms@.map_values(|s: String| s@), t@) == i,
            None => index_of(terms@.map_values(|s: String| s@), t@) == -1,
        },
{
    let ghost tv = terms@.map_values(|s: String| s@);
    proof {
        lemma_index_of(tv, t@);
    }
    let mut i: usize = 0;
    while i < terms.len()
        invariant
            tv == terms@.map_values(|s: String| s@),
            i <= terms@.len(),
            forall|k: int| 0 <= k < i ==> tv[k] != t@,
        decreases terms@.len() - i,
    {
        if terms[i] == *t {
            proof {
                assert(tv[i as int] == t@);
                lemma_index_of(tv, t@);
            }
            return Some(i);
        }
        i = i + 1;
    }
    proof {
        lemma_index_of(tv, t@);
    }
    None
}

/// Records that document `id` holds term `t` (see `add_term`).
fn insert_term(terms: &mut Vec<String>, postings: &mut Vec<Vec<u64>>, t: &String, id: u64)
    requires
        old(terms)@.len() == old(postings)@.len(),
    ensures
        final(terms)@.len() == final(postings)@.len(),
        (final(terms)@.map_values(|s: String| s@), final(postings)@.map_values(|p: Vec<u64>| p@))
            == add_term(
            (old(terms)@.map_values(|s: String| s@), old(postings)@.map_values(|p: Vec<u64>| p@)),
            t@,
            id,
        ),
{
    let ghost st = (terms@.map_values(|s: String| s@), postings@.map_values(|p: Vec<u64>| p@));
    proof {
        lemma_index_of(st.0, t@);
    }
    match find_term(terms, t) {
        None => {
            terms.push(t.clone());
            let mut p: Vec<u64> = Vec::new();
            p.push(id);
            postings.push(p);
            proof {
                assert(terms@.map_values(|s: String| s@) =~= st.0.push(t@));
                assert(postings@.map_values(|p: Vec<u64>| p@) =~= st.1.push(seq![id]));
            }
        },
        Some(i) => {
            let n = postings[i].len();
            if n > 0 && postings[i][n - 1] == id {
            } else {
                postings[i].push(id);
                proof {
                    assert(postings@.map_values(|p: Vec<u64>| p@) =~= st.1.update(
                        i as int,
                        st.1[i as int].push(id),
                    ));
                }
            }
        },
    }
}

/// The IDF ratio of each posting list, for `n` documents.
pub fn compute_idf(terms_to_docs: &Vec<Vec<u64>>, n: usize) -> (r: Vec<IdfRatio>)
    requires
        forall|i: int| 0 <= i < terms_to_docs@.len() ==> #[trigger] terms_to_docs@[i]@.len() <= n,
    ensures
        r@.len() == terms_to_docs@.len(),
        forall|i: int|
            0 <= i < r@.len() ==> {
                &&& #[trigger] r@[i].numerator == idf_numerator(n as nat, terms_to_docs@[i]@.len())
                &&& r@[i].denominator == idf_denominator(terms_to_docs@[i]@.len())
            },
{
    let mut out: Vec<IdfRatio> = Vec::new();
    let mut i: usize = 0;
    while i < terms_to_docs.len()
        invariant
            i <= terms_to_docs@.len(),
            out@.len() == i,
            forall|i: int| 0 <= i < terms_to_docs@.len() ==> #[trigger] terms_to_docs@[i]@.len() <= n,
            forall|k: int|
                0 <= k < i ==> {
                    &&& #[trigger] out@[k].numerator == idf_numerator(n as nat, terms_to_docs@[k]@.len())
                    &&& out@[k].denominator == idf_denominator(terms_to_docs@[k]@.len())
                },
        decreases terms_to_docs@.len() - i,
    {
        let df = terms_to_docs[i].len();
        assert(df <= n);
        let numerator: u128 = 2 * ((n - df) as u128) + 1;
        let denominator: u128 = 2 * (df as u128) + 1;
        out.push(IdfRatio { numerator, denominator });
        i = i + 1;
    }
    out
}

/// How many of `len` records a build with `limit` ingests.
pub open spec fn taken(len: nat, limit: Option<usize>) -> nat {
    match limit {
        Some(l) => if l < len {
            l as nat
        } else {
            len
        },
        None => len,
    }
}

/// The path lists of `records`.
pub open spec fn documents_of(records: Seq<FileData>) -> Seq<Seq<Seq<char>>> {
    records.map_values(|r: FileData| r.files_view())
}

/// The names of `records`.
pub open spec fn names_of(records: Seq<FileData>) -> Seq<Seq<char>> {
    records.map_values(|r: FileData| r.name@)
}

/// Builds the index of the first `limit` records (all of them without a
/// limit): document `k` gets id `k`, every term of every path gets the id in
/// its postings as `add_documents` states, and the IDF table is computed
/// once at the end.
#[verifier::rlimit(50)]
pub fn build(records: &Vec<FileData>, limit: Option<usize>) -> (r: IndexedData)
    ensures
        r.wf(),
        terms_distinct(r.terms_view()),
        r.num_docs == taken(records@.len(), limit),
        r.state() == add_documents(documents_of(records@.take(r.num_docs as int))),
        r.mapped_doc_ids.names_view() == names_of(records@.take(r.num_docs as int)),
{
    let n: usize = match limit {
        Some(l) => if l < records.len() {
            l
        } else {
            records.len()
        },
        None => records.len(),
    };
    let mut terms: Vec<String> = Vec::new();
    let mut postings: Vec<Vec<u64>> = Vec::new();
    let mut names: Vec<String> = Vec::new();
    proof {
        assert(documents_of(records@.take(0)) =~= Seq::<Seq<Seq<char>>>::empty());
        assert(names@.map_values(|s: String| s@) =~= names_of(records@.take(0)));
        assert(terms@.map_values(|s: String| s@) =~= Seq::<Seq<char>>::empty());
        assert(postings@.map_values(|p: Vec<u64>| p@) =~= Seq::<Seq<u64>>::empty());
    }
    let mut k: usize = 0;
    while k < n
        invariant
            n == taken(records@.len(), limit),
            n <= records@.len(),
            k <= n,
            terms@.len() == postings@.len(),
            (terms@.map_values(|s: String| s@), postings@.map_values(|p: Vec<u64>| p@))
                == add_documents(documents_of(records@.take(k as int))),
            postings_wf(
                (terms@.map_values(|s: String| s@), postings@.map_values(|p: Vec<u64>| p@)),
                k as nat,
            ),
            terms_distinct(terms@.map_values(|s: String| s@)),
            names@.map_values(|s: String| s@) == names_of(records@.take(k as int)),
        decreases n - k,
    {
        let rec = &records[k];
        let id = k as u64;
        let ghost base = add_documents(documents_of(records@.take(k as int)));
        let ghost files = rec.files_view();
        proof {
            assert(documents_of(records@.take(k + 1)).drop_last() =~= documents_of(
                records@.take(k as int),
            ));
            assert(files.take(0) =~= Seq::<Seq<char>>::empty());
        }
        let mut j: usize = 0;
        while j < rec.files.len()
            invariant
                rec == &records@[k as int],
                files == rec.files_view(),
                names@.map_values(|s: String| s@) == names_of(records@.take(k as int)),
                id == k,
                k < n <= records@.len(),
                j <= rec.files@.len(),
                terms@.len() == postings@.len(),
                (terms@.map_values(|s: String| s@), postings@.map_values(|p: Vec<u64>| p@))
                    == add_files(base, files.take(j as int), id),
                postings_wf(
                    (terms@.map_values(|s: String| s@), postings@.map_values(|p: Vec<u64>| p@)),
                    (id + 1) as nat,
                ),
                terms_distinct(terms@.map_values(|s: String| s@)),
            decreases rec.files@.len() - j,
        {
            let toks = split_path(rec.files[j].as_str());
            let ghost tv = toks@.map_values(|t: String| t@);
            let ghost start = add_files(base, files.take(j as int), id);
            proof {
                assert(files.take(j + 1).drop_last() =~= files.take(j as int));
                assert(tv.take(0) =~= Seq::<Seq<char>>::empty());
            }
            let mut s: usize = 0;
            while s < toks.len()
                invariant
                    tv == toks@.map_values(|t: String| t@),
                    s <= toks@.len(),
                    names@.map_values(|s: String| s@) == names_of(records@.take(k as int)),
                    terms@.len() == postings@.len(),
                    (terms@.map_values(|s: String| s@), postings@.map_values(|p: Vec<u64>| p@))
                        == add_terms(start, tv.take(s as int), id),
                    postings_wf(
                        (
                            terms@.map_values(|s: String| s@),
                            postings@.map_values(|p: Vec<u64>| p@),
                        ),
                        (id + 1) as nat,
                    ),
                    terms_distinct(terms@.map_values(|s: String| s@)),
                decreases toks@.len() - s,
            {
                let ghost before = (
                    terms@.map_values(|s: String| s@),
                    postings@.map_values(|p: Vec<u64>| p@),
                );
                insert_term(&mut terms, &mut postings, &toks[s], id);
                proof {
                    lemma_add_term_wf(before, toks@[s as int]@, id);
                    assert(tv.take(s + 1).drop_last() =~= tv.take(s as int));
                }
                s = s + 1;
            }
            proof {
                assert(tv.take(toks@.len() as int) =~= tv);
            }
            j = j + 1;
        }
        proof {
            assert(files.take(rec.files@.len() as int) =~= files);
        }
        let ghost old_names = names@;
        names.push(rec.name.clone());
        proof {
            assert(names@ == old_names.push(records@[k as int].name));
            assert(names_of(records@.take(k + 1)) =~= names_of(records@.take(k as int)).push(
                records@[k as int].name@,
            ));
            assert(names@.map_values(|s: String| s@) =~= names_of(records@.take(k + 1)));
        }
        k = k + 1;
    }
    proof {
        let st = (terms@.map_values(|s: String| s@), postings@.map_values(|p: Vec<u64>| p@));
        assert forall|i: int| 0 <= i < postings@.len() implies #[trigger] postings@[i]@.len() <= n by {
            assert(st.1[i] == postings@[i]@);
            lemma_increasing_len(st.1[i], n as nat);
        }
    }
    let idf = compute_idf(&postings, n);
    IndexedData {
        terms,
        terms_to_docs: postings,
        idf,
        num_docs: n,
        mapped_doc_ids: MappedDocumentIds { count: n as u64, data: names },
    }
}

/// A term has an IDF weight exactly when it has postings, and each weight
/// is the logarithm of a ratio of two positive integers, so it is finite.
pub proof fn lemma_idf_finite(ix: IndexedData, t: Seq<char>)
    requires
        ix.wf(),
    ensures
        ix.idf@.len() == ix.terms@.len(),
        index_of(ix.terms_view(), t) >= 0 ==> {
            let i = index_of(ix.terms_view(), t);
            &&& ix.postings_of(t).len() > 0
            &&& ix.idf@[i].numerator >= 1
            &&& ix.idf@[i].denominator >= 1
        },
        index_of(ix.terms_view(), t) < 0 ==> ix.postings_of(t).len() == 0,
{
    lemma_index_of(ix.terms_view(), t);
    let i = index_of(ix.terms_view(), t);
    if i >= 0 {
        let p = ix.postings_view()[i];
        assert(p == ix.terms_to_docs@[i]@);
        lemma_increasing_len(p, ix.num_docs as nat);
        assert(ix.idf@[i].numerator == idf_numerator(ix.num_docs as nat, p.len()));
    }
}

impl IndexedData {
    /// The IDF weight of `term`, if it is indexed.
    pub fn idf_of(&self, term: &String) -> (r: Option<IdfRatio>)
        requires
            self.wf(),
        ensures
            r is Some <==> index_of(self.terms_view(), term@) >= 0,
            r matches Some(w) ==> {
                &&& w.numerator == idf_numerator(
                    self.num_docs as nat,
                    self.postings_of(term@).len(),
                )
                &&& w.denominator == idf_denominator(self.postings_of(term@).len())
                &&& w.numerator >= 1
                &&& w.denominator >= 1
            },
    {
        proof {
            lemma_idf_finite(*self, term@);
            lemma_index_of(self.terms_view(), term@);
        }
        match find_term(&self.terms, term) {
            None => None,
            Some(i) => {
                proof {
                    assert(self.postings_of(term@) == self.terms_to_docs@[i as int]@);
                }
                Some(self.idf[i])
            },
        }
    }
}

} // verus!

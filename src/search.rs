//! Ranked lookup of query terms in a built index.
use vstd::prelude::*;
use crate::index::{find_term, index_of, lemma_index_of, IndexedData};

verus! {

/// A document that matched a query: its name and how many postings of the
/// query's terms name it. Its score is `hits` over the number of query terms.
pub struct SearchMatch {
    pub md5: String,
    pub hits: u64,
}

/// The terms of a query, as character sequences.
pub open spec fn query_of(terms: Seq<String>) -> Seq<Seq<char>> {
    terms.map_values(|t: String| t@)
}

/// Occurrences of `d` in `s`.
pub open spec fn occurrences(s: Seq<u64>, d: u64) -> nat
    decreases s.len(),
{
    if s.len() == 0 {
        0
    } else {
        occurrences(s.drop_last(), d) + if s.last() == d {
            1nat
        } else {
            0nat
        }
    }
}

/// The hits of document `d` for the query `q`: for each query term, the
/// occurrences of `d` in its postings (none for a term that is not indexed).
pub open spec fn hits(ix: IndexedData, q: Seq<Seq<char>>, d: u64) -> nat
    decreases q.len(),
{
    if q.len() == 0 {
        0
    } else {
        hits(ix, q.drop_last(), d) + occurrences(ix.postings_of(q.last()), d)
    }
}

/// The ids below `m` with exactly `c` hits, ascending.
pub open spec fn docs_with_hits(ix: IndexedData, q: Seq<Seq<char>>, c: nat, m: nat) -> Seq<u64>
    decreases m,
{
    if m == 0 {
        Seq::empty()
    } else {
        let rest = docs_with_hits(ix, q, c, (m - 1) as nat);
        if hits(ix, q, (m - 1) as u64) == c {
            rest.push((m - 1) as u64)
        } else {
            rest
        }
    }
}

/// The documents with between 1 and `level` hits: by hits descending, and
/// by id ascending among equal hits.
pub open spec fn ranked_from(ix: IndexedData, q: Seq<Seq<char>>, level: nat) -> Seq<u64>
    decreases level,
{
    if level == 0 {
        Seq::empty()
    } else {
        docs_with_hits(ix, q, level, ix.num_docs as nat) + ranked_from(ix, q, (level - 1) as nat)
    }
}

/// The ranking of a query: every document that it hits, by hits
/// descending, ties by ascending id.
pub open spec fn ranking(ix: IndexedData, q: Seq<Seq<char>>) -> Seq<u64> {
    ranked_from(ix, q, q.len())
}

/// No occurrence of a value that the sequence does not hold.
pub proof fn lemma_occurrences_absent(s: Seq<u64>, d: u64)
    requires
        forall|k: int| 0 <= k < s.len() ==> s[k] != d,
    ensures
        occurrences(s, d) == 0,
    decreases s.len(),
{
    if s.len() > 0 {
        lemma_occurrences_absent(s.drop_last(), d);
    }
}

/// A strictly increasing sequence holds each value at most once.
pub proof fn lemma_occurrences_increasing(s: Seq<u64>, d: u64)
    requires
        forall|a: int, b: int| 0 <= a < b < s.len() ==> s[a] < s[b],
    ensures
        occurrences(s, d) <= 1,
    decreases s.len(),
{
    if s.len() > 0 {
        let p = s.drop_last();
        if s.last() == d {
            assert forall|k: int| 0 <= k < p.len() implies p[k] != d by {
                assert(s[k] < s[s.len() - 1]);
            }
            lemma_occurrences_absent(p, d);
        } else {
            lemma_occurrences_increasing(p, d);
        }
    }
}

/// Postings of a well-formed index are strictly increasing.
pub proof fn lemma_postings_of_increasing(ix: IndexedData, t: Seq<char>)
    requires
        ix.wf(),
    ensures
        forall|a: int, b: int|
            0 <= a < b < ix.postings_of(t).len() ==> ix.postings_of(t)[a] < ix.postings_of(t)[b],
        forall|a: int| 0 <= a < ix.postings_of(t).len() ==> ix.postings_of(t)[a] < ix.num_docs,
{
    lemma_index_of(ix.terms_view(), t);
}

/// A document has at most one hit per query term.
pub proof fn lemma_hits_bound(ix: IndexedData, q: Seq<Seq<char>>, d: u64)
    requires
        ix.wf(),
    ensures
        hits(ix, q, d) <= q.len(),
    decreases q.len(),
{
    if q.len() > 0 {
        lemma_hits_bound(ix, q.drop_last(), d);
        lemma_postings_of_increasing(ix, q.last());
        lemma_occurrences_increasing(ix.postings_of(q.last()), d);
    }
}

/// `m` reports document `d` of `ix` for the query `q`: its name, and its hits.
pub open spec fn reports(ix: IndexedData, q: Seq<Seq<char>>, m: SearchMatch, d: u64) -> bool {
    &&& d < ix.num_docs
    &&& m.md5@ == ix.mapped_doc_ids.data@[d as int]@
    &&& m.hits == hits(ix, q, d)
}

/// The hits of every document of `ix` for the query `terms`, by id.
fn count_hits(ix: &IndexedData, terms: &Vec<String>) -> (counts: Vec<usize>)
    requires
        ix.wf(),
    ensures
        counts@.len() == ix.num_docs,
        forall|d: int|
            0 <= d < ix.num_docs ==> #[trigger] counts@[d] == hits(
                *ix,
                query_of(terms@),
                d as u64,
            ),
{
    let ghost q = query_of(terms@);
    let n = ix.num_docs;
    let mut counts: Vec<usize> = vec![0; n];
    let mut i: usize = 0;
    while i < terms.len()
        invariant
            ix.wf(),
            n == ix.num_docs,
            q == query_of(terms@),
            i <= terms@.len(),
            counts@.len() == n,
            forall|d: int| 0 <= d < n ==> #[trigger] counts@[d] == hits(*ix, q.take(i as int), d as u64),
        decreases terms@.len() - i,
    {
        proof {
            assert(q.take(i + 1).drop_last() =~= q.take(i as int));
            assert(q.take(i + 1).last() == terms@[i as int]@);
            lemma_index_of(ix.terms_view(), terms@[i as int]@);
        }
        match find_term(&ix.terms, &terms[i]) {
            None => {
                proof {
                    assert forall|d: int| 0 <= d < n implies #[trigger] counts@[d] == hits(
                        *ix,
                        q.take(i + 1),
                        d as u64,
                    ) by {
                        assert(ix.postings_of(terms@[i as int]@) =~= Seq::<u64>::empty());
                    }
                }
            },
            Some(t) => {
                let docs = &ix.terms_to_docs[t];
                let ghost p = docs@;
                proof {
                    assert(ix.postings_of(terms@[i as int]@) == p);
                    lemma_postings_of_increasing(*ix, terms@[i as int]@);
                }
                let mut j: usize = 0;
                while j < docs.len()
                    invariant
                        ix.wf(),
                        n == ix.num_docs,
                        q == query_of(terms@),
                        i < terms@.len() <= usize::MAX,
                        p == docs@,
                        p == ix.postings_of(terms@[i as int]@),
                        forall|a: int, b: int| 0 <= a < b < p.len() ==> p[a] < p[b],
                        forall|a: int| 0 <= a < p.len() ==> p[a] < n,
                        j <= p.len(),
                        counts@.len() == n,
                        forall|d: int|
                            0 <= d < n ==> #[trigger] counts@[d] == hits(
                                *ix,
                                q.take(i as int),
                                d as u64,
                            ) + occurrences(p.take(j as int), d as u64),
                    decreases p.len() - j,
                {
                    let d = docs[j] as usize;
                    proof {
                        assert(p.take(j + 1).drop_last() =~= p.take(j as int));
                        assert forall|k: int| 0 <= k < j implies p.take(j as int)[k] != p[j as int] by {
                            assert(p[k] < p[j as int]);
                        }
                        lemma_occurrences_absent(p.take(j as int), p[j as int]);
                        lemma_hits_bound(*ix, q.take(i as int), p[j as int]);
                        assert(d as u64 == p[j as int]);
                        assert(counts@[d as int] == hits(*ix, q.take(i as int), d as u64));
                        assert(q.take(i as int).len() == i);
                        assert(counts@[d as int] < terms@.len());
                    }
                    counts[d] = counts[d] + 1;
                    j = j + 1;
                }
                proof {
                    assert(p.take(p.len() as int) =~= p);
                }
            },
        }
        i = i + 1;
    }
    proof {
        assert(q.take(terms@.len() as int) =~= q);
    }
    counts
}

/// The documents of `data` that the query `terms` hits, each with its name
/// and hits: by hits descending, ties by ascending document id. Terms that
/// are not indexed contribute nothing; an empty query matches nothing.
pub fn run_search(data: &IndexedData, terms: &Vec<String>) -> (r: Vec<SearchMatch>)
    requires
        data.wf(),
    ensures
        r@.len() == ranking(*data, query_of(terms@)).len(),
        forall|k: int|
            0 <= k < r@.len() ==> #[trigger] reports(
                *data,
                query_of(terms@),
                r@[k],
                ranking(*data, query_of(terms@))[k],
            ),
{
    let ghost q = query_of(terms@);
    let counts = count_hits(data, terms);
    let n = data.num_docs;
    let mut out: Vec<SearchMatch> = Vec::new();
    let ghost mut ids: Seq<u64> = Seq::empty();
    let mut level: usize = terms.len();
    proof {
        assert(ids + ranked_from(*data, q, level as nat) =~= ranking(*data, q));
    }
    while level > 0
        invariant
            data.wf(),
            n == data.num_docs,
            q == query_of(terms@),
            counts@.len() == n,
            forall|d: int| 0 <= d < n ==> #[trigger] counts@[d] == hits(*data, q, d as u64),
            ids + ranked_from(*data, q, level as nat) == ranking(*data, q),
            out@.len() == ids.len(),
            forall|k: int| 0 <= k < out@.len() ==> #[trigger] reports(*data, q, out@[k], ids[k]),
        decreases level,
    {
        let ghost start = ids;
        let mut d: usize = 0;
        while d < n
            invariant
                data.wf(),
                n == data.num_docs,
                0 < level,
                d <= n,
                counts@.len() == n,
                forall|d: int| 0 <= d < n ==> #[trigger] counts@[d] == hits(*data, q, d as u64),
                ids == start + docs_with_hits(*data, q, level as nat, d as nat),
                out@.len() == ids.len(),
                forall|k: int| 0 <= k < out@.len() ==> #[trigger] reports(*data, q, out@[k], ids[k]),
            decreases n - d,
        {
            if counts[d] == level {
                let name = data.mapped_doc_ids.data[d].clone();
                out.push(SearchMatch { md5: name, hits: counts[d] as u64 });
                proof {
                    ids = ids.push(d as u64);
                    assert(reports(*data, q, out@[out@.len() - 1], d as u64));
                    assert(start + docs_with_hits(*data, q, level as nat, (d + 1) as nat) =~= ids);
                }
            } else {
                proof {
                    assert(start + docs_with_hits(*data, q, level as nat, (d + 1) as nat) =~= ids);
                }
            }
            d = d + 1;
        }
        proof {
            assert(start + ranked_from(*data, q, level as nat) =~= ids + ranked_from(
                *data,
                q,
                (level - 1) as nat,
            ));
        }
        level = level - 1;
    }
    proof {
        assert(ids =~= ranking(*data, q));
    }
    out
}

/// `x` comes before `y` in a ranking: more hits, or as many and a lower id.
pub open spec fn ranks_before(ix: IndexedData, q: Seq<Seq<char>>, x: u64, y: u64) -> bool {
    hits(ix, q, x) > hits(ix, q, y) || (hits(ix, q, x) == hits(ix, q, y) && x < y)
}

/// The ids below `m` with `c` hits, ascending, are exactly those ids.
pub proof fn lemma_docs_with_hits(ix: IndexedData, q: Seq<Seq<char>>, c: nat, m: nat)
    requires
        m <= u64::MAX + 1,
    ensures
        forall|k: int|
            0 <= k < docs_with_hits(ix, q, c, m).len() ==> {
                let d = #[trigger] docs_with_hits(ix, q, c, m)[k];
                d < m && hits(ix, q, d) == c
            },
        forall|a: int, b: int|
            0 <= a < b < docs_with_hits(ix, q, c, m).len() ==> docs_with_hits(ix, q, c, m)[a]
                < docs_with_hits(ix, q, c, m)[b],
        forall|d: u64| d < m && hits(ix, q, d) == c ==> docs_with_hits(ix, q, c, m).contains(d),
    decreases m,
{
    if m > 0 {
        lemma_docs_with_hits(ix, q, c, (m - 1) as nat);
        let rest = docs_with_hits(ix, q, c, (m - 1) as nat);
        let all = docs_with_hits(ix, q, c, m);
        assert forall|d: u64| d < m && hits(ix, q, d) == c implies all.contains(d) by {
            if d < m - 1 {
                let k = choose|k: int| 0 <= k < rest.len() && rest[k] == d;
                assert(all[k] == d);
            } else {
                assert(all[all.len() - 1] == d);
            }
        }
    }
}

/// The ranking from `level` down: each document has between 1 and `level`
/// hits, hits never increase along it and ids increase among equal hits, and
/// it holds every document with between 1 and `level` hits.
pub proof fn lemma_ranked_from(ix: IndexedData, q: Seq<Seq<char>>, level: nat)
    requires
        ix.num_docs <= u64::MAX,
    ensures
        forall|k: int|
            0 <= k < ranked_from(ix, q, level).len() ==> {
                let d = #[trigger] ranked_from(ix, q, level)[k];
                d < ix.num_docs && 1 <= hits(ix, q, d) <= level
            },
        forall|a: int, b: int|
            #![trigger ranked_from(ix, q, level)[a], ranked_from(ix, q, level)[b]]
            0 <= a < b < ranked_from(ix, q, level).len() ==> ranks_before(
                ix,
                q,
                ranked_from(ix, q, level)[a],
                ranked_from(ix, q, level)[b],
            ),
        forall|d: u64|
            d < ix.num_docs && 1 <= hits(ix, q, d) <= level ==> ranked_from(ix, q, level).contains(
                d,
            ),
    decreases level,
{
    if level > 0 {
        let n = ix.num_docs as nat;
        lemma_ranked_from(ix, q, (level - 1) as nat);
        lemma_docs_with_hits(ix, q, level, n);
        let top = docs_with_hits(ix, q, level, n);
        let rest = ranked_from(ix, q, (level - 1) as nat);
        let all = ranked_from(ix, q, level);
        assert(all == top + rest);
        assert forall|k: int| 0 <= k < all.len() implies {
            let d = #[trigger] all[k];
            d < ix.num_docs && 1 <= hits(ix, q, d) <= level
        } by {
            if k >= top.len() {
                assert(all[k] == rest[k - top.len()]);
            }
        }
        assert forall|a: int, b: int| 0 <= a < b < all.len() implies #[trigger] ranks_before(
            ix,
            q,
            all[a],
            all[b],
        ) by {
            if a >= top.len() {
                assert(all[a] == rest[a - top.len()]);
                assert(all[b] == rest[b - top.len()]);
            } else if b >= top.len() {
                assert(all[b] == rest[b - top.len()]);
                assert(all[a] == top[a]);
            }
        }
        assert forall|d: u64| d < ix.num_docs && 1 <= hits(ix, q, d) <= level implies all.contains(
            d,
        ) by {
            if hits(ix, q, d) == level {
                let k = choose|k: int| 0 <= k < top.len() && top[k] == d;
                assert(all[k] == d);
            } else {
                assert(hits(ix, q, d) <= level - 1);
                assert(rest.contains(d));
                let k = choose|k: int| 0 <= k < rest.len() && rest[k] == d;
                assert(all[k + top.len()] == d);
            }
        }
    }
}

/// A ranking is ordered by hits descending, and by ascending id among
/// equal hits.
pub proof fn lemma_ranking_order(ix: IndexedData, q: Seq<Seq<char>>, a: int, b: int)
    requires
        ix.wf(),
        0 <= a < b < ranking(ix, q).len(),
    ensures
        ranks_before(ix, q, ranking(ix, q)[a], ranking(ix, q)[b]),
{
    lemma_ranked_from(ix, q, q.len());
}

/// A document is in the ranking of a query exactly when the query hits it.
pub proof fn lemma_ranking_members(ix: IndexedData, q: Seq<Seq<char>>, d: u64)
    requires
        ix.wf(),
    ensures
        ranking(ix, q).contains(d) <==> (d < ix.num_docs && hits(ix, q, d) > 0),
{
    lemma_ranked_from(ix, q, q.len());
    lemma_hits_bound(ix, q, d);
    if ranking(ix, q).contains(d) {
        let k = choose|k: int| 0 <= k < ranking(ix, q).len() && ranking(ix, q)[k] == d;
        assert(ranking(ix, q)[k] == d);
    }
}

/// An empty query hits no document and ranks nothing.
pub proof fn lemma_empty_query(ix: IndexedData, d: u64)
    ensures
        hits(ix, Seq::empty(), d) == 0,
        ranking(ix, Seq::empty()).len() == 0,
{
}

/// The terms of `q` that `ix` indexes, in order.
pub open spec fn known_terms(ix: IndexedData, q: Seq<Seq<char>>) -> Seq<Seq<char>>
    decreases q.len(),
{
    if q.len() == 0 {
        Seq::empty()
    } else {
        let r = known_terms(ix, q.drop_last());
        if index_of(ix.terms_view(), q.last()) >= 0 {
            r.push(q.last())
        } else {
            r
        }
    }
}

/// Terms that are not indexed contribute nothing: each document has the
/// hits of the query's indexed terms alone, the ranking holds exactly the
/// documents that those hit, and a query of unknown terms only ranks nothing.
pub proof fn lemma_unknown_terms(ix: IndexedData, q: Seq<Seq<char>>, d: u64)
    requires
        ix.wf(),
    ensures
        hits(ix, q, d) == hits(ix, known_terms(ix, q), d),
        ranking(ix, q).contains(d) <==> (d < ix.num_docs && hits(ix, known_terms(ix, q), d) > 0),
        known_terms(ix, q).len() == 0 ==> ranking(ix, q).len() == 0,
{
    lemma_known_hits(ix, q, d);
    lemma_ranking_members(ix, q, d);
    if known_terms(ix, q).len() == 0 && ranking(ix, q).len() > 0 {
        let e = ranking(ix, q)[0];
        lemma_known_hits(ix, q, e);
        lemma_ranking_members(ix, q, e);
        assert(ranking(ix, q).contains(e));
        assert(known_terms(ix, q) =~= Seq::<Seq<char>>::empty());
    }
}

/// Hits come from indexed terms alone.
proof fn lemma_known_hits(ix: IndexedData, q: Seq<Seq<char>>, d: u64)
    ensures
        hits(ix, q, d) == hits(ix, known_terms(ix, q), d),
    decreases q.len(),
{
    if q.len() > 0 {
        lemma_known_hits(ix, q.drop_last(), d);
        let k = known_terms(ix, q);
        if index_of(ix.terms_view(), q.last()) >= 0 {
            assert(k.drop_last() =~= known_terms(ix, q.drop_last()));
        } else {
            assert(ix.postings_of(q.last()) =~= Seq::<u64>::empty());
        }
    }
}

} // verus!

//! The snapshot format of an index, and its encoder and decoder.
//!
//! A snapshot is the document count, each document name, the term count,
//! then each term with its posting list. Counts and ids are 8-byte
//! little-endian integers; a string is its UTF-8 length, then its bytes.
use vstd::prelude::*;
use vstd::bytes::{
    lemma_auto_spec_u64_to_from_le_bytes, spec_u64_from_le_bytes, spec_u64_to_le_bytes,
    u64_from_le_bytes, u64_to_le_bytes,
};
use vstd::slice::{slice_subrange, slice_to_vec};
use vstd::utf8::{decode_utf8, encode_utf8, valid_utf8, encode_utf8_valid_utf8, encode_utf8_decode_utf8};
use crate::index::{
    compute_idf, lemma_increasing_len, postings_wf, BuildState, IndexedData, MappedDocumentIds,
};

verus! {

/// The encoding of each element of `s` by `f`, concatenated.
pub open spec fn enc_all<A>(s: Seq<A>, f: spec_fn(A) -> Seq<u8>) -> Seq<u8>
    decreases s.len(),
{
    if s.len() == 0 {
        Seq::empty()
    } else {
        f(s[0]) + enc_all(s.drop_first(), f)
    }
}

/// An integer as 8 little-endian bytes.
pub open spec fn enc_u64(v: u64) -> Seq<u8> {
    spec_u64_to_le_bytes(v)
}

/// A string as its UTF-8 length and bytes.
pub open spec fn enc_str(s: Seq<char>) -> Seq<u8> {
    enc_u64(encode_utf8(s).len() as u64) + encode_utf8(s)
}

/// `enc_u64` as a value.
pub open spec fn u64_encoder() -> spec_fn(u64) -> Seq<u8> {
    |v: u64| enc_u64(v)
}

/// `enc_str` as a value.
pub open spec fn str_encoder() -> spec_fn(Seq<char>) -> Seq<u8> {
    |s: Seq<char>| enc_str(s)
}

/// A term and its postings.
pub open spec fn enc_entry(e: (Seq<char>, Seq<u64>)) -> Seq<u8> {
    enc_str(e.0) + enc_u64(e.1.len() as u64) + enc_all(e.1, u64_encoder())
}

/// `enc_entry` as a value.
pub open spec fn entry_encoder() -> spec_fn((Seq<char>, Seq<u64>)) -> Seq<u8> {
    |e: (Seq<char>, Seq<u64>)| enc_entry(e)
}

/// What a snapshot holds: the document count, the names by id, the terms
/// and their postings.
pub type SnapshotView = (nat, Seq<Seq<char>>, BuildState);

/// The terms paired with their postings.
pub open spec fn entries(st: BuildState) -> Seq<(Seq<char>, Seq<u64>)> {
    Seq::new(st.0.len(), |i: int| (st.0[i], st.1[i]))
}

/// The bytes of a snapshot.
pub open spec fn encode_view(v: SnapshotView) -> Seq<u8> {
    enc_u64(v.0 as u64) + enc_all(v.1, str_encoder()) + enc_u64(v.2.0.len() as u64) + enc_all(
        entries(v.2),
        entry_encoder(),
    )
}

/// What a snapshot of `ix` holds.
pub open spec fn snapshot_view(ix: IndexedData) -> SnapshotView {
    (ix.num_docs as nat, ix.mapped_doc_ids.names_view(), ix.state())
}

/// Reads `n` elements with `p`, one after the other.
pub open spec fn parse_many<A>(
    n: nat,
    b: Seq<u8>,
    p: spec_fn(Seq<u8>) -> Option<(A, Seq<u8>)>,
) -> Option<(Seq<A>, Seq<u8>)>
    decreases n,
{
    if n == 0 {
        Some((Seq::empty(), b))
    } else {
        match p(b) {
            None => None,
            Some((a, r)) => match parse_many((n - 1) as nat, r, p) {
                None => None,
                Some((s, r2)) => Some((seq![a] + s, r2)),
            },
        }
    }
}

/// Reads an 8-byte little-endian integer.
pub open spec fn parse_u64(b: Seq<u8>) -> Option<(u64, Seq<u8>)> {
    if b.len() < 8 {
        None
    } else {
        Some((spec_u64_from_le_bytes(b.take(8)), b.skip(8)))
    }
}

/// Reads a length and that many bytes of UTF-8.
pub open spec fn parse_str(b: Seq<u8>) -> Option<(Seq<char>, Seq<u8>)> {
    match parse_u64(b) {
        None => None,
        Some((l, r)) => if r.len() < l || !valid_utf8(r.take(l as int)) {
            None
        } else {
            Some((decode_utf8(r.take(l as int)), r.skip(l as int)))
        },
    }
}

/// `parse_u64` as a value.
pub open spec fn u64_parser() -> spec_fn(Seq<u8>) -> Option<(u64, Seq<u8>)> {
    |b: Seq<u8>| parse_u64(b)
}

/// `parse_str` as a value.
pub open spec fn str_parser() -> spec_fn(Seq<u8>) -> Option<(Seq<char>, Seq<u8>)> {
    |b: Seq<u8>| parse_str(b)
}

/// Reads a term, the length of its postings, and the postings.
pub open spec fn parse_entry(b: Seq<u8>) -> Option<((Seq<char>, Seq<u64>), Seq<u8>)> {
    match parse_str(b) {
        None => None,
        Some((t, r)) => match parse_u64(r) {
            None => None,
            Some((c, r2)) => match parse_many(c as nat, r2, u64_parser()) {
                None => None,
                Some((p, r3)) => Some(((t, p), r3)),
            },
        },
    }
}

/// `parse_entry` as a value.
pub open spec fn entry_parser() -> spec_fn(Seq<u8>) -> Option<((Seq<char>, Seq<u64>), Seq<u8>)> {
    |b: Seq<u8>| parse_entry(b)
}

/// Splits pairs into the sequence of firsts and the sequence of seconds.
pub open spec fn unzip(e: Seq<(Seq<char>, Seq<u64>)>) -> BuildState {
    (e.map_values(|x: (Seq<char>, Seq<u64>)| x.0), e.map_values(|x: (Seq<char>, Seq<u64>)| x.1))
}

/// Reads the parts of a snapshot, if the bytes hold them.
pub open spec fn parse_snapshot(b: Seq<u8>) -> Option<(SnapshotView, Seq<u8>)> {
    match parse_u64(b) {
        None => None,
        Some((n, r1)) => match parse_many(n as nat, r1, str_parser()) {
            None => None,
            Some((names, r2)) => match parse_u64(r2) {
                None => None,
                Some((t, r3)) => match parse_many(t as nat, r3, entry_parser()) {
                    None => None,
                    Some((es, r4)) => Some(((n as nat, names, unzip(es)), r4)),
                },
            },
        },
    }
}

/// A snapshot describes an index: a name for each document, and posting
/// lists that are non-empty, strictly increasing and below the count.
pub open spec fn snapshot_valid(v: SnapshotView) -> bool {
    &&& v.1.len() == v.0
    &&& postings_wf(v.2, v.0)
}

/// What `decode` makes of `b`: the snapshot it holds, with nothing after it,
/// when that describes an index.
pub open spec fn decode_view(b: Seq<u8>) -> Option<SnapshotView> {
    match parse_snapshot(b) {
        Some((v, rest)) => if rest.len() == 0 && snapshot_valid(v) {
            Some(v)
        } else {
            None
        },
        None => None,
    }
}

/// Reading back an integer that was written.
pub proof fn lemma_parse_u64(v: u64, rest: Seq<u8>)
    ensures
        enc_u64(v).len() == 8,
        parse_u64(enc_u64(v) + rest) == Some((v, rest)),
{
    lemma_auto_spec_u64_to_from_le_bytes();
    let b = enc_u64(v) + rest;
    assert(b.take(8) =~= enc_u64(v));
    assert(b.skip(8) =~= rest);
}

/// Reading back a string that was written.
pub proof fn lemma_parse_str(s: Seq<char>, rest: Seq<u8>)
    requires
        encode_utf8(s).len() <= u64::MAX,
    ensures
        parse_str(enc_str(s) + rest) == Some((s, rest)),
{
    let e = encode_utf8(s);
    lemma_parse_u64(e.len() as u64, e + rest);
    assert(enc_str(s) + rest =~= enc_u64(e.len() as u64) + (e + rest));
    assert((e + rest).take(e.len() as int) =~= e);
    assert((e + rest).skip(e.len() as int) =~= rest);
    encode_utf8_valid_utf8(s);
    encode_utf8_decode_utf8(s);
}

/// Reading back `s.len()` elements written one after the other.
pub proof fn lemma_parse_many<A>(
    s: Seq<A>,
    rest: Seq<u8>,
    f: spec_fn(A) -> Seq<u8>,
    p: spec_fn(Seq<u8>) -> Option<(A, Seq<u8>)>,
)
    requires
        forall|i: int, r: Seq<u8>| 0 <= i < s.len() ==> #[trigger] p(f(s[i]) + r) == Some((s[i], r)),
    ensures
        parse_many(s.len(), enc_all(s, f) + rest, p) == Some((s, rest)),
    decreases s.len(),
{
    if s.len() > 0 {
        let t = s.drop_first();
        assert forall|i: int, r: Seq<u8>| 0 <= i < t.len() implies #[trigger] p(f(t[i]) + r) == Some(
            (t[i], r),
        ) by {
            assert(t[i] == s[i + 1]);
            assert(p(f(s[i + 1]) + r) == Some((s[i + 1], r)));
        }
        lemma_parse_many(t, rest, f, p);
        let tail = enc_all(t, f) + rest;
        assert(enc_all(s, f) + rest =~= f(s[0]) + tail);
        assert(p(f(s[0]) + tail) == Some((s[0], tail)));
        assert(seq![s[0]] + t =~= s);
    }
}

/// Reading back a term and its postings that were written.
pub proof fn lemma_parse_entry(e: (Seq<char>, Seq<u64>), rest: Seq<u8>)
    requires
        encode_utf8(e.0).len() <= u64::MAX,
        e.1.len() <= u64::MAX,
    ensures
        parse_entry(enc_entry(e) + rest) == Some((e, rest)),
{
    let ids = enc_all(e.1, u64_encoder()) + rest;
    let after = enc_u64(e.1.len() as u64) + ids;
    assert(enc_entry(e) + rest =~= enc_str(e.0) + after);
    lemma_parse_str(e.0, after);
    lemma_parse_u64(e.1.len() as u64, ids);
    assert forall|i: int, r: Seq<u8>| 0 <= i < e.1.len() implies #[trigger] u64_parser()(
        u64_encoder()(e.1[i]) + r,
    ) == Some((e.1[i], r)) by {
        lemma_parse_u64(e.1[i], r);
    }
    lemma_parse_many(e.1, rest, u64_encoder(), u64_parser());
}

/// Every count and string length of a snapshot fits in eight bytes.
pub open spec fn snapshot_fits(v: SnapshotView) -> bool {
    &&& v.0 <= u64::MAX
    &&& v.2.0.len() <= u64::MAX
    &&& forall|i: int| 0 <= i < v.1.len() ==> #[trigger] encode_utf8(v.1[i]).len() <= u64::MAX
    &&& forall|i: int| 0 <= i < v.2.0.len() ==> #[trigger] encode_utf8(v.2.0[i]).len() <= u64::MAX
    &&& forall|i: int| 0 <= i < v.2.1.len() ==> #[trigger] v.2.1[i].len() <= u64::MAX
}

/// Decoding the encoding of a valid snapshot gives it back.
pub proof fn lemma_decode_encode_view(v: SnapshotView)
    requires
        snapshot_valid(v),
        snapshot_fits(v),
    ensures
        decode_view(encode_view(v)) == Some(v),
{
    let es = entries(v.2);
    let tail = enc_all(es, entry_encoder());
    let after_names = enc_u64(v.2.0.len() as u64) + tail;
    let after_count = enc_all(v.1, str_encoder()) + after_names;
    assert(encode_view(v) =~= enc_u64(v.0 as u64) + after_count);
    lemma_parse_u64(v.0 as u64, after_count);
    assert forall|i: int, r: Seq<u8>| 0 <= i < v.1.len() implies #[trigger] str_parser()(
        str_encoder()(v.1[i]) + r,
    ) == Some((v.1[i], r)) by {
        lemma_parse_str(v.1[i], r);
    }
    lemma_parse_many(v.1, after_names, str_encoder(), str_parser());
    lemma_parse_u64(v.2.0.len() as u64, tail);
    assert forall|i: int, r: Seq<u8>| 0 <= i < es.len() implies #[trigger] entry_parser()(
        entry_encoder()(es[i]) + r,
    ) == Some((es[i], r)) by {
        lemma_parse_entry(es[i], r);
    }
    lemma_parse_many(es, Seq::empty(), entry_encoder(), entry_parser());
    assert(tail + Seq::<u8>::empty() =~= tail);
    assert(unzip(es).0 =~= v.2.0);
    assert(unzip(es).1 =~= v.2.1);
}

/// A snapshot restores an index field for field: decoding the encoding of a
/// well-formed index gives back its document count, names, terms and
/// postings, and any well-formed index with those has its IDF table and
/// id counter too.
pub proof fn lemma_snapshot_round_trip(ix: IndexedData, restored: IndexedData)
    requires
        ix.wf(),
        snapshot_fits(snapshot_view(ix)),
        restored.wf(),
        snapshot_view(restored) == snapshot_view(ix),
    ensures
        decode_view(encode_view(snapshot_view(ix))) == Some(snapshot_view(ix)),
        restored.num_docs == ix.num_docs,
        restored.mapped_doc_ids.count == ix.mapped_doc_ids.count,
        restored.mapped_doc_ids.names_view() == ix.mapped_doc_ids.names_view(),
        restored.terms_view() == ix.terms_view(),
        restored.postings_view() == ix.postings_view(),
        restored.idf@ == ix.idf@,
{
    lemma_decode_encode_view(snapshot_view(ix));
    assert(restored.postings_view().len() == ix.postings_view().len());
    assert forall|i: int| 0 <= i < ix.idf@.len() implies restored.idf@[i] == ix.idf@[i] by {
        assert(restored.postings_view()[i] == ix.postings_view()[i]);
        assert(restored.terms_to_docs@[i]@ == ix.terms_to_docs@[i]@);
        assert(restored.idf@[i].numerator == ix.idf@[i].numerator);
        assert(restored.idf@[i].denominator == ix.idf@[i].denominator);
    }
    assert(restored.idf@ =~= ix.idf@);
}

/// Appending one more element to what is encoded.
pub proof fn lemma_enc_all_push<A>(s: Seq<A>, a: A, f: spec_fn(A) -> Seq<u8>)
    ensures
        enc_all(s.push(a), f) == enc_all(s, f) + f(a),
    decreases s.len(),
{
    if s.len() == 0 {
        assert(s.push(a).drop_first() =~= Seq::<A>::empty());
        assert(enc_all(s.push(a).drop_first(), f) == Seq::<u8>::empty());
        assert(s.push(a)[0] == a);
        assert(f(a) + Seq::<u8>::empty() =~= f(a));
        assert(Seq::<u8>::empty() + f(a) =~= f(a));
    } else {
        lemma_enc_all_push(s.drop_first(), a, f);
        assert(s.push(a).drop_first() =~= s.drop_first().push(a));
        assert(enc_all(s.push(a), f) =~= enc_all(s, f) + f(a));
    }
}

/// Appends `v` as 8 little-endian bytes.
fn put_u64(out: &mut Vec<u8>, v: u64)
    ensures
        final(out)@ == old(out)@ + enc_u64(v),
{
    let mut b = u64_to_le_bytes(v);
    out.append(&mut b);
}

/// Appends the UTF-8 length and bytes of `s`.
fn put_str(out: &mut Vec<u8>, s: &String)
    ensures
        final(out)@ == old(out)@ + enc_str(s@),
{
    let bytes = s.as_str().as_bytes();
    put_u64(out, bytes.len() as u64);
    let mut v = slice_to_vec(bytes);
    out.append(&mut v);
    proof {
        assert(final(out)@ =~= old(out)@ + enc_str(s@));
    }
}

/// Writes a snapshot of `ix`.
pub fn encode(ix: &IndexedData) -> (r: Vec<u8>)
    requires
        ix.wf(),
    ensures
        r@ == encode_view(snapshot_view(*ix)),
{
    let ghost v = snapshot_view(*ix);
    let mut out: Vec<u8> = Vec::new();
    put_u64(&mut out, ix.num_docs as u64);
    let ghost head = out@;
    let names = &ix.mapped_doc_ids.data;
    let mut i: usize = 0;
    proof {
        assert(v.1.take(0) =~= Seq::<Seq<char>>::empty());
        assert(out@ =~= head + enc_all(v.1.take(0), str_encoder()));
    }
    while i < names.len()
        invariant
            v == snapshot_view(*ix),
            names == &ix.mapped_doc_ids.data,
            i <= names@.len(),
            out@ == head + enc_all(v.1.take(i as int), str_encoder()),
        decreases names@.len() - i,
    {
        put_str(&mut out, &names[i]);
        proof {
            lemma_enc_all_push(v.1.take(i as int), v.1[i as int], str_encoder());
            assert(v.1.take(i + 1) =~= v.1.take(i as int).push(v.1[i as int]));
        }
        i = i + 1;
    }
    proof {
        assert(v.1.take(names@.len() as int) =~= v.1);
    }
    put_u64(&mut out, ix.terms.len() as u64);
    let ghost mid = out@;
    let ghost es = entries(v.2);
    let mut t: usize = 0;
    proof {
        assert(es.take(0) =~= Seq::<(Seq<char>, Seq<u64>)>::empty());
        assert(out@ =~= mid + enc_all(es.take(0), entry_encoder()));
    }
    while t < ix.terms.len()
        invariant
            ix.wf(),
            v == snapshot_view(*ix),
            es == entries(v.2),
            t <= ix.terms@.len(),
            out@ == mid + enc_all(es.take(t as int), entry_encoder()),
        decreases ix.terms@.len() - t,
    {
        let ghost before = out@;
        put_str(&mut out, &ix.terms[t]);
        let docs = &ix.terms_to_docs[t];
        put_u64(&mut out, docs.len() as u64);
        let ghost ids_start = out@;
        let mut j: usize = 0;
        proof {
            assert(docs@.take(0) =~= Seq::<u64>::empty());
            assert(out@ =~= ids_start + enc_all(docs@.take(0), u64_encoder()));
        }
        while j < docs.len()
            invariant
                j <= docs@.len(),
                out@ == ids_start + enc_all(docs@.take(j as int), u64_encoder()),
            decreases docs@.len() - j,
        {
            put_u64(&mut out, docs[j]);
            proof {
                lemma_enc_all_push(docs@.take(j as int), docs@[j as int], u64_encoder());
                assert(docs@.take(j + 1) =~= docs@.take(j as int).push(docs@[j as int]));
            }
            j = j + 1;
        }
        proof {
            assert(docs@.take(docs@.len() as int) =~= docs@);
            assert(es[t as int] == (ix.terms@[t as int]@, docs@));
            assert(out@ =~= before + enc_entry(es[t as int]));
            lemma_enc_all_push(es.take(t as int), es[t as int], entry_encoder());
            assert(es.take(t + 1) =~= es.take(t as int).push(es[t as int]));
        }
        t = t + 1;
    }
    proof {
        assert(es.take(ix.terms@.len() as int) =~= es);
        assert(out@ =~= encode_view(v));
    }
    out
}

/// Why a snapshot could not be read.
#[derive(Debug, Clone, Copy, PartialEq, Eq, Structural)]
pub enum SnapshotError {
    /// The bytes are not the snapshot of an index.
    Corrupt,
}

/// Relies on `String::from_utf8`: it accepts the bytes exactly when they
/// are valid UTF-8, and the string then holds the characters they encode.
#[verifier::external_body]
fn string_from_utf8(bytes: Vec<u8>) -> (r: Option<String>)
    ensures
        r is Some <==> valid_utf8(bytes@),
        r matches Some(s) ==> s@ == decode_utf8(bytes@),
{
    String::from_utf8(bytes).ok()
}

/// `acc` before what `o` read.
pub open spec fn prepend<A>(acc: Seq<A>, o: Option<(Seq<A>, Seq<u8>)>) -> Option<(Seq<A>, Seq<u8>)> {
    match o {
        None => None,
        Some((s, r)) => Some((acc + s, r)),
    }
}

/// Reading one more element moves it from what is left to what was read.
proof fn lemma_parse_many_step<A>(
    acc: Seq<A>,
    n: nat,
    b: Seq<u8>,
    p: spec_fn(Seq<u8>) -> Option<(A, Seq<u8>)>,
)
    requires
        n > 0,
        p(b) is Some,
    ensures
        prepend(acc, parse_many(n, b, p)) == prepend(
            acc.push((p(b)->0).0),
            parse_many((n - 1) as nat, (p(b)->0).1, p),
        ),
{
    let a = (p(b)->0).0;
    match parse_many((n - 1) as nat, (p(b)->0).1, p) {
        None => {},
        Some((s, r)) => {
            assert(acc + (seq![a] + s) =~= acc.push(a) + s);
        },
    }
}

/// Reads an integer at `pos`, and where it ends.
fn read_u64(b: &Vec<u8>, pos: usize) -> (r: Option<(u64, usize)>)
    requires
        pos <= b@.len(),
    ensures
        match parse_u64(b@.skip(pos as int)) {
            None => r is None,
            Some((v, rest)) => r matches Some((x, q)) && x == v && pos <= q <= b@.len() && rest
                == b@.skip(q as int),
        },
{
    if b.len() - pos < 8 {
        None
    } else {
        let s = slice_subrange(b.as_slice(), pos, pos + 8);
        let v = u64_from_le_bytes(s);
        proof {
            assert(b@.skip(pos as int).take(8) =~= s@);
            assert(b@.skip(pos as int).skip(8) =~= b@.skip(pos + 8));
        }
        Some((v, pos + 8))
    }
}

/// Reads a string at `pos`, and where it ends.
fn read_str(b: &Vec<u8>, pos: usize) -> (r: Option<(String, usize)>)
    requires
        pos <= b@.len(),
    ensures
        match parse_str(b@.skip(pos as int)) {
            None => r is None,
            Some((v, rest)) => r matches Some((x, q)) && x@ == v && pos <= q <= b@.len() && rest
                == b@.skip(q as int),
        },
{
    match read_u64(b, pos) {
        None => None,
        Some((l, p1)) => {
            if ((b.len() - p1) as u64) < l {
                None
            } else {
                let end = p1 + l as usize;
                let bytes = slice_to_vec(slice_subrange(b.as_slice(), p1, end));
                proof {
                    assert(b@.skip(p1 as int).take(l as int) =~= bytes@);
                    assert(b@.skip(p1 as int).skip(l as int) =~= b@.skip(end as int));
                }
                match string_from_utf8(bytes) {
                    None => None,
                    Some(s) => Some((s, end)),
                }
            }
        },
    }
}

/// Reads `n` strings from `pos` on, and where they end.
fn read_strs(b: &Vec<u8>, pos: usize, n: u64) -> (r: Option<(Vec<String>, usize)>)
    requires
        pos <= b@.len(),
    ensures
        match parse_many(n as nat, b@.skip(pos as int), str_parser()) {
            None => r is None,
            Some((v, rest)) => r matches Some((x, q)) && x@.map_values(|s: String| s@) == v && pos
                <= q <= b@.len() && rest == b@.skip(q as int),
        },
{
    let ghost whole = parse_many(n as nat, b@.skip(pos as int), str_parser());
    let mut out: Vec<String> = Vec::new();
    let mut at = pos;
    let mut i: u64 = 0;
    proof {
        assert(Seq::<Seq<char>>::empty() + Seq::<Seq<char>>::empty() =~= Seq::<Seq<char>>::empty());
        assert(out@.map_values(|s: String| s@) =~= Seq::<Seq<char>>::empty());
        match parse_many(n as nat, b@.skip(pos as int), str_parser()) {
            None => {},
            Some((v, r)) => {
                assert(Seq::<Seq<char>>::empty() + v =~= v);
            },
        }
    }
    while i < n
        invariant
            whole == parse_many(n as nat, b@.skip(pos as int), str_parser()),
            pos <= at <= b@.len(),
            i <= n,
            whole == prepend(
                out@.map_values(|s: String| s@),
                parse_many((n - i) as nat, b@.skip(at as int), str_parser()),
            ),
        decreases n - i,
    {
        match read_str(b, at) {
            None => {
                return None;
            },
            Some((s, q)) => {
                proof {
                    lemma_parse_many_step(
                        out@.map_values(|s: String| s@),
                        (n - i) as nat,
                        b@.skip(at as int),
                        str_parser(),
                    );
                    assert(out@.push(s).map_values(|s: String| s@) =~= out@.map_values(
                        |s: String| s@,
                    ).push(s@));
                }
                out.push(s);
                at = q;
            },
        }
        i = i + 1;
    }
    proof {
        assert(out@.map_values(|s: String| s@) + Seq::<Seq<char>>::empty() =~= out@.map_values(
            |s: String| s@,
        ));
    }
    Some((out, at))
}

/// Reads `n` ids from `pos` on, and where they end.
fn read_ids(b: &Vec<u8>, pos: usize, n: u64) -> (r: Option<(Vec<u64>, usize)>)
    requires
        pos <= b@.len(),
    ensures
        match parse_many(n as nat, b@.skip(pos as int), u64_parser()) {
            None => r is None,
            Some((v, rest)) => r matches Some((x, q)) && x@ == v && pos <= q <= b@.len() && rest
                == b@.skip(q as int),
        },
{
    let ghost whole = parse_many(n as nat, b@.skip(pos as int), u64_parser());
    let mut out: Vec<u64> = Vec::new();
    let mut at = pos;
    let mut i: u64 = 0;
    proof {
        match whole {
            None => {},
            Some((v, r)) => {
                assert(Seq::<u64>::empty() + v =~= v);
            },
        }
    }
    while i < n
        invariant
            whole == parse_many(n as nat, b@.skip(pos as int), u64_parser()),
            pos <= at <= b@.len(),
            i <= n,
            whole == prepend(out@, parse_many((n - i) as nat, b@.skip(at as int), u64_parser())),
        decreases n - i,
    {
        match read_u64(b, at) {
            None => {
                return None;
            },
            Some((v, q)) => {
                proof {
                    lemma_parse_many_step(out@, (n - i) as nat, b@.skip(at as int), u64_parser());
                }
                out.push(v);
                at = q;
            },
        }
        i = i + 1;
    }
    proof {
        assert(out@ + Seq::<u64>::empty() =~= out@);
    }
    Some((out, at))
}

/// Reads a term and its postings at `pos`, and where they end.
fn read_entry(b: &Vec<u8>, pos: usize) -> (r: Option<(String, Vec<u64>, usize)>)
    requires
        pos <= b@.len(),
    ensures
        match parse_entry(b@.skip(pos as int)) {
            None => r is None,
            Some((e, rest)) => r matches Some((t, p, q)) && t@ == e.0 && p@ == e.1 && pos <= q
                <= b@.len() && rest == b@.skip(q as int),
        },
{
    match read_str(b, pos) {
        None => None,
        Some((t, p1)) => match read_u64(b, p1) {
            None => None,
            Some((c, p2)) => match read_ids(b, p2, c) {
                None => None,
                Some((ids, p3)) => Some((t, ids, p3)),
            },
        },
    }
}

/// Reads `n` terms with their postings from `pos` on, and where they end.
fn read_entries(b: &Vec<u8>, pos: usize, n: u64) -> (r: Option<(Vec<String>, Vec<Vec<u64>>, usize)>)
    requires
        pos <= b@.len(),
    ensures
        match parse_many(n as nat, b@.skip(pos as int), entry_parser()) {
            None => r is None,
            Some((es, rest)) => r matches Some((ts, ps, q)) && ts@.len() == ps@.len() && (
            ts@.map_values(|s: String| s@), ps@.map_values(|p: Vec<u64>| p@)) == unzip(es) && pos
                <= q <= b@.len() && rest == b@.skip(q as int),
        },
{
    let ghost whole = parse_many(n as nat, b@.skip(pos as int), entry_parser());
    let mut ts: Vec<String> = Vec::new();
    let mut ps: Vec<Vec<u64>> = Vec::new();
    let ghost mut acc: Seq<(Seq<char>, Seq<u64>)> = Seq::empty();
    let mut at = pos;
    let mut i: u64 = 0;
    proof {
        match whole {
            None => {},
            Some((v, r)) => {
                assert(Seq::<(Seq<char>, Seq<u64>)>::empty() + v =~= v);
            },
        }
        assert(unzip(acc).0 =~= ts@.map_values(|s: String| s@));
        assert(unzip(acc).1 =~= ps@.map_values(|p: Vec<u64>| p@));
    }
    while i < n
        invariant
            whole == parse_many(n as nat, b@.skip(pos as int), entry_parser()),
            pos <= at <= b@.len(),
            i <= n,
            ts@.len() == ps@.len(),
            unzip(acc) == (ts@.map_values(|s: String| s@), ps@.map_values(|p: Vec<u64>| p@)),
            whole == prepend(acc, parse_many((n - i) as nat, b@.skip(at as int), entry_parser())),
        decreases n - i,
    {
        match read_entry(b, at) {
            None => {
                return None;
            },
            Some((t, p, q)) => {
                let ghost old_acc = acc;
                let ghost old_ts = ts@;
                let ghost old_ps = ps@;
                proof {
                    lemma_parse_many_step(acc, (n - i) as nat, b@.skip(at as int), entry_parser());
                    acc = acc.push((t@, p@));
                }
                ts.push(t);
                ps.push(p);
                proof {
                    assert(unzip(acc).0 =~= unzip(old_acc).0.push(t@));
                    assert(unzip(acc).1 =~= unzip(old_acc).1.push(p@));
                    assert(ts@.map_values(|s: String| s@) =~= old_ts.map_values(|s: String| s@).push(
                        t@,
                    ));
                    assert(ps@.map_values(|p: Vec<u64>| p@) =~= old_ps.map_values(
                        |p: Vec<u64>| p@,
                    ).push(p@));
                    assert(unzip(acc).0 =~= ts@.map_values(|s: String| s@));
                    assert(unzip(acc).1 =~= ps@.map_values(|p: Vec<u64>| p@));
                }
                at = q;
            },
        }
        i = i + 1;
    }
    proof {
        assert(acc + Seq::<(Seq<char>, Seq<u64>)>::empty() =~= acc);
    }
    Some((ts, ps, at))
}

/// Whether the posting lists are non-empty, strictly increasing and below `n`.
fn postings_valid(ts: &Vec<String>, ps: &Vec<Vec<u64>>, n: usize) -> (r: bool)
    requires
        ts@.len() == ps@.len(),
    ensures
        r == postings_wf(
            (ts@.map_values(|s: String| s@), ps@.map_values(|p: Vec<u64>| p@)),
            n as nat,
        ),
{
    let ghost pv = ps@.map_values(|p: Vec<u64>| p@);
    let mut i: usize = 0;
    while i < ps.len()
        invariant
            pv == ps@.map_values(|p: Vec<u64>| p@),
            i <= ps@.len(),
            forall|k: int| 0 <= k < i ==> #[trigger] pv[k].len() > 0,
            forall|k: int, a: int, b: int| 0 <= k < i && 0 <= a < b < pv[k].len() ==> pv[k][a] < pv[k][b],
            forall|k: int, a: int| 0 <= k < i && 0 <= a < pv[k].len() ==> pv[k][a] < n,
        decreases ps@.len() - i,
    {
        let p = &ps[i];
        if p.len() == 0 {
            proof {
                assert(pv[i as int].len() == 0);
            }
            return false;
        }
        let mut j: usize = 0;
        while j < p.len()
            invariant
                p@ == pv[i as int],
                0 < p@.len(),
                j <= p@.len(),
                forall|a: int, b: int| 0 <= a < b < j ==> p@[a] < p@[b],
                forall|a: int| 0 <= a < j ==> p@[a] < n,
                pv == ps@.map_values(|p: Vec<u64>| p@),
                i < ps@.len(),
                forall|k: int| 0 <= k < i ==> #[trigger] pv[k].len() > 0,
                forall|k: int, a: int, b: int|
                    0 <= k < i && 0 <= a < b < pv[k].len() ==> pv[k][a] < pv[k][b],
                forall|k: int, a: int| 0 <= k < i && 0 <= a < pv[k].len() ==> pv[k][a] < n,
            decreases p@.len() - j,
        {
            if p[j] >= n as u64 {
                proof {
                    assert(pv[i as int][j as int] >= n);
                }
                return false;
            }
            if j > 0 && p[j - 1] >= p[j] {
                proof {
                    assert(pv[i as int][j - 1] >= pv[i as int][j as int]);
                }
                return false;
            }
            proof {
                assert forall|a: int, b: int| 0 <= a < b < j + 1 implies p@[a] < p@[b] by {
                    if b == j && a < j - 1 {
                        assert(p@[a] < p@[j - 1]);
                    }
                }
            }
            j = j + 1;
        }
        i = i + 1;
    }
    true
}

/// Reads an index back from a snapshot. It fails with `Corrupt` exactly
/// when the bytes are not the snapshot of a well-formed index, with nothing
/// after it; the IDF table is computed afresh from the postings.
pub fn decode(bytes: &Vec<u8>) -> (r: Result<IndexedData, SnapshotError>)
    ensures
        match decode_view(bytes@) {
            Some(v) => r matches Ok(ix) && ix.wf() && snapshot_view(ix) == v,
            None => r == Err::<IndexedData, SnapshotError>(SnapshotError::Corrupt),
        },
{
    proof {
        assert(bytes@.skip(0) =~= bytes@);
    }
    let (n, p1) = match read_u64(bytes, 0) {
        None => {
            return Err(SnapshotError::Corrupt);
        },
        Some(x) => x,
    };
    let (names, p2) = match read_strs(bytes, p1, n) {
        None => {
            return Err(SnapshotError::Corrupt);
        },
        Some(x) => x,
    };
    let (t, p3) = match read_u64(bytes, p2) {
        None => {
            return Err(SnapshotError::Corrupt);
        },
        Some(x) => x,
    };
    let (terms, postings, p4) = match read_entries(bytes, p3, t) {
        None => {
            return Err(SnapshotError::Corrupt);
        },
        Some(x) => x,
    };
    if p4 != bytes.len() {
        return Err(SnapshotError::Corrupt);
    }
    let num_docs = names.len();
    if num_docs as u64 != n {
        return Err(SnapshotError::Corrupt);
    }
    if !postings_valid(&terms, &postings, num_docs) {
        return Err(SnapshotError::Corrupt);
    }
    proof {
        let st = (terms@.map_values(|s: String| s@), postings@.map_values(|p: Vec<u64>| p@));
        assert forall|i: int| 0 <= i < postings@.len() implies #[trigger] postings@[i]@.len()
            <= num_docs by {
            assert(st.1[i] == postings@[i]@);
            lemma_increasing_len(st.1[i], num_docs as nat);
        }
    }
    let idf = compute_idf(&postings, num_docs);
    let ix = IndexedData {
        terms,
        terms_to_docs: postings,
        idf,
        num_docs,
        mapped_doc_ids: MappedDocumentIds { count: n, data: names },
    };
    Ok(ix)
}

} // verus!

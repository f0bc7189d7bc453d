use vstd::prelude::*;
use vstd::utf8::{
    decode_utf8, decode_utf8_encode_utf8, encode_utf8, encode_utf8_decode_utf8, encode_utf8_valid_utf8,
    valid_utf8,
};
use vstd::string::StringSliceAdditionalSpecFns;
use crate::index::{sum_lens, DocEntry, Index, Posting, TermStats};

verus! {

/// The bytes that open every encoded index: `BM25` and format version 1.
pub open spec fn header() -> Seq<u8> {
    seq![0x42u8, 0x4du8, 0x32u8, 0x35u8, 0x01u8]
}

/// A `u64` as eight bytes, least significant first.
pub open spec fn enc_u64(v: u64) -> Seq<u8> {
    seq![
        v as u8,
        (v >> 8u64) as u8,
        (v >> 16u64) as u8,
        (v >> 24u64) as u8,
        (v >> 32u64) as u8,
        (v >> 40u64) as u8,
        (v >> 48u64) as u8,
        (v >> 56u64) as u8,
    ]
}

/// A string as the length of its UTF-8 bytes, then those bytes.
pub open spec fn enc_str(s: Seq<char>) -> Seq<u8> {
    enc_u64(encode_utf8(s).len() as u64) + encode_utf8(s)
}

pub open spec fn enc_doc(d: DocEntry) -> Seq<u8> {
    enc_str(d.id@) + enc_u64(d.len)
}

pub open spec fn enc_posting(p: Posting) -> Seq<u8> {
    enc_u64(p.doc as u64) + enc_u64(p.tf)
}

pub open spec fn enc_doc_fn() -> spec_fn(DocEntry) -> Seq<u8> {
    |d: DocEntry| enc_doc(d)
}

pub open spec fn enc_posting_fn() -> spec_fn(Posting) -> Seq<u8> {
    |p: Posting| enc_posting(p)
}

pub open spec fn enc_term_fn() -> spec_fn(TermStats) -> Seq<u8> {
    |t: TermStats| enc_term(t)
}

/// The encodings of the items of `s`, one after another.
pub open spec fn concat_all<T>(s: Seq<T>, f: spec_fn(T) -> Seq<u8>) -> Seq<u8>
    decreases s.len(),
{
    if s.len() == 0 {
        Seq::empty()
    } else {
        concat_all(s.drop_last(), f) + f(s.last())
    }
}

pub open spec fn enc_term(t: TermStats) -> Seq<u8> {
    enc_str(t.term@) + enc_u64(t.idf_num) + enc_u64(t.idf_den) + enc_u64(t.postings@.len() as u64)
        + concat_all(t.postings@, enc_posting_fn())
}

/// The encoding of an index: the header, the total length, the documents
/// and the terms, each list preceded by its length.
pub open spec fn enc_index(ix: &Index) -> Seq<u8> {
    header() + enc_u64(ix.total_len) + enc_u64(ix.docs@.len() as u64) + concat_all(ix.docs@, enc_doc_fn())
        + enc_u64(ix.terms@.len() as u64) + concat_all(ix.terms@, enc_term_fn())
}

/// Two indexes hold the same documents, terms, postings, idf values and total length.
pub open spec fn same_index(a: &Index, b: &Index) -> bool {
    &&& a.total_len == b.total_len
    &&& a.docs@.len() == b.docs@.len()
    &&& forall|i: int|
        0 <= i < a.docs@.len() ==> (#[trigger] a.docs@[i]).id@ == b.docs@[i].id@ && a.docs@[i].len
            == b.docs@[i].len
    &&& a.terms@.len() == b.terms@.len()
    &&& forall|k: int|
        0 <= k < a.terms@.len() ==> {
            &&& (#[trigger] a.terms@[k]).term@ == b.terms@[k].term@
            &&& a.terms@[k].postings@ == b.terms@[k].postings@
            &&& a.terms@[k].idf_num == b.terms@[k].idf_num
            &&& a.terms@[k].idf_den == b.terms@[k].idf_den
        }
}

/// The bytes are not the encoding of a well-formed index.
#[derive(Clone, Copy, Debug, PartialEq, Eq)]
pub enum DecodeError {
    Corrupt,
}

proof fn lemma_concat_split<T>(s: Seq<T>, f: spec_fn(T) -> Seq<u8>, i: int)
    requires
        0 <= i <= s.len(),
    ensures
        concat_all(s, f) == concat_all(s.take(i), f) + concat_all(s.skip(i), f),
    decreases s.len(),
{
    if i == s.len() {
        assert(s.take(i) =~= s);
        assert(s.skip(i) =~= Seq::<T>::empty());
        assert(concat_all(s, f) + Seq::<u8>::empty() =~= concat_all(s, f));
    } else {
        let dl = s.drop_last();
        lemma_concat_split(dl, f, i);
        assert(s.take(i) =~= dl.take(i));
        assert(s.skip(i).drop_last() =~= dl.skip(i));
        assert(s.skip(i).last() == s.last());
        assert(concat_all(s, f) =~= concat_all(s.take(i), f) + concat_all(s.skip(i), f));
    }
}

proof fn lemma_concat_first<T>(s: Seq<T>, f: spec_fn(T) -> Seq<u8>)
    requires
        s.len() > 0,
    ensures
        concat_all(s, f) == f(s[0]) + concat_all(s.skip(1), f),
{
    lemma_concat_split(s, f, 1);
    assert(s.take(1).drop_last() =~= Seq::<T>::empty());
    assert(concat_all(s.take(1).drop_last(), f) == Seq::<u8>::empty());
    assert(s.take(1).last() == s[0]);
    assert(concat_all(s.take(1), f) =~= f(s[0]));
}

proof fn lemma_concat_push<T>(s: Seq<T>, f: spec_fn(T) -> Seq<u8>, x: T)
    ensures
        concat_all(s.push(x), f) == concat_all(s, f) + f(x),
{
    assert(s.push(x).drop_last() =~= s);
}

proof fn lemma_enc_u64_injective(v: u64, w: u64)
    requires
        enc_u64(v) == enc_u64(w),
    ensures
        v == w,
{
    assert(enc_u64(v)[0] == enc_u64(w)[0]);
    assert(enc_u64(v)[1] == enc_u64(w)[1]);
    assert(enc_u64(v)[2] == enc_u64(w)[2]);
    assert(enc_u64(v)[3] == enc_u64(w)[3]);
    assert(enc_u64(v)[4] == enc_u64(w)[4]);
    assert(enc_u64(v)[5] == enc_u64(w)[5]);
    assert(enc_u64(v)[6] == enc_u64(w)[6]);
    assert(enc_u64(v)[7] == enc_u64(w)[7]);
    assert(v == w) by (bit_vector)
        requires
            v as u8 == w as u8,
            (v >> 8u64) as u8 == (w >> 8u64) as u8,
            (v >> 16u64) as u8 == (w >> 16u64) as u8,
            (v >> 24u64) as u8 == (w >> 24u64) as u8,
            (v >> 32u64) as u8 == (w >> 32u64) as u8,
            (v >> 40u64) as u8 == (w >> 40u64) as u8,
            (v >> 48u64) as u8 == (w >> 48u64) as u8,
            (v >> 56u64) as u8 == (w >> 56u64) as u8,
    ;
}

/// Relies on String::from_utf8: it succeeds exactly on valid UTF-8, and then
/// holds the characters that the bytes encode.
#[verifier::external_body]
fn string_from_utf8(b: Vec<u8>) -> (r: Option<String>)
    ensures
        r is Some <==> valid_utf8(b@),
        r matches Some(s) ==> s@ == decode_utf8(b@),
{
    String::from_utf8(b).ok()
}

fn push_u64(out: &mut Vec<u8>, v: u64)
    ensures
        final(out)@ == old(out)@ + enc_u64(v),
{
    out.push(v as u8);
    out.push((v >> 8) as u8);
    out.push((v >> 16) as u8);
    out.push((v >> 24) as u8);
    out.push((v >> 32) as u8);
    out.push((v >> 40) as u8);
    out.push((v >> 48) as u8);
    out.push((v >> 56) as u8);
    assert(final(out)@ =~= old(out)@ + enc_u64(v));
}

fn push_str(out: &mut Vec<u8>, s: &String)
    ensures
        final(out)@ == old(out)@ + enc_str(s@),
{
    let bytes = s.as_str().as_bytes();
    push_u64(out, bytes.len() as u64);
    let ghost mid = out@;
    let mut i: usize = 0;
    while i < bytes.len()
        invariant
            i <= bytes@.len(),
            bytes@ == encode_utf8(s@),
            out@ == mid + bytes@.take(i as int),
        decreases bytes.len() - i,
    {
        out.push(bytes[i]);
        assert(out@ =~= mid + bytes@.take(i + 1));
        i += 1;
    }
    assert(bytes@.take(i as int) =~= bytes@);
}

/// Encodes an index as bytes.
pub fn encode(ix: &Index) -> (r: Vec<u8>)
    ensures
        r@ == enc_index(ix),
{
    let mut out: Vec<u8> = Vec::new();
    out.push(0x42);
    out.push(0x4d);
    out.push(0x32);
    out.push(0x35);
    out.push(0x01);
    assert(out@ =~= header());
    push_u64(&mut out, ix.total_len);
    push_u64(&mut out, ix.docs.len() as u64);
    let ghost start = out@;
    let mut i: usize = 0;
    while i < ix.docs.len()
        invariant
            i <= ix.docs@.len(),
            out@ == start + concat_all(ix.docs@.take(i as int), enc_doc_fn()),
        decreases ix.docs.len() - i,
    {
        push_str(&mut out, &ix.docs[i].id);
        push_u64(&mut out, ix.docs[i].len);
        proof {
            assert(ix.docs@.take(i + 1) =~= ix.docs@.take(i as int).push(ix.docs@[i as int]));
            lemma_concat_push(ix.docs@.take(i as int), enc_doc_fn(), ix.docs@[i as int]);
            assert(out@ =~= start + concat_all(ix.docs@.take(i + 1), enc_doc_fn()));
        }
        i += 1;
    }
    assert(ix.docs@.take(i as int) =~= ix.docs@);
    push_u64(&mut out, ix.terms.len() as u64);
    let ghost start2 = out@;
    let mut k: usize = 0;
    while k < ix.terms.len()
        invariant
            k <= ix.terms@.len(),
            out@ == start2 + concat_all(ix.terms@.take(k as int), enc_term_fn()),
        decreases ix.terms.len() - k,
    {
        let t = &ix.terms[k];
        let ghost before = out@;
        push_str(&mut out, &t.term);
        push_u64(&mut out, t.idf_num);
        push_u64(&mut out, t.idf_den);
        push_u64(&mut out, t.postings.len() as u64);
        let ghost mid = out@;
        let mut p: usize = 0;
        while p < t.postings.len()
            invariant
                p <= t.postings@.len(),
                out@ == mid + concat_all(t.postings@.take(p as int), enc_posting_fn()),
            decreases t.postings.len() - p,
        {
            push_u64(&mut out, t.postings[p].doc as u64);
            push_u64(&mut out, t.postings[p].tf);
            proof {
                assert(t.postings@.take(p + 1) =~= t.postings@.take(p as int).push(t.postings@[p as int]));
                lemma_concat_push(t.postings@.take(p as int), enc_posting_fn(), t.postings@[p as int]);
                assert(out@ =~= mid + concat_all(t.postings@.take(p + 1), enc_posting_fn()));
            }
            p += 1;
        }
        proof {
            assert(t.postings@.take(p as int) =~= t.postings@);
            assert(out@ =~= before + enc_term(*t));
            assert(ix.terms@.take(k + 1) =~= ix.terms@.take(k as int).push(ix.terms@[k as int]));
            lemma_concat_push(ix.terms@.take(k as int), enc_term_fn(), ix.terms@[k as int]);
            assert(out@ =~= start2 + concat_all(ix.terms@.take(k + 1), enc_term_fn()));
        }
        k += 1;
    }
    assert(ix.terms@.take(k as int) =~= ix.terms@);
    assert(out@ =~= enc_index(ix));
    out
}

fn read_u64(b: &Vec<u8>, pos: usize) -> (r: Option<(u64, usize)>)
    ensures
        match r {
            Some((v, p)) => pos + 8 <= b@.len() && p == pos + 8 && b@.subrange(pos as int, p as int)
                == enc_u64(v),
            None => pos + 8 > b@.len(),
        },
        forall|w: u64|
            pos + 8 <= b@.len() && b@.subrange(pos as int, pos + 8) == #[trigger] enc_u64(w) ==> r
                == Some((w, (pos + 8) as usize)),
{
    if b.len() < 8 || pos > b.len() - 8 {
        return None;
    }
    let b0 = b[pos];
    let b1 = b[pos + 1];
    let b2 = b[pos + 2];
    let b3 = b[pos + 3];
    let b4 = b[pos + 4];
    let b5 = b[pos + 5];
    let b6 = b[pos + 6];
    let b7 = b[pos + 7];
    let v: u64 = (b0 as u64) | ((b1 as u64) << 8) | ((b2 as u64) << 16) | ((b3 as u64) << 24) | ((
    b4 as u64) << 32) | ((b5 as u64) << 40) | ((b6 as u64) << 48) | ((b7 as u64) << 56);
    proof {
        assert(v as u8 == b0 && (v >> 8u64) as u8 == b1 && (v >> 16u64) as u8 == b2 && (v >> 24u64) as u8
            == b3 && (v >> 32u64) as u8 == b4 && (v >> 40u64) as u8 == b5 && (v >> 48u64) as u8 == b6
            && (v >> 56u64) as u8 == b7) by (bit_vector)
            requires
                v == (b0 as u64) | ((b1 as u64) << 8) | ((b2 as u64) << 16) | ((b3 as u64) << 24) | ((
                b4 as u64) << 32) | ((b5 as u64) << 40) | ((b6 as u64) << 48) | ((b7 as u64) << 56),
        ;
        assert(b@.subrange(pos as int, pos + 8) =~= enc_u64(v));
        assert forall|w: u64|
            pos + 8 <= b@.len() && b@.subrange(pos as int, pos + 8) == #[trigger] enc_u64(w) implies w
                == v by {
            lemma_enc_u64_injective(v, w);
        }
    }
    Some((v, pos + 8))
}

fn read_str(b: &Vec<u8>, pos: usize) -> (r: Option<(String, usize)>)
    ensures
        r matches Some((s, p)) ==> pos <= p <= b@.len() && b@.subrange(pos as int, p as int) == enc_str(
            s@,
        ),
        forall|t: Seq<char>|
            pos + enc_str(t).len() <= b@.len() && b@.subrange(pos as int, pos + enc_str(t).len())
                == #[trigger] enc_str(t) ==> (r matches Some((s, p)) && s@ == t && p == pos + enc_str(
                t,
            ).len()),
{
    let (n, end1) = match read_u64(b, pos) {
        Some(x) => x,
        None => {
            proof {
                assert forall|t: Seq<char>|
                    pos + enc_str(t).len() <= b@.len() implies b@.subrange(pos as int, pos + enc_str(t).len())
                    != #[trigger] enc_str(t) by {}
            }
            return None;
        },
    };
    let ghost hyp = exists|t: Seq<char>|
        pos + enc_str(t).len() <= b@.len() && b@.subrange(pos as int, pos + enc_str(t).len())
            == #[trigger] enc_str(t);
    let ghost t0 = choose|t: Seq<char>|
        pos + enc_str(t).len() <= b@.len() && b@.subrange(pos as int, pos + enc_str(t).len())
            == #[trigger] enc_str(t);
    proof {
        if hyp {
            assert(b@.subrange(pos as int, pos + 8) =~= enc_str(t0).subrange(0, 8));
            assert(enc_str(t0).subrange(0, 8) =~= enc_u64(encode_utf8(t0).len() as u64));
            assert(n == encode_utf8(t0).len() as u64);
        }
    }
    let rest = b.len() - end1;
    if n > rest as u64 {
        return None;
    }
    assert(n <= rest);
    let n = n as usize;
    assert(end1 + n <= b@.len());
    let mut bytes: Vec<u8> = Vec::new();
    let mut i: usize = 0;
    while i < n
        invariant
            end1 + n <= b@.len(),
            i <= n,
            bytes@ == b@.subrange(end1 as int, end1 + i),
        decreases n - i,
    {
        assert(end1 + i < b.len());
        bytes.push(b[end1 + i]);
        assert(bytes@ =~= b@.subrange(end1 as int, end1 + i + 1));
        i += 1;
    }
    let ghost bv = bytes@;
    proof {
        if hyp {
            encode_utf8_valid_utf8(t0);
            encode_utf8_decode_utf8(t0);
            assert(encode_utf8(t0).len() < 0x1_0000_0000_0000_0000) by {
                assert(pos + enc_str(t0).len() <= b@.len());
            }
            assert(bv =~= enc_str(t0).subrange(8, 8 + n as int));
            assert(bv =~= encode_utf8(t0));
        }
    }
    match string_from_utf8(bytes) {
        Some(s) => {
            proof {
                decode_utf8_encode_utf8(bv);
                assert(encode_utf8(s@) == bv);
                assert(b@.subrange(pos as int, (end1 + n) as int) =~= enc_str(s@));
                assert forall|t: Seq<char>|
                    pos + enc_str(t).len() <= b@.len() && b@.subrange(pos as int, pos + enc_str(t).len())
                        == #[trigger] enc_str(t) implies s@ == t && end1 + n == pos + enc_str(t).len() by {
                    assert(hyp);
                    assert(b@.subrange(pos as int, pos + 8) =~= enc_str(t).subrange(0, 8));
                    assert(enc_str(t).subrange(0, 8) =~= enc_u64(encode_utf8(t).len() as u64));
                    assert(encode_utf8(t).len() < 0x1_0000_0000_0000_0000);
                    assert(bv =~= enc_str(t).subrange(8, 8 + n as int));
                    assert(bv =~= encode_utf8(t));
                    encode_utf8_decode_utf8(t);
                }
            }
            Some((s, end1 + n))
        },
        None => None,
    }
}

/// `bs` is the encoding of the well-formed index `x`.
pub open spec fn encodes(x: &Index, bs: Seq<u8>) -> bool {
    x.wf() && enc_index(x) == bs
}

proof fn lemma_split_rest(b: Seq<u8>, pos: int, a: Seq<u8>, c: Seq<u8>)
    requires
        0 <= pos <= b.len(),
        b.subrange(pos, b.len() as int) == a + c,
    ensures
        pos + a.len() <= b.len(),
        b.subrange(pos, pos + a.len()) == a,
        b.subrange(pos + a.len(), b.len() as int) == c,
{
    assert(b.subrange(pos, b.len() as int).len() == a.len() + c.len());
    assert(b.subrange(pos, pos + a.len()) =~= (a + c).subrange(0, a.len() as int));
    assert((a + c).subrange(0, a.len() as int) =~= a);
    assert(b.subrange(pos + a.len(), b.len() as int) =~= (a + c).subrange(a.len() as int, (a + c).len() as int));
    assert((a + c).subrange(a.len() as int, (a + c).len() as int) =~= c);
}

proof fn lemma_sum_lens_eq(a: Seq<DocEntry>, c: Seq<DocEntry>)
    requires
        a.len() == c.len(),
        forall|i: int| 0 <= i < a.len() ==> (#[trigger] a[i]).len == c[i].len,
    ensures
        sum_lens(a) == sum_lens(c),
    decreases a.len(),
{
    if a.len() > 0 {
        lemma_sum_lens_eq(a.drop_last(), c.drop_last());
    }
}

proof fn lemma_same_wf(y: &Index, x: &Index)
    requires
        same_index(y, x),
        x.wf(),
    ensures
        y.wf(),
{
    lemma_sum_lens_eq(y.docs@, x.docs@);
    assert forall|a: int, b: int| 0 <= a < b < y.terms@.len() implies #[trigger] y.terms@[a].term@
        != #[trigger] y.terms@[b].term@ by {
        assert(x.terms@[a].term@ != x.terms@[b].term@);
    }
    assert forall|k: int, p: int|
        0 <= k < y.terms@.len() && 0 <= p < y.terms@[k].postings@.len() implies {
            let q = #[trigger] y.terms@[k].postings@[p];
            q.tf <= y.docs@[q.doc as int].len
        } by {
        assert(y.terms@[k].postings@ == x.terms@[k].postings@);
        assert(x.terms@[k].postings@[p].tf <= x.docs@[x.terms@[k].postings@[p].doc as int].len);
    }
    assert forall|e: int| 0 <= e < y.docs@.len() implies #[trigger] y.docs@[e].len <= y.total_len by {
        assert(x.docs@[e].len <= x.total_len);
    }
    assert forall|k: int| 0 <= k < y.terms@.len() implies #[trigger] y.terms@[k].postings@.len() > 0 by {
        assert(y.terms@[k].postings@ == x.terms@[k].postings@);
    }
    assert forall|k: int, p: int|
        0 <= k < y.terms@.len() && 0 <= p < y.terms@[k].postings@.len() implies {
            let q = #[trigger] y.terms@[k].postings@[p];
            q.doc < y.n_docs() && q.tf > 0
        } by {
        assert(y.terms@[k].postings@ == x.terms@[k].postings@);
    }
    assert forall|k: int, p: int, r: int|
        0 <= k < y.terms@.len() && 0 <= p < r < y.terms@[k].postings@.len() implies #[trigger] y.terms@[k].postings@[p].doc
            < #[trigger] y.terms@[k].postings@[r].doc by {
        assert(y.terms@[k].postings@ == x.terms@[k].postings@);
        assert(x.terms@[k].postings@[p].doc < x.terms@[k].postings@[r].doc);
    }
    assert forall|k: int| 0 <= k < y.terms@.len() implies {
        let s = #[trigger] y.terms@[k];
        &&& s.idf_num == crate::index::idf_num_of(y.n_docs())
        &&& s.idf_den == crate::index::idf_den_of(s.postings@.len())
    } by {
        assert(y.terms@[k].postings@ == x.terms@[k].postings@);
        assert(x.terms@[k].idf_num == crate::index::idf_num_of(x.n_docs()));
    }
}

proof fn lemma_doc_facts(bs: Seq<u8>, pos: int, ds: Seq<DocEntry>, i: int, tt: Seq<u8>)
    requires
        0 <= i < ds.len(),
        0 <= pos <= bs.len(),
        bs.subrange(pos, bs.len() as int) == concat_all(ds.skip(i), enc_doc_fn()) + tt,
    ensures
        pos + enc_str(ds[i].id@).len() + 8 <= bs.len(),
        bs.subrange(pos, pos + enc_str(ds[i].id@).len()) == enc_str(ds[i].id@),
        bs.subrange(pos + enc_str(ds[i].id@).len(), pos + enc_str(ds[i].id@).len() + 8) == enc_u64(
            ds[i].len,
        ),
        bs.subrange(pos + enc_str(ds[i].id@).len() + 8, bs.len() as int) == concat_all(
            ds.skip(i + 1),
            enc_doc_fn(),
        ) + tt,
{
    let sk = ds.skip(i);
    lemma_concat_first(sk, enc_doc_fn());
    assert(sk.skip(1) =~= ds.skip(i + 1));
    let a = enc_str(ds[i].id@);
    let rest = concat_all(ds.skip(i + 1), enc_doc_fn()) + tt;
    assert(bs.subrange(pos, bs.len() as int) =~= a + (enc_u64(ds[i].len) + rest));
    lemma_split_rest(bs, pos, a, enc_u64(ds[i].len) + rest);
    lemma_split_rest(bs, pos + a.len(), enc_u64(ds[i].len), rest);
}

proof fn lemma_posting_facts(bs: Seq<u8>, pos: int, ps: Seq<Posting>, j: int, tt: Seq<u8>)
    requires
        0 <= j < ps.len(),
        0 <= pos <= bs.len(),
        bs.subrange(pos, bs.len() as int) == concat_all(ps.skip(j), enc_posting_fn()) + tt,
    ensures
        pos + 16 <= bs.len(),
        bs.subrange(pos, pos + 8) == enc_u64(ps[j].doc as u64),
        bs.subrange(pos + 8, pos + 16) == enc_u64(ps[j].tf),
        bs.subrange(pos + 16, bs.len() as int) == concat_all(ps.skip(j + 1), enc_posting_fn()) + tt,
{
    let sk = ps.skip(j);
    lemma_concat_first(sk, enc_posting_fn());
    assert(sk.skip(1) =~= ps.skip(j + 1));
    let rest = concat_all(ps.skip(j + 1), enc_posting_fn()) + tt;
    assert(bs.subrange(pos, bs.len() as int) =~= enc_u64(ps[j].doc as u64) + (enc_u64(ps[j].tf) + rest));
    lemma_split_rest(bs, pos, enc_u64(ps[j].doc as u64), enc_u64(ps[j].tf) + rest);
    lemma_split_rest(bs, pos + 8, enc_u64(ps[j].tf), rest);
}

#[verifier::rlimit(60)]
proof fn lemma_term_facts(bs: Seq<u8>, pos: int, ts: Seq<TermStats>, k: int, tt: Seq<u8>)
    requires
        0 <= k < ts.len(),
        0 <= pos <= bs.len(),
        bs.subrange(pos, bs.len() as int) == concat_all(ts.skip(k), enc_term_fn()) + tt,
    ensures
        ({
            let t = ts[k];
            let a = enc_str(t.term@).len();
            &&& pos + a + 24 <= bs.len()
            &&& bs.subrange(pos, pos + a) == enc_str(t.term@)
            &&& bs.subrange(pos + a, pos + a + 8) == enc_u64(t.idf_num)
            &&& bs.subrange(pos + a + 8, pos + a + 16) == enc_u64(t.idf_den)
            &&& bs.subrange(pos + a + 16, pos + a + 24) == enc_u64(t.postings@.len() as u64)
            &&& bs.subrange(pos + a + 24, bs.len() as int) == concat_all(t.postings@, enc_posting_fn())
                + (concat_all(ts.skip(k + 1), enc_term_fn()) + tt)
        }),
{
    let sk = ts.skip(k);
    lemma_concat_first(sk, enc_term_fn());
    assert(sk.skip(1) =~= ts.skip(k + 1));
    let t = ts[k];
    let a = enc_str(t.term@);
    let r3 = concat_all(t.postings@, enc_posting_fn()) + (concat_all(ts.skip(k + 1), enc_term_fn()) + tt);
    let r2 = enc_u64(t.postings@.len() as u64) + r3;
    let r1 = enc_u64(t.idf_den) + r2;
    let r0 = enc_u64(t.idf_num) + r1;
    assert(bs.subrange(pos, bs.len() as int) =~= a + r0);
    lemma_split_rest(bs, pos, a, r0);
    lemma_split_rest(bs, pos + a.len(), enc_u64(t.idf_num), r1);
    lemma_split_rest(bs, pos + a.len() + 8, enc_u64(t.idf_den), r2);
    lemma_split_rest(bs, pos + a.len() + 16, enc_u64(t.postings@.len() as u64), r3);
}

proof fn lemma_join(b: Seq<u8>, a: int, m: int, c: int)
    requires
        0 <= a <= m <= c <= b.len(),
    ensures
        b.subrange(a, c) == b.subrange(a, m) + b.subrange(m, c),
{
    assert(b.subrange(a, c) =~= b.subrange(a, m) + b.subrange(m, c));
}

fn decode_docs(b: &Vec<u8>, start: usize, nd: u64, Ghost(tl): Ghost<spec_fn(Index) -> Seq<u8>>) -> (r: Option<
    (Vec<DocEntry>, usize),
>)
    requires
        start <= b@.len(),
        forall|x: Index| #[trigger] encodes(&x, b@) ==> x.docs@.len() == nd && b@.subrange(start as int, b@.len() as int)
            == concat_all(x.docs@, enc_doc_fn()) + tl(x),
    ensures
        r matches Some((ds, p)) ==> start <= p <= b@.len() && ds@.len() == nd && b@.subrange(start as int, p as int)
            == concat_all(ds@, enc_doc_fn()),
        forall|x: Index| #[trigger] encodes(&x, b@) ==> (r matches Some((ds, p)) && b@.subrange(p as int, b@.len() as int)
            == tl(x) && forall|j: int|
            0 <= j < ds@.len() ==> (#[trigger] ds@[j]).id@ == x.docs@[j].id@ && ds@[j].len == x.docs@[j].len),
{
    let ghost bs = b@;
    let ghost len = bs.len() as int;
    let mut pos = start;
    let mut docs: Vec<DocEntry> = Vec::new();
    let mut i: u64 = 0;
    proof {
        assert forall|x: Index| #[trigger] encodes(&x, bs) implies x.docs@.skip(0) == x.docs@ by {
            assert(x.docs@.skip(0) =~= x.docs@);
        }
        assert(bs.subrange(start as int, start as int) =~= concat_all(docs@, enc_doc_fn()));
    }
    while i < nd
        invariant
            bs == b@,
            len == bs.len(),
            start <= pos <= len,
            docs@.len() == i,
            i <= nd,
            bs.subrange(start as int, pos as int) == concat_all(docs@, enc_doc_fn()),
            forall|x: Index| #[trigger] encodes(&x, bs) ==> {
                &&& x.docs@.len() == nd
                &&& bs.subrange(pos as int, len) == concat_all(x.docs@.skip(i as int), enc_doc_fn()) + tl(x)
                &&& forall|j: int| 0 <= j < i ==> (#[trigger] docs@[j]).id@ == x.docs@[j].id@ && docs@[j].len
                    == x.docs@[j].len
            },
        decreases nd - i,
    {
        proof {
            assert forall|x: Index| #[trigger] encodes(&x, bs) implies {
                let d = x.docs@[i as int];
                let a = enc_str(d.id@).len();
                &&& pos + a + 8 <= len
                &&& bs.subrange(pos as int, pos + a) == enc_str(d.id@)
                &&& bs.subrange(pos + a, pos + a + 8) == enc_u64(d.len)
                &&& bs.subrange(pos + a + 8, len) == concat_all(x.docs@.skip(i + 1), enc_doc_fn()) + tl(x)
            } by {
                lemma_doc_facts(bs, pos as int, x.docs@, i as int, tl(x));
            }
        }
        let (id, end1) = match read_str(b, pos) {
            Some(v) => v,
            None => {
                return None;
            },
        };
        let (dlen, end2) = match read_u64(b, end1) {
            Some(v) => v,
            None => {
                return None;
            },
        };
        let ghost old_docs = docs@;
        proof {
            lemma_join(bs, pos as int, end1 as int, end2 as int);
            lemma_join(bs, start as int, pos as int, end2 as int);
        }
        docs.push(DocEntry { id, len: dlen });
        proof {
            lemma_concat_push(old_docs, enc_doc_fn(), docs@.last());
            assert(docs@ =~= old_docs.push(docs@.last()));
            assert(bs.subrange(pos as int, end2 as int) =~= enc_doc(docs@.last()));
            assert(bs.subrange(start as int, end2 as int) =~= concat_all(docs@, enc_doc_fn()));
        }
        pos = end2;
        i = i + 1;
    }
    proof {
        assert forall|x: Index| #[trigger] encodes(&x, bs) implies bs.subrange(pos as int, len) == tl(x) by {
            assert(x.docs@.skip(i as int) =~= Seq::<DocEntry>::empty());
            assert(concat_all(x.docs@.skip(i as int), enc_doc_fn()) + tl(x) =~= tl(x));
        }
    }
    Some((docs, pos))
}

fn decode_postings(
    b: &Vec<u8>,
    start: usize,
    np: u64,
    Ghost(ps_of): Ghost<spec_fn(Index) -> Seq<Posting>>,
    Ghost(tl): Ghost<spec_fn(Index) -> Seq<u8>>,
) -> (r: Option<(Vec<Posting>, usize)>)
    requires
        start <= b@.len(),
        forall|x: Index| #[trigger] encodes(&x, b@) ==> ps_of(x).len() == np && b@.subrange(start as int, b@.len() as int)
            == concat_all(ps_of(x), enc_posting_fn()) + tl(x),
    ensures
        r matches Some((ps, p)) ==> start <= p <= b@.len() && ps@.len() == np && b@.subrange(start as int, p as int)
            == concat_all(ps@, enc_posting_fn()),
        forall|x: Index| #[trigger] encodes(&x, b@) ==> (r matches Some((ps, p)) && b@.subrange(p as int, b@.len() as int)
            == tl(x) && ps@ == ps_of(x)),
{
    let ghost bs = b@;
    let ghost len = bs.len() as int;
    let mut pos = start;
    let mut ps: Vec<Posting> = Vec::new();
    let mut j: u64 = 0;
    proof {
        assert forall|x: Index| #[trigger] encodes(&x, bs) implies ps_of(x).skip(0) == ps_of(x) by {
            assert(ps_of(x).skip(0) =~= ps_of(x));
        }
        assert(bs.subrange(start as int, start as int) =~= concat_all(ps@, enc_posting_fn()));
    }
    while j < np
        invariant
            bs == b@,
            len == bs.len(),
            start <= pos <= len,
            ps@.len() == j,
            j <= np,
            bs.subrange(start as int, pos as int) == concat_all(ps@, enc_posting_fn()),
            forall|x: Index| #[trigger] encodes(&x, bs) ==> {
                &&& ps_of(x).len() == np
                &&& bs.subrange(pos as int, len) == concat_all(ps_of(x).skip(j as int), enc_posting_fn()) + tl(x)
                &&& ps@ == ps_of(x).take(j as int)
            },
        decreases np - j,
    {
        proof {
            assert forall|x: Index| #[trigger] encodes(&x, bs) implies {
                let q = ps_of(x)[j as int];
                &&& pos + 16 <= len
                &&& bs.subrange(pos as int, pos + 8) == enc_u64(q.doc as u64)
                &&& bs.subrange(pos + 8, pos + 16) == enc_u64(q.tf)
                &&& bs.subrange(pos + 16, len) == concat_all(ps_of(x).skip(j + 1), enc_posting_fn()) + tl(x)
            } by {
                lemma_posting_facts(bs, pos as int, ps_of(x), j as int, tl(x));
            }
        }
        let (dv, end1) = match read_u64(b, pos) {
            Some(v) => v,
            None => {
                return None;
            },
        };
        let (tf, end2) = match read_u64(b, end1) {
            Some(v) => v,
            None => {
                return None;
            },
        };
        if dv > usize::MAX as u64 {
            return None;
        }
        let q = Posting { doc: dv as usize, tf };
        let ghost old_ps = ps@;
        proof {
            lemma_join(bs, pos as int, end1 as int, end2 as int);
            lemma_join(bs, start as int, pos as int, end2 as int);
            assert(q.doc as u64 == dv);
            assert forall|x: Index| #[trigger] encodes(&x, bs) implies ps_of(x)[j as int] == q by {
                let xq = ps_of(x)[j as int];
                assert(xq.doc as u64 == dv);
            }
        }
        ps.push(q);
        proof {
            lemma_concat_push(old_ps, enc_posting_fn(), q);
            assert(bs.subrange(pos as int, end2 as int) =~= enc_posting(q));
            assert(bs.subrange(start as int, end2 as int) =~= concat_all(ps@, enc_posting_fn()));
            assert forall|x: Index| #[trigger] encodes(&x, bs) implies ps@ == ps_of(x).take(j + 1) by {
                assert(ps@ =~= ps_of(x).take(j + 1));
            }
        }
        pos = end2;
        j = j + 1;
    }
    proof {
        assert forall|x: Index| #[trigger] encodes(&x, bs) implies bs.subrange(pos as int, len) == tl(x) && ps@ == ps_of(x) by {
            assert(ps_of(x).skip(j as int) =~= Seq::<Posting>::empty());
            assert(concat_all(ps_of(x).skip(j as int), enc_posting_fn()) + tl(x) =~= tl(x));
            assert(ps_of(x).take(j as int) =~= ps_of(x));
        }
    }
    Some((ps, pos))
}

#[verifier::rlimit(60)]
fn decode_terms(b: &Vec<u8>, start: usize, nt: u64, Ghost(tl): Ghost<spec_fn(Index) -> Seq<u8>>) -> (r: Option<
    (Vec<TermStats>, usize),
>)
    requires
        start <= b@.len(),
        forall|x: Index| #[trigger] encodes(&x, b@) ==> x.terms@.len() == nt && b@.subrange(start as int, b@.len() as int)
            == concat_all(x.terms@, enc_term_fn()) + tl(x),
    ensures
        r matches Some((ts, p)) ==> start <= p <= b@.len() && ts@.len() == nt && b@.subrange(start as int, p as int)
            == concat_all(ts@, enc_term_fn()),
        forall|x: Index| #[trigger] encodes(&x, b@) ==> (r matches Some((ts, p)) && b@.subrange(p as int, b@.len() as int)
            == tl(x) && forall|k: int|
            0 <= k < ts@.len() ==> {
                &&& (#[trigger] ts@[k]).term@ == x.terms@[k].term@
                &&& ts@[k].postings@ == x.terms@[k].postings@
                &&& ts@[k].idf_num == x.terms@[k].idf_num
                &&& ts@[k].idf_den == x.terms@[k].idf_den
            }),
{
    let ghost bs = b@;
    let ghost len = bs.len() as int;
    let mut pos = start;
    let mut ts: Vec<TermStats> = Vec::new();
    let mut k: u64 = 0;
    proof {
        assert forall|x: Index| #[trigger] encodes(&x, bs) implies x.terms@.skip(0) == x.terms@ by {
            assert(x.terms@.skip(0) =~= x.terms@);
        }
        assert(bs.subrange(start as int, start as int) =~= concat_all(ts@, enc_term_fn()));
    }
    while k < nt
        invariant
            bs == b@,
            len == bs.len(),
            start <= pos <= len,
            ts@.len() == k,
            k <= nt,
            bs.subrange(start as int, pos as int) == concat_all(ts@, enc_term_fn()),
            forall|x: Index| #[trigger] encodes(&x, bs) ==> {
                &&& x.terms@.len() == nt
                &&& bs.subrange(pos as int, len) == concat_all(x.terms@.skip(k as int), enc_term_fn()) + tl(x)
                &&& forall|j: int|
                    0 <= j < k ==> {
                        &&& (#[trigger] ts@[j]).term@ == x.terms@[j].term@
                        &&& ts@[j].postings@ == x.terms@[j].postings@
                        &&& ts@[j].idf_num == x.terms@[j].idf_num
                        &&& ts@[j].idf_den == x.terms@[j].idf_den
                    }
            },
        decreases nt - k,
    {
        let ghost rest = |x: Index| concat_all(x.terms@.skip(k + 1), enc_term_fn()) + tl(x);
        let ghost ps_of = |x: Index| x.terms@[k as int].postings@;
        proof {
            assert forall|x: Index| #[trigger] encodes(&x, bs) implies {
                let t = x.terms@[k as int];
                let a = enc_str(t.term@).len();
                &&& pos + a + 24 <= len
                &&& bs.subrange(pos as int, pos + a) == enc_str(t.term@)
                &&& bs.subrange(pos + a, pos + a + 8) == enc_u64(t.idf_num)
                &&& bs.subrange(pos + a + 8, pos + a + 16) == enc_u64(t.idf_den)
                &&& bs.subrange(pos + a + 16, pos + a + 24) == enc_u64(t.postings@.len() as u64)
                &&& bs.subrange(pos + a + 24, len) == concat_all(t.postings@, enc_posting_fn()) + rest(x)
                &&& t.postings@.len() < 0x8000_0000_0000_0000
            } by {
                lemma_term_facts(bs, pos as int, x.terms@, k as int, tl(x));
                assert(x.terms@[k as int].idf_den == 2 * x.terms@[k as int].postings@.len() + 1);
            }
        }
        let (term, end1) = match read_str(b, pos) {
            Some(v) => v,
            None => {
                return None;
            },
        };
        let (idf_num, end2) = match read_u64(b, end1) {
            Some(v) => v,
            None => {
                return None;
            },
        };
        let (idf_den, end3) = match read_u64(b, end2) {
            Some(v) => v,
            None => {
                return None;
            },
        };
        let (np, end4) = match read_u64(b, end3) {
            Some(v) => v,
            None => {
                return None;
            },
        };
        let (ps, end5) = match decode_postings(b, end4, np, Ghost(ps_of), Ghost(rest)) {
            Some(v) => v,
            None => {
                return None;
            },
        };
        let ghost old_ts = ts@;
        proof {
            lemma_join(bs, pos as int, end1 as int, end2 as int);
            lemma_join(bs, pos as int, end2 as int, end3 as int);
            lemma_join(bs, pos as int, end3 as int, end4 as int);
            lemma_join(bs, pos as int, end4 as int, end5 as int);
            lemma_join(bs, start as int, pos as int, end5 as int);
        }
        ts.push(TermStats { term, postings: ps, idf_num, idf_den });
        proof {
            let t = ts@.last();
            lemma_concat_push(old_ts, enc_term_fn(), t);
            assert(ts@ =~= old_ts.push(t));
            assert(bs.subrange(pos as int, end5 as int) =~= enc_term(t));
            assert(bs.subrange(start as int, end5 as int) =~= concat_all(ts@, enc_term_fn()));
        }
        pos = end5;
        k = k + 1;
    }
    proof {
        assert forall|x: Index| #[trigger] encodes(&x, bs) implies bs.subrange(pos as int, len) == tl(x) by {
            assert(x.terms@.skip(k as int) =~= Seq::<TermStats>::empty());
            assert(concat_all(x.terms@.skip(k as int), enc_term_fn()) + tl(x) =~= tl(x));
        }
    }
    Some((ts, pos))
}

/// Decodes an index. It succeeds exactly on the encodings of well-formed
/// indexes, and then gives back the index that was encoded.
#[verifier::rlimit(100)]
pub fn decode(b: &Vec<u8>) -> (r: Result<Index, DecodeError>)
    ensures
        r matches Ok(y) ==> encodes(&y, b@),
        forall|x: Index| #[trigger] encodes(&x, b@) ==> (r matches Ok(y) && same_index(&y, &x)),
{
    let ghost bs = b@;
    let ghost len = bs.len() as int;
    let ghost tl1 = |x: Index| enc_u64(x.terms@.len() as u64) + concat_all(x.terms@, enc_term_fn());
    proof {
        assert forall|x: Index| #[trigger] encodes(&x, bs) implies {
            &&& 21 <= len
            &&& bs.subrange(0, 5) == header()
            &&& bs.subrange(5, 13) == enc_u64(x.total_len)
            &&& bs.subrange(13, 21) == enc_u64(x.docs@.len() as u64)
            &&& bs.subrange(21, len) == concat_all(x.docs@, enc_doc_fn()) + tl1(x)
        } by {
            let r2 = concat_all(x.docs@, enc_doc_fn()) + tl1(x);
            let r1 = enc_u64(x.docs@.len() as u64) + r2;
            let r0 = enc_u64(x.total_len) + r1;
            assert(bs.subrange(0, len) =~= header() + r0);
            lemma_split_rest(bs, 0, header(), r0);
            lemma_split_rest(bs, 5, enc_u64(x.total_len), r1);
            lemma_split_rest(bs, 13, enc_u64(x.docs@.len() as u64), r2);
        }
    }
    if b.len() < 21 || b[0] != 0x42 || b[1] != 0x4d || b[2] != 0x32 || b[3] != 0x35 || b[4] != 0x01 {
        proof {
            assert forall|x: Index| #[trigger] encodes(&x, bs) implies false by {
                assert(bs.subrange(0, 5)[0] == bs[0]);
                assert(bs.subrange(0, 5)[1] == bs[1]);
                assert(bs.subrange(0, 5)[2] == bs[2]);
                assert(bs.subrange(0, 5)[3] == bs[3]);
                assert(bs.subrange(0, 5)[4] == bs[4]);
            }
        }
        return Err(DecodeError::Corrupt);
    }
    let (total, _) = match read_u64(b, 5) {
        Some(v) => v,
        None => {
            return Err(DecodeError::Corrupt);
        },
    };
    let (nd, _) = match read_u64(b, 13) {
        Some(v) => v,
        None => {
            return Err(DecodeError::Corrupt);
        },
    };
    proof {
        assert(bs.subrange(0, 5) =~= header());
        lemma_join(bs, 0, 5, 13);
        lemma_join(bs, 0, 13, 21);
        assert forall|x: Index| #[trigger] encodes(&x, bs) implies x.docs@.len() == nd by {
            assert(x.docs@.len() <= crate::index::MAX_DOCS);
        }
    }
    let (docs, end1) = match decode_docs(b, 21, nd, Ghost(tl1)) {
        Some(v) => v,
        None => {
            return Err(DecodeError::Corrupt);
        },
    };
    let ghost tl2 = |x: Index| Seq::<u8>::empty();
    proof {
        assert forall|x: Index| #[trigger] encodes(&x, bs) implies {
            &&& end1 + 8 <= len
            &&& bs.subrange(end1 as int, end1 + 8) == enc_u64(x.terms@.len() as u64)
            &&& bs.subrange(end1 + 8, len) == concat_all(x.terms@, enc_term_fn()) + Seq::<u8>::empty()
        } by {
            assert(tl1(x) =~= enc_u64(x.terms@.len() as u64) + (concat_all(x.terms@, enc_term_fn())
                + Seq::<u8>::empty()));
            lemma_split_rest(bs, end1 as int, enc_u64(x.terms@.len() as u64), concat_all(x.terms@, enc_term_fn())
                + Seq::<u8>::empty());
        }
    }
    let (nt, end2) = match read_u64(b, end1) {
        Some(v) => v,
        None => {
            return Err(DecodeError::Corrupt);
        },
    };
    proof {
        assert forall|x: Index| #[trigger] encodes(&x, bs) implies x.terms@.len() == nt && bs.subrange(
            end2 as int,
            len,
        ) == concat_all(x.terms@, enc_term_fn()) + tl2(x) by {
            let w = x.terms@.len() as u64;
            assert(bs.subrange(end1 as int, end1 + 8) == enc_u64(w));
            assert(nt == w);
            assert(x.terms.len() == x.terms@.len());
        }
    }
    let (terms, end3) = match decode_terms(b, end2, nt, Ghost(tl2)) {
        Some(v) => v,
        None => {
            return Err(DecodeError::Corrupt);
        },
    };
    if end3 != b.len() {
        proof {
            assert forall|x: Index| #[trigger] encodes(&x, bs) implies false by {
                assert(bs.subrange(end3 as int, len).len() == 0);
            }
        }
        return Err(DecodeError::Corrupt);
    }
    let ix = Index { docs, terms, total_len: total };
    proof {
        lemma_join(bs, 0, 21, end1 as int);
        lemma_join(bs, 0, end1 as int, end2 as int);
        lemma_join(bs, 0, end2 as int, end3 as int);
        assert(bs.subrange(0, len) =~= bs);
        assert(bs =~= enc_index(&ix));
        assert forall|x: Index| #[trigger] encodes(&x, bs) implies same_index(&ix, &x) by {}
    }
    if !ix.check() {
        proof {
            assert forall|x: Index| #[trigger] encodes(&x, bs) implies false by {
                lemma_same_wf(&ix, &x);
            }
        }
        return Err(DecodeError::Corrupt);
    }
    Ok(ix)
}

/// Decoding the encoding of a well-formed index gives back an index with the
/// same documents, terms, postings, idf values and total length.
pub proof fn lemma_round_trip(x: &Index, bytes: Seq<u8>, r: Result<Index, DecodeError>)
    requires
        x.wf(),
        bytes == enc_index(x),
        r matches Ok(y) ==> encodes(&y, bytes),
        forall|z: Index| #[trigger] encodes(&z, bytes) ==> (r matches Ok(y) && same_index(&y, &z)),
    ensures
        r matches Ok(y) && same_index(&y, x),
{
    assert(encodes(x, bytes));
}

} // verus!
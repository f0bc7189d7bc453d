use std::collections::HashMap;
use vstd::prelude::*;
use vstd::std_specs::hash::group_hash_axioms;
use vstd::string::StringSliceAdditionalSpecFns;
use vstd::utf8::encode_utf8;
use crate::tokenize::{doc_terms, string_views, tokenize};

verus! {

/// Most documents an index holds.
pub const MAX_DOCS: u64 = 0x100_0000_0000;

/// Most term occurrences, over all documents, that an index holds.
pub const MAX_TOKENS: u64 = 0x100_0000_0000;

/// One record of a corpus: a document id and the paths that make up its content.
pub struct Document {
    pub id: String,
    pub files: Vec<String>,
}

/// How often a term occurs in one document, the document given by its position in the corpus.
#[derive(Clone, Copy, Debug, PartialEq, Eq)]
pub struct Posting {
    pub doc: usize,
    pub tf: u64,
}

/// A term, its postings in increasing document order, and its inverse document
/// frequency, which is `ln(idf_num / idf_den)`.
#[derive(Debug)]
pub struct TermStats {
    pub term: String,
    pub postings: Vec<Posting>,
    pub idf_num: u64,
    pub idf_den: u64,
}

/// A document id and the number of terms in the document.
#[derive(Debug)]
pub struct DocEntry {
    pub id: String,
    pub len: u64,
}

/// The index over a corpus. Documents keep their corpus order.
#[derive(Debug)]
pub struct Index {
    pub docs: Vec<DocEntry>,
    pub terms: Vec<TermStats>,
    pub total_len: u64,
}

#[derive(Clone, Copy, Debug, PartialEq, Eq)]
pub enum BuildError {
    EmptyCorpus,
}

/// How often `t` occurs in `s`.
pub open spec fn count(s: Seq<Seq<char>>, t: Seq<char>) -> nat {
    s.filter(is_term(t)).len()
}

pub open spec fn is_term(t: Seq<char>) -> spec_fn(Seq<char>) -> bool {
    |x: Seq<char>| x == t
}

/// The terms of the `e`-th document of a corpus.
pub open spec fn terms_of(corpus: Seq<Document>, e: int) -> Seq<Seq<char>> {
    doc_terms(string_views(corpus[e].files@))
}

/// The terms of every document of a corpus.
pub open spec fn corpus_terms(corpus: Seq<Document>) -> Seq<Seq<Seq<char>>> {
    Seq::new(corpus.len(), |e: int| terms_of(corpus, e))
}

/// The number of term occurrences in a corpus.
pub open spec fn corpus_tokens(corpus: Seq<Document>) -> nat
    decreases corpus.len(),
{
    if corpus.len() == 0 {
        0
    } else {
        corpus_tokens(corpus.drop_last()) + terms_of(corpus, corpus.len() - 1).len()
    }
}

/// The sum of the lengths of the documents.
pub open spec fn sum_lens(docs: Seq<DocEntry>) -> nat
    decreases docs.len(),
{
    if docs.len() == 0 {
        0
    } else {
        sum_lens(docs.drop_last()) + docs.last().len as nat
    }
}

/// The idf of a term that `n_t` of `n` documents hold is
/// `ln((n - n_t + 1/2) / (n_t + 1/2) + 1)`, that is `ln((2n + 2) / (2n_t + 1))`.
pub open spec fn idf_num_of(n: nat) -> nat {
    2 * n + 2
}

pub open spec fn idf_den_of(n_t: nat) -> nat {
    2 * n_t + 1
}

pub open spec fn terms_unique(ts: Seq<TermStats>) -> bool {
    forall|a: int, b: int|
        0 <= a < b < ts.len() ==> #[trigger] ts[a].term@ != #[trigger] ts[b].term@
}

/// The postings of every term: non-empty, on documents below `n`, with
/// positive frequencies, in strictly increasing document order.
pub open spec fn postings_ordered(ts: Seq<TermStats>, n: nat) -> bool {
    &&& forall|k: int| 0 <= k < ts.len() ==> #[trigger] ts[k].postings@.len() > 0
    &&& forall|k: int, p: int|
        0 <= k < ts.len() && 0 <= p < ts[k].postings@.len() ==> {
            let q = #[trigger] ts[k].postings@[p];
            q.doc < n && q.tf > 0
        }
    &&& forall|k: int, p: int, r: int|
        0 <= k < ts.len() && 0 <= p < r < ts[k].postings@.len() ==> #[trigger] ts[k].postings@[p].doc
            < #[trigger] ts[k].postings@[r].doc
}

/// The postings record exactly the occurrences in `seen`, the terms of each document.
pub open spec fn postings_match(ts: Seq<TermStats>, seen: Seq<Seq<Seq<char>>>) -> bool {
    &&& forall|k: int, p: int|
        0 <= k < ts.len() && 0 <= p < ts[k].postings@.len() ==> {
            let q = #[trigger] ts[k].postings@[p];
            q.doc < seen.len() && q.tf == count(seen[q.doc as int], ts[k].term@)
        }
    &&& forall|e: int, t: Seq<char>|
        0 <= e < seen.len() && #[trigger] count(seen[e], t) > 0 ==> exists|k: int, p: int|
            0 <= k < ts.len() && 0 <= p < ts[k].postings@.len() && #[trigger] ts[k].term@ == t
                && #[trigger] ts[k].postings@[p].doc == e
}

impl Index {
    pub open spec fn n_docs(&self) -> nat {
        self.docs@.len()
    }

    /// The mean document length as a fraction: the sum of the lengths over
    /// the number of documents.
    pub fn avg_doc_len(&self) -> (r: (u64, u64))
        requires
            self.wf(),
        ensures
            r.0 == sum_lens(self.docs@),
            r.1 == self.n_docs(),
            r.1 > 0,
    {
        (self.total_len, self.docs.len() as u64)
    }

    /// The well-formedness of an index.
    pub open spec fn wf(&self) -> bool {
        let n = self.n_docs();
        &&& 0 < n <= MAX_DOCS
        &&& self.total_len <= MAX_TOKENS
        &&& self.total_len == sum_lens(self.docs@)
        &&& terms_unique(self.terms@)
        &&& postings_ordered(self.terms@, n)
        &&& forall|k: int, p: int|
            0 <= k < self.terms@.len() && 0 <= p < self.terms@[k].postings@.len() ==> {
                let q = #[trigger] self.terms@[k].postings@[p];
                q.tf <= self.docs@[q.doc as int].len
            }
        &&& forall|e: int| 0 <= e < n ==> #[trigger] self.docs@[e].len <= self.total_len
        &&& forall|k: int|
            0 <= k < self.terms@.len() ==> {
                let s = #[trigger] self.terms@[k];
                &&& s.idf_num == idf_num_of(n)
                &&& s.idf_den == idf_den_of(s.postings@.len())
            }
    }

    /// The index describes `corpus`: the documents in order, with their ids
    /// and lengths, and for each term the documents that hold it, with how often.
    pub open spec fn describes(&self, corpus: Seq<Document>) -> bool {
        &&& self.docs@.len() == corpus.len()
        &&& forall|e: int|
            0 <= e < corpus.len() ==> {
                &&& (#[trigger] self.docs@[e]).id@ == corpus[e].id@
                &&& self.docs@[e].len == terms_of(corpus, e).len()
            }
        &&& postings_match(self.terms@, corpus_terms(corpus))
    }
}

proof fn lemma_count_push(s: Seq<Seq<char>>, x: Seq<char>, y: Seq<char>)
    ensures
        count(s.push(x), y) == count(s, y) + if x == y { 1nat } else { 0nat },
{
    s.lemma_filter_push(x, is_term(y));
}

proof fn lemma_count_le_len(s: Seq<Seq<char>>, y: Seq<char>)
    ensures
        count(s, y) <= s.len(),
{
    s.lemma_filter_len(is_term(y));
}

pub(crate) fn find_term(ts: &Vec<TermStats>, t: &String) -> (r: Option<usize>)
    ensures
        match r {
            Some(k) => k < ts@.len() && ts@[k as int].term@ == t@,
            None => forall|k: int| 0 <= k < ts@.len() ==> ts@[k].term@ != t@,
        },
{
    let mut k: usize = 0;
    while k < ts.len()
        invariant
            k <= ts@.len(),
            forall|j: int| 0 <= j < k ==> ts@[j].term@ != t@,
        decreases ts.len() - k,
    {
        if ts[k].term == *t {
            return Some(k);
        }
        k += 1;
    }
    None
}

/// The modulus of the term hash, the prime `2^61 - 1`.
pub const HASH_MOD: u64 = 0x1fff_ffff_ffff_ffff;

/// A polynomial hash of bytes, base 31, modulo `HASH_MOD`.
pub open spec fn bytes_hash(s: Seq<u8>) -> u64
    decreases s.len(),
{
    if s.len() == 0 {
        0
    } else {
        ((bytes_hash(s.drop_last()) as int * 31 + s.last() as int) % HASH_MOD as int) as u64
    }
}

/// The hash of a term: the hash of its UTF-8 bytes.
pub open spec fn term_hash(t: Seq<char>) -> u64 {
    bytes_hash(encode_utf8(t))
}

fn hash_term(t: &String) -> (r: u64)
    ensures
        r == term_hash(t@),
{
    let bytes = t.as_str().as_bytes();
    let mut h: u64 = 0;
    let mut i: usize = 0;
    while i < bytes.len()
        invariant
            i <= bytes@.len(),
            bytes@ == encode_utf8(t@),
            h == bytes_hash(bytes@.take(i as int)),
            h < HASH_MOD,
        decreases bytes.len() - i,
    {
        proof {
            assert(bytes@.take(i + 1).drop_last() =~= bytes@.take(i as int));
            assert(bytes@.take(i + 1).last() == bytes@[i as int]);
        }
        h = ((h as u128 * 31 + bytes[i] as u128) % (HASH_MOD as u128)) as u64;
        i += 1;
    }
    proof {
        assert(bytes@.take(i as int) =~= bytes@);
    }
    h
}

/// Every term entry is listed in the bucket of the hash of its term.
pub open spec fn buckets_ok(m: Map<u64, Vec<usize>>, ts: Seq<TermStats>) -> bool {
    forall|k: int|
        0 <= k < ts.len() ==> m.contains_key(term_hash(#[trigger] ts[k].term@)) && m[term_hash(
            ts[k].term@,
        )]@.contains(k as usize)
}

fn find_term_hashed(ts: &Vec<TermStats>, buckets: &HashMap<u64, Vec<usize>>, t: &String, h: u64) -> (r: Option<usize>)
    requires
        buckets_ok(buckets@, ts@),
        h == term_hash(t@),
    ensures
        match r {
            Some(k) => k < ts@.len() && ts@[k as int].term@ == t@,
            None => forall|k: int| 0 <= k < ts@.len() ==> ts@[k].term@ != t@,
        },
{
    broadcast use group_hash_axioms;

    match buckets.get(&h) {
        None => {
            proof {
                assert forall|k: int| 0 <= k < ts@.len() implies ts@[k].term@ != t@ by {
                    if ts@[k].term@ == t@ {
                        assert(buckets@.contains_key(term_hash(ts@[k].term@)));
                    }
                }
            }
            None
        },
        Some(bucket) => {
            assert(buckets@.contains_key(h) && buckets@[h] == *bucket);
            let mut j: usize = 0;
            while j < bucket.len()
                invariant
                    buckets_ok(buckets@, ts@),
                    h == term_hash(t@),
                    buckets@.contains_key(h) && buckets@[h] == *bucket,
                    j <= bucket@.len(),
                    forall|m: int| 0 <= m < j ==> (#[trigger] bucket@[m]) >= ts@.len() || ts@[bucket@[m] as int].term@ != t@,
                decreases bucket.len() - j,
            {
                let k = bucket[j];
                if k < ts.len() && ts[k].term == *t {
                    return Some(k);
                }
                j += 1;
            }
            proof {
                assert forall|k: int| 0 <= k < ts@.len() implies ts@[k].term@ != t@ by {
                    if ts@[k].term@ == t@ {
                        assert(buckets@[term_hash(ts@[k].term@)]@.contains(k as usize));
                        assert(bucket@.contains(k as usize));
                        let m = choose|m: int| 0 <= m < bucket@.len() && bucket@[m] == k as usize;
                        assert(m < j);
                        assert(bucket@[m] >= ts@.len() || ts@[bucket@[m] as int].term@ != t@);
                        assert(k < ts.len());
                        assert(bucket@[m] as int == k);
                    }
                }
            }
            None
        },
    }
}

/// Lists a new term entry, the next one after `ts`, in the bucket of `h`.
fn add_to_bucket(buckets: &mut HashMap<u64, Vec<usize>>, Ghost(ts): Ghost<Seq<TermStats>>, n: usize, h: u64)
    requires
        buckets_ok(old(buckets)@, ts),
        n == ts.len(),
    ensures
        forall|e: TermStats|
            term_hash(e.term@) == h ==> #[trigger] buckets_ok(final(buckets)@, ts.push(e)),
{
    broadcast use group_hash_axioms;

    let ghost old_b = buckets@;
    let mut bucket = match buckets.remove(&h) {
        Some(v) => v,
        None => Vec::new(),
    };
    let ghost old_bucket = bucket@;
    bucket.push(n);
    buckets.insert(h, bucket);
    proof {
        assert forall|e: TermStats| term_hash(e.term@) == h implies #[trigger] buckets_ok(buckets@, ts.push(e)) by {
            let ts2 = ts.push(e);
            assert forall|k: int| 0 <= k < ts2.len() implies buckets@.contains_key(term_hash(#[trigger] ts2[k].term@))
                && buckets@[term_hash(ts2[k].term@)]@.contains(k as usize) by {
                if k == n {
                    assert(buckets@[h]@[old_bucket.len() as int] == n);
                } else {
                    assert(ts2[k] == ts[k]);
                    let hk = term_hash(ts[k].term@);
                    assert(old_b.contains_key(hk) && old_b[hk]@.contains(k as usize));
                    if hk == h {
                        assert(old_bucket == old_b[h]@);
                        let m = choose|m: int| 0 <= m < old_bucket.len() && old_bucket[m] == k as usize;
                        assert(buckets@[h]@[m] == k as usize);
                    }
                }
            }
        }
    }
}

/// Records one more occurrence of `t` in document `d`, the last document that
/// the postings reach.
fn add_occurrence(
    ts: &mut Vec<TermStats>,
    buckets: &mut HashMap<u64, Vec<usize>>,
    t: &String,
    d: usize,
    Ghost(seen): Ghost<Seq<Seq<Seq<char>>>>,
)
    requires
        buckets_ok(old(buckets)@, old(ts)@),
        d < seen.len(),
        seen[d as int].len() < MAX_TOKENS,
        terms_unique(old(ts)@),
        postings_ordered(old(ts)@, d as nat + 1),
        postings_match(old(ts)@, seen),
    ensures
        terms_unique(final(ts)@),
        postings_ordered(final(ts)@, d as nat + 1),
        postings_match(final(ts)@, seen.update(d as int, seen[d as int].push(t@))),
        buckets_ok(final(buckets)@, final(ts)@),
{
    let ghost seen2 = seen.update(d as int, seen[d as int].push(t@));
    let ghost old_ts = ts@;
    proof {
        assert forall|e: int, u: Seq<char>| 0 <= e < seen.len() && !(e == d && u == t@) implies
            #[trigger] count(seen2[e], u) == count(seen[e], u) by {
            lemma_count_push(seen[d as int], t@, u);
        }
        lemma_count_push(seen[d as int], t@, t@);
        lemma_count_le_len(seen[d as int], t@);
    }
    let h = hash_term(t);
    match find_term_hashed(ts, buckets, t, h) {
        None => {
            proof {
                if count(seen[d as int], t@) > 0 {
                    let (k, p) = choose|k: int, p: int|
                        0 <= k < old_ts.len() && 0 <= p < old_ts[k].postings@.len()
                            && #[trigger] old_ts[k].term@ == t@ && #[trigger] old_ts[k].postings@[p].doc
                            == d;
                    assert(old_ts[k].term@ != t@);
                }
            }
            let mut ps: Vec<Posting> = Vec::new();
            ps.push(Posting { doc: d, tf: 1 });
            add_to_bucket(buckets, Ghost(ts@), ts.len(), h);
            let e = TermStats { term: t.clone(), postings: ps, idf_num: 0, idf_den: 0 };
            let ghost ge = e;
            ts.push(e);
            proof {
                let n = old_ts.len() as int;
                assert(ts@ == old_ts.push(ge));
                assert(buckets_ok(buckets@, old_ts.push(ge)));
                assert forall|a: int, b: int| 0 <= a < b < ts@.len() implies #[trigger] ts@[a].term@
                    != #[trigger] ts@[b].term@ by {
                    if b < n {
                        assert(old_ts[a].term@ != old_ts[b].term@);
                    } else {
                        assert(old_ts[a].term@ != t@);
                    }
                }
                assert(ts@[n].postings@[0] == Posting { doc: d, tf: 1 });
                assert forall|e: int, u: Seq<char>|
                    0 <= e < seen2.len() && #[trigger] count(seen2[e], u) > 0 implies exists|k: int, p: int|
                        0 <= k < ts@.len() && 0 <= p < ts@[k].postings@.len() && #[trigger] ts@[k].term@
                            == u && #[trigger] ts@[k].postings@[p].doc == e by {
                    if e == d && u == t@ {
                        assert(ts@[n].term@ == u && ts@[n].postings@[0].doc == e);
                    } else {
                        let (k, p) = choose|k: int, p: int|
                            0 <= k < old_ts.len() && 0 <= p < old_ts[k].postings@.len()
                                && #[trigger] old_ts[k].term@ == u && #[trigger] old_ts[k].postings@[p].doc
                                == e;
                        assert(ts@[k] == old_ts[k]);
                    }
                }
            }
        },
        Some(k) => {
            let last = ts[k].postings.len() - 1;
            let q = ts[k].postings[last];
            if q.doc == d {
                ts[k].postings[last] = Posting { doc: d, tf: q.tf + 1 };
                proof {
                    assert forall|j: int| 0 <= j < ts@.len() implies buckets@.contains_key(term_hash(#[trigger] ts@[j].term@))
                        && buckets@[term_hash(ts@[j].term@)]@.contains(j as usize) by {
                        assert(ts@[j].term == old_ts[j].term);
                        assert(old_ts[j].term@ == ts@[j].term@);
                    }
                    assert forall|a: int, b: int| 0 <= a < b < ts@.len() implies #[trigger] ts@[a].term@
                        != #[trigger] ts@[b].term@ by {
                        assert(ts@[a].term == old_ts[a].term && ts@[b].term == old_ts[b].term);
                        assert(old_ts[a].term@ != old_ts[b].term@);
                    }
                    assert forall|e: int, u: Seq<char>|
                        0 <= e < seen2.len() && #[trigger] count(seen2[e], u) > 0 implies exists|
                            k2: int,
                            p: int,
                        |
                            0 <= k2 < ts@.len() && 0 <= p < ts@[k2].postings@.len()
                                && #[trigger] ts@[k2].term@ == u && #[trigger] ts@[k2].postings@[p].doc
                                == e by {
                        assert(ts@[k as int].term == old_ts[k as int].term);
                        if e == d && u == t@ {
                            assert(ts@[k as int].term@ == u && ts@[k as int].postings@[last as int].doc
                                == e);
                        } else {
                            let (k2, p) = choose|k2: int, p: int|
                                0 <= k2 < old_ts.len() && 0 <= p < old_ts[k2].postings@.len()
                                    && #[trigger] old_ts[k2].term@ == u
                                    && #[trigger] old_ts[k2].postings@[p].doc == e;
                            if k2 != k {
                                assert(ts@[k2] == old_ts[k2]);
                            }
                            assert(ts@[k2].term@ == u);
                            assert(ts@[k2].postings@[p].doc == e);
                        }
                    }
                }
            } else {
                proof {
                    if count(seen[d as int], t@) > 0 {
                        let (k2, p) = choose|k2: int, p: int|
                            0 <= k2 < old_ts.len() && 0 <= p < old_ts[k2].postings@.len()
                                && #[trigger] old_ts[k2].term@ == t@
                                && #[trigger] old_ts[k2].postings@[p].doc == d;
                        assert(k2 == k);
                        if p < last {
                            assert(old_ts[k2].postings@[p].doc < old_ts[k2].postings@[last as int].doc);
                        }
                    }
                }
                ts[k].postings.push(Posting { doc: d, tf: 1 });
                proof {
                    assert forall|j: int| 0 <= j < ts@.len() implies buckets@.contains_key(term_hash(#[trigger] ts@[j].term@))
                        && buckets@[term_hash(ts@[j].term@)]@.contains(j as usize) by {
                        assert(ts@[j].term == old_ts[j].term);
                        assert(old_ts[j].term@ == ts@[j].term@);
                    }
                    assert forall|a: int, b: int| 0 <= a < b < ts@.len() implies #[trigger] ts@[a].term@
                        != #[trigger] ts@[b].term@ by {
                        assert(ts@[a].term == old_ts[a].term && ts@[b].term == old_ts[b].term);
                        assert(old_ts[a].term@ != old_ts[b].term@);
                    }
                    assert forall|e: int, u: Seq<char>|
                        0 <= e < seen2.len() && #[trigger] count(seen2[e], u) > 0 implies exists|
                            k2: int,
                            p: int,
                        |
                            0 <= k2 < ts@.len() && 0 <= p < ts@[k2].postings@.len()
                                && #[trigger] ts@[k2].term@ == u && #[trigger] ts@[k2].postings@[p].doc
                                == e by {
                        assert(ts@[k as int].term == old_ts[k as int].term);
                        if e == d && u == t@ {
                            assert(ts@[k as int].term@ == u && ts@[k as int].postings@[last + 1].doc
                                == e);
                        } else {
                            let (k2, p) = choose|k2: int, p: int|
                                0 <= k2 < old_ts.len() && 0 <= p < old_ts[k2].postings@.len()
                                    && #[trigger] old_ts[k2].term@ == u
                                    && #[trigger] old_ts[k2].postings@[p].doc == e;
                            if k2 != k {
                                assert(ts@[k2] == old_ts[k2]);
                            }
                            assert(ts@[k2].term@ == u);
                            assert(ts@[k2].postings@[p].doc == e);
                        }
                    }
                }
            }
        },
    }
}

/// The terms seen when the first `d` documents have been read whole and
/// the first `j` terms of document `d`.
spec fn seen_at(corpus: Seq<Document>, d: int, j: int) -> Seq<Seq<Seq<char>>> {
    Seq::new(
        corpus.len(),
        |e: int|
            if e < d {
                terms_of(corpus, e)
            } else if e == d {
                terms_of(corpus, d).take(j)
            } else {
                Seq::empty()
            },
    )
}

proof fn lemma_corpus_tokens_step(c: Seq<Document>, d: int)
    requires
        0 <= d < c.len(),
    ensures
        corpus_tokens(c.take(d + 1)) == corpus_tokens(c.take(d)) + terms_of(c, d).len(),
{
    assert(c.take(d + 1).drop_last() =~= c.take(d));
}

proof fn lemma_corpus_tokens_prefix(c: Seq<Document>, d: int)
    requires
        0 <= d <= c.len(),
    ensures
        corpus_tokens(c.take(d)) <= corpus_tokens(c),
    decreases c.len(),
{
    if d == c.len() {
        assert(c.take(d) =~= c);
    } else {
        let c2 = c.drop_last();
        assert(c2.take(d) =~= c.take(d));
        assert forall|e: int| 0 <= e < c2.len() implies terms_of(c2, e) == terms_of(c, e) by {}
        lemma_corpus_tokens_prefix(c2, d);
    }
}

/// Postings in strictly increasing document order, on documents below `n`,
/// number at most `n`.
pub(crate) proof fn lemma_postings_len(ps: Seq<Posting>, n: nat)
    requires
        forall|p: int| 0 <= p < ps.len() ==> (#[trigger] ps[p]).doc < n,
        forall|p: int, r: int| 0 <= p < r < ps.len() ==> #[trigger] ps[p].doc < #[trigger] ps[r].doc,
    ensures
        ps.len() <= n,
    decreases ps.len(),
{
    if ps.len() > 0 {
        let last = ps.last();
        let rest = ps.drop_last();
        assert forall|p: int| 0 <= p < rest.len() implies (#[trigger] rest[p]).doc < last.doc by {
            assert(ps[p].doc < ps[ps.len() - 1].doc);
        }
        lemma_postings_len(rest, last.doc as nat);
    }
}

/// Builds the index of a corpus, which must hold at least one document.
pub fn build(corpus: &Vec<Document>) -> (r: Result<Index, BuildError>)
    requires
        corpus@.len() <= MAX_DOCS,
        corpus_tokens(corpus@) <= MAX_TOKENS,
    ensures
        corpus@.len() == 0 <==> r is Err,
        r is Err ==> r == Err::<Index, BuildError>(BuildError::EmptyCorpus),
        r matches Ok(ix) ==> ix.wf() && ix.describes(corpus@),
{
    let n = corpus.len();
    if n == 0 {
        return Err(BuildError::EmptyCorpus);
    }
    let ghost c = corpus@;
    let mut ts: Vec<TermStats> = Vec::new();
    let mut buckets: HashMap<u64, Vec<usize>> = HashMap::new();
    let mut docs: Vec<DocEntry> = Vec::new();
    let mut total: u64 = 0;
    let mut d: usize = 0;
    proof {
        assert(c.take(0) =~= Seq::<Document>::empty());
        assert(postings_match(ts@, seen_at(c, 0, 0)));
    }
    while d < n
        invariant
            n == c.len(),
            c == corpus@,
            n <= MAX_DOCS,
            corpus_tokens(c) <= MAX_TOKENS,
            d <= n,
            docs@.len() == d,
            forall|e: int|
                0 <= e < d ==> {
                    &&& (#[trigger] docs@[e]).id@ == c[e].id@
                    &&& docs@[e].len == terms_of(c, e).len()
                    &&& docs@[e].len <= total
                },
            total == sum_lens(docs@),
            total == corpus_tokens(c.take(d as int)),
            terms_unique(ts@),
            postings_ordered(ts@, d as nat),
            postings_match(ts@, seen_at(c, d as int, 0)),
            buckets_ok(buckets@, ts@),
        decreases n - d,
    {
        let toks = tokenize(&corpus[d].files);
        proof {
            lemma_corpus_tokens_step(c, d as int);
            lemma_corpus_tokens_prefix(c, d + 1);
            assert(seen_at(c, d as int, 0) =~= seen_at(c, d as int, 0));
        }
        let mut j: usize = 0;
        while j < toks.len()
            invariant
                n == c.len(),
                d < n,
                string_views(toks@) == terms_of(c, d as int),
                terms_of(c, d as int).len() <= MAX_TOKENS,
                j <= toks@.len(),
                terms_unique(ts@),
                postings_ordered(ts@, d as nat + 1),
                postings_match(ts@, seen_at(c, d as int, j as int)),
                buckets_ok(buckets@, ts@),
            decreases toks.len() - j,
        {
            let ghost seen = seen_at(c, d as int, j as int);
            proof {
                assert(string_views(toks@)[j as int] == toks@[j as int]@);
                assert(terms_of(c, d as int).take(j as int).push(toks@[j as int]@) =~= terms_of(
                    c,
                    d as int,
                ).take(j + 1));
                assert(seen.update(d as int, seen[d as int].push(toks@[j as int]@)) =~= seen_at(
                    c,
                    d as int,
                    j + 1,
                ));
            }
            add_occurrence(&mut ts, &mut buckets, &toks[j], d, Ghost(seen));
            j += 1;
        }
        proof {
            assert(string_views(toks@).len() == toks@.len());
            assert(terms_of(c, d as int).take(j as int) =~= terms_of(c, d as int));
            assert forall|e: int| 0 <= e < n implies #[trigger] seen_at(c, d as int, j as int)[e]
                == seen_at(c, d + 1, 0)[e] by {
                if e == d + 1 {
                    assert(terms_of(c, e).take(0) =~= Seq::<Seq<char>>::empty());
                }
            }
            assert(seen_at(c, d as int, j as int) =~= seen_at(c, d + 1, 0));
            assert(toks@.len() == terms_of(c, d as int).len());
        }
        let ghost old_docs = docs@;
        docs.push(DocEntry { id: corpus[d].id.clone(), len: toks.len() as u64 });
        total = total + toks.len() as u64;
        proof {
            assert(docs@.drop_last() =~= old_docs);
        }
        d += 1;
    }
    proof {
        assert(seen_at(c, n as int, 0) =~= corpus_terms(c));
    }
    let ghost ts0 = ts@;
    let mut k: usize = 0;
    while k < ts.len()
        invariant
            n == c.len(),
            0 < n <= MAX_DOCS,
            ts@.len() == ts0.len(),
            k <= ts@.len(),
            postings_ordered(ts0, n as nat),
            forall|i: int|
                0 <= i < ts@.len() ==> (#[trigger] ts@[i]).term == ts0[i].term && ts@[i].postings
                    == ts0[i].postings,
            forall|i: int|
                0 <= i < k ==> {
                    &&& (#[trigger] ts@[i]).idf_num == idf_num_of(n as nat)
                    &&& ts@[i].idf_den == idf_den_of(ts@[i].postings@.len())
                },
        decreases ts.len() - k,
    {
        let m = ts[k].postings.len();
        proof {
            let ps = ts0[k as int].postings@;
            assert forall|p: int| 0 <= p < ps.len() implies (#[trigger] ps[p]).doc < n by {
                assert(ts0[k as int].postings@[p].doc < n);
            }
            assert forall|p: int, r: int| 0 <= p < r < ps.len() implies #[trigger] ps[p].doc
                < #[trigger] ps[r].doc by {
                assert(ts0[k as int].postings@[p].doc < ts0[k as int].postings@[r].doc);
            }
            lemma_postings_len(ps, n as nat);
        }
        ts[k].idf_num = 2 * (n as u64) + 2;
        ts[k].idf_den = 2 * (m as u64) + 1;
        k += 1;
    }
    let ix = Index { docs, terms: ts, total_len: total };
    proof {
        assert(ix.terms@ =~= ix.terms@);
        assert forall|a: int, b: int| 0 <= a < b < ix.terms@.len() implies #[trigger] ix.terms@[a].term@
            != #[trigger] ix.terms@[b].term@ by {
            assert(ts0[a].term@ != ts0[b].term@);
        }
        assert forall|kk: int, p: int|
            0 <= kk < ix.terms@.len() && 0 <= p < ix.terms@[kk].postings@.len() implies {
                let q = #[trigger] ix.terms@[kk].postings@[p];
                q.tf <= ix.docs@[q.doc as int].len
            } by {
            let q = ts0[kk].postings@[p];
            lemma_count_le_len(terms_of(c, q.doc as int), ts0[kk].term@);
        }
        assert(c.take(n as int) =~= c);
        assert(terms_unique(ix.terms@));
        assert(postings_ordered(ix.terms@, n as nat));
        assert(ix.wf());
        let ct = corpus_terms(c);
        assert(postings_match(ts0, ct));
        assert forall|kk: int, p: int|
            0 <= kk < ix.terms@.len() && 0 <= p < ix.terms@[kk].postings@.len() implies {
                let q = #[trigger] ix.terms@[kk].postings@[p];
                q.doc < ct.len() && q.tf == count(ct[q.doc as int], ix.terms@[kk].term@)
            } by {
            assert(ix.terms@[kk].postings@[p] == ts0[kk].postings@[p]);
        }
        assert forall|e: int, t: Seq<char>|
            0 <= e < ct.len() && #[trigger] count(ct[e], t) > 0 implies exists|kk: int, p: int|
                0 <= kk < ix.terms@.len() && 0 <= p < ix.terms@[kk].postings@.len()
                    && #[trigger] ix.terms@[kk].term@ == t && #[trigger] ix.terms@[kk].postings@[p].doc
                    == e by {
            let (kk, p) = choose|kk: int, p: int|
                0 <= kk < ts0.len() && 0 <= p < ts0[kk].postings@.len() && #[trigger] ts0[kk].term@ == t
                    && #[trigger] ts0[kk].postings@[p].doc == e;
            assert(ix.terms@[kk].term == ts0[kk].term);
            assert(ix.terms@[kk].postings@[p] == ts0[kk].postings@[p]);
        }
        assert(postings_match(ix.terms@, ct));
        assert(ix.describes(c));
    }
    Ok(ix)
}

proof fn lemma_sum_lens_step(s: Seq<DocEntry>, i: int)
    requires
        0 <= i < s.len(),
    ensures
        sum_lens(s.take(i + 1)) == sum_lens(s.take(i)) + s[i].len,
{
    assert(s.take(i + 1).drop_last() =~= s.take(i));
}

proof fn lemma_sum_lens_prefix(s: Seq<DocEntry>, i: int)
    requires
        0 <= i <= s.len(),
    ensures
        sum_lens(s.take(i)) <= sum_lens(s),
    decreases s.len(),
{
    if i == s.len() {
        assert(s.take(i) =~= s);
    } else {
        assert(s.drop_last().take(i) =~= s.take(i));
        lemma_sum_lens_prefix(s.drop_last(), i);
    }
}

proof fn lemma_increasing(ps: Seq<Posting>)
    requires
        forall|p: int| 0 < p < ps.len() ==> #[trigger] ps[p - 1].doc < ps[p].doc,
    ensures
        forall|p: int, r: int| 0 <= p < r < ps.len() ==> #[trigger] ps[p].doc < #[trigger] ps[r].doc,
    decreases ps.len(),
{
    if ps.len() > 0 {
        let dl = ps.drop_last();
        assert forall|p: int| 0 < p < dl.len() implies #[trigger] dl[p - 1].doc < dl[p].doc by {
            assert(ps[p - 1].doc < ps[p].doc);
        }
        lemma_increasing(dl);
        assert forall|p: int, r: int| 0 <= p < r < ps.len() implies #[trigger] ps[p].doc < #[trigger] ps[r].doc by {
            if r < ps.len() - 1 {
                assert(dl[p].doc < dl[r].doc);
            } else if p < r - 1 {
                assert(dl[p].doc < dl[r - 1].doc);
                assert(ps[r - 1].doc < ps[r].doc);
            } else {
                assert(ps[r - 1].doc < ps[r].doc);
            }
        }
    }
}

impl Index {
    /// Tells whether the index is well-formed.
    pub fn check(&self) -> (r: bool)
        ensures
            r == self.wf(),
    {
        let n = self.docs.len();
        if n == 0 || n as u64 > MAX_DOCS || self.total_len > MAX_TOKENS {
            return false;
        }
        let mut sum: u64 = 0;
        let mut i: usize = 0;
        while i < n
            invariant
                n == self.docs@.len(),
                i <= n,
                self.total_len <= MAX_TOKENS,
                sum == sum_lens(self.docs@.take(i as int)),
                sum <= MAX_TOKENS,
                forall|e: int| 0 <= e < i ==> #[trigger] self.docs@[e].len <= self.total_len,
            decreases n - i,
        {
            let len = self.docs[i].len;
            proof {
                lemma_sum_lens_step(self.docs@, i as int);
                lemma_sum_lens_prefix(self.docs@, i + 1);
            }
            if len > self.total_len || len > MAX_TOKENS - sum {
                return false;
            }
            sum = sum + len;
            i += 1;
        }
        proof {
            assert(self.docs@.take(n as int) =~= self.docs@);
        }
        if sum != self.total_len {
            return false;
        }
        let ghost ts = self.terms@;
        let t = self.terms.len();
        let mut a: usize = 0;
        while a < t
            invariant
                t == ts.len(),
                ts == self.terms@,
                a <= t,
                forall|x: int, y: int| 0 <= x < y < ts.len() && x < a ==> #[trigger] ts[x].term@ != #[trigger] ts[y].term@,
            decreases t - a,
        {
            let mut c: usize = a + 1;
            while c < t
                invariant
                    t == ts.len(),
                    ts == self.terms@,
                    a < t,
                    a + 1 <= c <= t,
                    forall|x: int, y: int| 0 <= x < y < ts.len() && x < a ==> #[trigger] ts[x].term@ != #[trigger] ts[y].term@,
                    forall|y: int| a < y < c ==> ts[a as int].term@ != #[trigger] ts[y].term@,
                decreases t - c,
            {
                if self.terms[a].term == self.terms[c].term {
                    return false;
                }
                c += 1;
            }
            a += 1;
        }
        let mut k: usize = 0;
        while k < t
            invariant
                n == self.docs@.len(),
                0 < n <= MAX_DOCS,
                t == ts.len(),
                ts == self.terms@,
                k <= t,
                forall|j: int| 0 <= j < k ==> #[trigger] ts[j].postings@.len() > 0,
                forall|j: int, p: int|
                    0 <= j < k && 0 <= p < ts[j].postings@.len() ==> {
                        let q = #[trigger] ts[j].postings@[p];
                        q.doc < n && q.tf > 0 && q.tf <= self.docs@[q.doc as int].len
                    },
                forall|j: int, p: int, r: int|
                    0 <= j < k && 0 <= p < r < ts[j].postings@.len() ==> #[trigger] ts[j].postings@[p].doc
                        < #[trigger] ts[j].postings@[r].doc,
                forall|j: int|
                    0 <= j < k ==> {
                        let s = #[trigger] ts[j];
                        &&& s.idf_num == idf_num_of(n as nat)
                        &&& s.idf_den == idf_den_of(s.postings@.len())
                    },
            decreases t - k,
        {
            let ps = &self.terms[k].postings;
            let m = ps.len();
            if m == 0 {
                return false;
            }
            let mut p: usize = 0;
            while p < m
                invariant
                    n == self.docs@.len(),
                    m == ps@.len(),
                    k < ts.len(),
                    ts == self.terms@,
                    ps@ == ts[k as int].postings@,
                    p <= m,
                    forall|x: int| 0 <= x < p ==> {
                        let q = #[trigger] ps@[x];
                        q.doc < n && q.tf > 0 && q.tf <= self.docs@[q.doc as int].len
                    },
                    forall|x: int| 0 < x < p ==> #[trigger] ps@[x - 1].doc < ps@[x].doc,
                decreases m - p,
            {
                let q = ps[p];
                if q.doc >= n || q.tf == 0 || q.tf > self.docs[q.doc].len {
                    proof {
                        assert(self.terms@[k as int].postings@[p as int] == q);
                        assert(!postings_ordered(self.terms@, n as nat) || !(q.tf <= self.docs@[q.doc as int].len));
                    }
                    return false;
                }
                if p > 0 && ps[p - 1].doc >= q.doc {
                    proof {
                        let pp = (p - 1) as int;
                        assert(self.terms@[k as int].postings@[pp].doc >= self.terms@[k as int].postings@[p as int].doc);
                        assert(!postings_ordered(self.terms@, n as nat));
                    }
                    return false;
                }
                p += 1;
            }
            proof {
                lemma_increasing(ps@);
                lemma_postings_len(ps@, n as nat);
            }
            if self.terms[k].idf_num != 2 * (n as u64) + 2 || self.terms[k].idf_den != 2 * (m as u64) + 1 {
                return false;
            }
            k += 1;
        }
        true
    }
}

/// The documents of a corpus that hold the term `t`.
pub open spec fn docs_holding(corpus: Seq<Document>, t: Seq<char>) -> Set<int> {
    Set::new(|e: int| 0 <= e < corpus.len() && count(terms_of(corpus, e), t) > 0)
}

/// The idf of every term of an index built from a corpus is
/// `ln((2N + 2) / (2 n_t + 1))`, with `N` the number of documents of the corpus
/// and `n_t` the number of them that hold the term.
pub proof fn lemma_idf_document_frequency(ix: &Index, corpus: Seq<Document>, k: int)
    requires
        ix.wf(),
        ix.describes(corpus),
        0 <= k < ix.terms@.len(),
    ensures
        ix.terms@[k].idf_num == idf_num_of(corpus.len()),
        ix.terms@[k].idf_den == idf_den_of(docs_holding(corpus, ix.terms@[k].term@).len()),
{
    let t = ix.terms@[k].term@;
    let ps = ix.terms@[k].postings@;
    let ds = ps.map_values(|q: Posting| q.doc as int);
    let held = docs_holding(corpus, t);
    let ct = corpus_terms(corpus);
    assert(ds.no_duplicates()) by {
        assert forall|a: int, b: int| 0 <= a < ds.len() && 0 <= b < ds.len() && a != b implies ds[a] != ds[b] by {
            if a < b {
                assert(ps[a].doc < ps[b].doc);
            } else {
                assert(ps[b].doc < ps[a].doc);
            }
        }
    }
    assert forall|e: int| #[trigger] ds.to_set().contains(e) <==> held.contains(e) by {
        if ds.to_set().contains(e) {
            assert(ds.contains(e));
            let p = choose|p: int| 0 <= p < ds.len() && ds[p] == e;
            assert(ps[p].tf == count(ct[ps[p].doc as int], t));
            assert(ct[e] == terms_of(corpus, e));
        }
        if held.contains(e) {
            assert(ct[e] == terms_of(corpus, e));
            assert(count(ct[e], t) > 0);
            let (k2, p) = choose|k2: int, p: int|
                0 <= k2 < ix.terms@.len() && 0 <= p < ix.terms@[k2].postings@.len() && #[trigger] ix.terms@[k2].term@
                    == t && #[trigger] ix.terms@[k2].postings@[p].doc == e;
            if k2 < k {
                assert(ix.terms@[k2].term@ != ix.terms@[k].term@);
            } else if k2 > k {
                assert(ix.terms@[k].term@ != ix.terms@[k2].term@);
            }
            assert(ds[p] == e);
            assert(ds.contains(e));
        }
    }
    assert(ds.to_set() =~= held);
    ds.unique_seq_to_set();
}

} // verus!

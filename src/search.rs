use vstd::prelude::*;
use crate::index::{find_term, idf_den_of, idf_num_of, lemma_postings_len, Index, TermStats, MAX_DOCS, MAX_TOKENS};
use crate::tokenize::string_views;

verus! {

/// The BM25 saturation parameter k1 = 8/5.
pub const K1_NUM: u128 = 8;
pub const K1_DEN: u128 = 5;

/// The BM25 length normalisation b = 3/4.
pub const B_NUM: u128 = 3;
pub const B_DEN: u128 = 4;

/// The BM25 weight of a term that occurs `tf` times in a document of `dl`
/// terms, in a corpus of `n` documents and `total` terms, is
/// `tf (k1 + 1) / (tf + k1 (1 - b + b dl / avgdl))` with `avgdl = total / n`.
/// Multiplied above and below by `K1_DEN * B_DEN * total`, it is
/// `weight_num / weight_den`.
pub open spec fn weight_num(tf: nat, dl: nat, n: nat, total: nat) -> nat {
    tf * ((K1_NUM + K1_DEN) * B_DEN) as nat * total
}

pub open spec fn weight_den(tf: nat, dl: nat, n: nat, total: nat) -> nat {
    tf * (K1_DEN * B_DEN) as nat * total + K1_NUM as nat * ((B_DEN - B_NUM) as nat * total + B_NUM as nat
        * dl * n)
}

/// What one posting of one query term adds to a document's score:
/// `ln(idf_num / idf_den) * weight_num / weight_den`.
#[derive(Clone, Copy, Debug, PartialEq, Eq)]
pub struct Contribution {
    pub doc: usize,
    pub idf_num: u64,
    pub idf_den: u64,
    pub weight_num: u128,
    pub weight_den: u128,
}

/// The scoring of a query. The score of a document is the sum of the
/// contributions on it divided by `query_len`; the documents in `matched`
/// are those that receive any contribution.
#[derive(Debug)]
pub struct Plan {
    pub terms: Vec<usize>,
    pub contributions: Vec<Contribution>,
    pub matched: Vec<usize>,
    pub query_len: usize,
}

#[derive(Clone, Copy, Debug, PartialEq, Eq)]
pub enum SearchError {
    EmptyQuery,
}

pub open spec fn has_term(ts: Seq<TermStats>, t: Seq<char>) -> bool {
    exists|k: int| 0 <= k < ts.len() && #[trigger] ts[k].term@ == t
}

/// The distinct terms of a query that the index holds, in the order in which
/// they first occur in the query.
pub open spec fn used_terms(ts: Seq<TermStats>, q: Seq<Seq<char>>) -> Seq<Seq<char>>
    decreases q.len(),
{
    if q.len() == 0 {
        Seq::empty()
    } else {
        let s = used_terms(ts, q.drop_last());
        if has_term(ts, q.last()) && !s.contains(q.last()) {
            s.push(q.last())
        } else {
            s
        }
    }
}

impl Index {
    pub open spec fn contribution(&self, k: int, p: int) -> Contribution {
        let s = self.terms@[k];
        let q = s.postings@[p];
        Contribution {
            doc: q.doc,
            idf_num: s.idf_num,
            idf_den: s.idf_den,
            weight_num: weight_num(
                q.tf as nat,
                self.docs@[q.doc as int].len as nat,
                self.n_docs(),
                self.total_len as nat,
            ) as u128,
            weight_den: weight_den(
                q.tf as nat,
                self.docs@[q.doc as int].len as nat,
                self.n_docs(),
                self.total_len as nat,
            ) as u128,
        }
    }

    /// The contributions of the postings of term entry `k`, in posting order.
    pub open spec fn term_contributions(&self, k: int) -> Seq<Contribution> {
        Seq::new(self.terms@[k].postings@.len(), |p: int| self.contribution(k, p))
    }

    /// The contributions of the term entries `ks`, one entry after another.
    pub open spec fn contributions(&self, ks: Seq<usize>) -> Seq<Contribution>
        decreases ks.len(),
    {
        if ks.len() == 0 {
            Seq::empty()
        } else {
            self.contributions(ks.drop_last()) + self.term_contributions(ks.last() as int)
        }
    }
}

/// The BM25 weight as a fraction, `weight_num / weight_den`.
pub fn bm25_weight(tf: u64, dl: u64, n: u64, total: u64) -> (r: (u128, u128))
    requires
        tf <= total <= MAX_TOKENS,
        dl <= MAX_TOKENS,
        n <= MAX_DOCS,
    ensures
        r.0 == weight_num(tf as nat, dl as nat, n as nat, total as nat),
        r.1 == weight_den(tf as nat, dl as nat, n as nat, total as nat),
{
    let tf = tf as u128;
    let dl = dl as u128;
    let n = n as u128;
    let total = total as u128;
    proof {
        assert(tf * total <= 0x100_0000_0000 * 0x100_0000_0000) by (nonlinear_arith)
            requires
                tf <= 0x100_0000_0000,
                total <= 0x100_0000_0000,
        ;
        assert(dl * n <= 0x100_0000_0000 * 0x100_0000_0000) by (nonlinear_arith)
            requires
                dl <= 0x100_0000_0000,
                n <= 0x100_0000_0000,
        ;
    }
    let tt = tf * total;
    let dn = dl * n;
    let num = tt * ((K1_NUM + K1_DEN) * B_DEN);
    let den = tt * (K1_DEN * B_DEN) + K1_NUM * ((B_DEN - B_NUM) * total + B_NUM * dn);
    proof {
        assert(num == tf * ((K1_NUM + K1_DEN) * B_DEN) * total) by (nonlinear_arith)
            requires
                tt == tf * total,
                num == tt * ((K1_NUM + K1_DEN) * B_DEN),
        ;
        assert(den == tf * (K1_DEN * B_DEN) * total + K1_NUM * ((B_DEN - B_NUM) * total + B_NUM * dl
            * n)) by (nonlinear_arith)
            requires
                tt == tf * total,
                dn == dl * n,
                den == tt * (K1_DEN * B_DEN) + K1_NUM * ((B_DEN - B_NUM) * total + B_NUM * dn),
        ;
    }
    (num, den)
}

/// The term entries of the distinct query terms that the index holds, in the
/// order in which they first occur in the query.
fn select_terms(index: &Index, terms: &Vec<String>) -> (r: Vec<usize>)
    requires
        index.wf(),
    ensures
        r@.len() == used_terms(index.terms@, string_views(terms@)).len(),
        forall|i: int|
            0 <= i < r@.len() ==> (#[trigger] r@[i]) < index.terms@.len() && index.terms@[r@[i] as int].term@
                == used_terms(index.terms@, string_views(terms@))[i],
{
    let ghost ts = index.terms@;
    let ghost q = string_views(terms@);
    let mut used: Vec<usize> = Vec::new();
    let mut i: usize = 0;
    while i < terms.len()
        invariant
            index.wf(),
            ts == index.terms@,
            q == string_views(terms@),
            i <= terms@.len(),
            used@.len() == used_terms(ts, q.take(i as int)).len(),
            forall|j: int|
                0 <= j < used@.len() ==> (#[trigger] used@[j]) < ts.len() && ts[used@[j] as int].term@
                    == used_terms(ts, q.take(i as int))[j],
        decreases terms.len() - i,
    {
        let ghost s = used_terms(ts, q.take(i as int));
        proof {
            assert(q.take(i + 1).drop_last() =~= q.take(i as int));
            assert(q.take(i + 1).last() == terms@[i as int]@);
        }
        match find_term(&index.terms, &terms[i]) {
            None => {
                proof {
                    if has_term(ts, terms@[i as int]@) {
                        let k = choose|k: int| 0 <= k < ts.len() && #[trigger] ts[k].term@ == terms@[i as int]@;
                        assert(ts[k].term@ != terms@[i as int]@);
                    }
                }
            },
            Some(k) => {
                let mut j: usize = 0;
                let mut seen = false;
                while j < used.len()
                    invariant
                        j <= used@.len(),
                        !seen ==> forall|m: int| 0 <= m < j ==> used@[m] != k,
                        seen ==> used@.contains(k),
                    decreases used.len() - j,
                {
                    if used[j] == k {
                        seen = true;
                    }
                    j += 1;
                }
                proof {
                    let t = terms@[i as int]@;
                    assert(has_term(ts, t));
                    if seen {
                        let m = choose|m: int| 0 <= m < used@.len() && used@[m] == k;
                        assert(s[m] == t);
                    } else if s.contains(t) {
                        let m = choose|m: int| 0 <= m < s.len() && s[m] == t;
                        assert(ts[used@[m] as int].term@ == ts[k as int].term@);
                        if (used@[m] as int) < (k as int) {
                            assert(ts[used@[m] as int].term@ != ts[k as int].term@);
                        } else if (used@[m] as int) > (k as int) {
                            assert(ts[k as int].term@ != ts[used@[m] as int].term@);
                        }
                    }
                }
                if !seen {
                    used.push(k);
                }
            },
        }
        i += 1;
    }
    proof {
        assert(q.take(i as int) =~= q);
    }
    used
}

/// Scores a query against an index: every distinct query term that the index
/// holds contributes, for each document that holds it, `idf * weight`; terms
/// that the index does not hold contribute nothing. An empty query is refused.
pub fn search(index: &Index, terms: &Vec<String>) -> (r: Result<Plan, SearchError>)
    requires
        index.wf(),
    ensures
        terms@.len() == 0 <==> r is Err,
        r is Err ==> r == Err::<Plan, SearchError>(SearchError::EmptyQuery),
        r matches Ok(plan) ==> {
            let used = used_terms(index.terms@, string_views(terms@));
            &&& plan.query_len == terms@.len()
            &&& plan.terms@.len() == used.len()
            &&& forall|i: int|
                0 <= i < used.len() ==> (#[trigger] plan.terms@[i]) < index.terms@.len()
                    && index.terms@[plan.terms@[i] as int].term@ == used[i]
            &&& plan.contributions@ == index.contributions(plan.terms@)
            &&& forall|i: int, j: int|
                0 <= i < j < plan.matched@.len() ==> #[trigger] plan.matched@[i] < #[trigger] plan.matched@[j]
            &&& forall|d: usize|
                #[trigger] plan.matched@.contains(d) <==> exists|j: int|
                    0 <= j < plan.contributions@.len() && #[trigger] plan.contributions@[j].doc == d
        },
{
    if terms.len() == 0 {
        return Err(SearchError::EmptyQuery);
    }
    let used = select_terms(index, terms);
    let n = index.docs.len();
    let mut contributions: Vec<Contribution> = Vec::new();
    let mut i: usize = 0;
    while i < used.len()
        invariant
            index.wf(),
            n == index.n_docs(),
            i <= used@.len(),
            forall|j: int| 0 <= j < used@.len() ==> (#[trigger] used@[j]) < index.terms@.len(),
            contributions@ == index.contributions(used@.take(i as int)),
            forall|c: int| 0 <= c < contributions@.len() ==> (#[trigger] contributions@[c]).doc < n,
        decreases used.len() - i,
    {
        let k = used[i];
        let ghost before = contributions@;
        let mut p: usize = 0;
        while p < index.terms[k].postings.len()
            invariant
                index.wf(),
                n == index.n_docs(),
                k < index.terms@.len(),
                p <= index.terms@[k as int].postings@.len(),
                contributions@ == before + index.term_contributions(k as int).take(p as int),
                forall|c: int| 0 <= c < contributions@.len() ==> (#[trigger] contributions@[c]).doc < n,
            decreases index.terms@[k as int].postings@.len() - p,
        {
            let s = &index.terms[k];
            let q = s.postings[p];
            let dl = index.docs[q.doc].len;
            proof {
                assert(q.doc < n);
                assert(q.tf <= index.docs@[q.doc as int].len);
                assert(index.docs@[q.doc as int].len <= index.total_len);
            }
            let (wn, wd) = bm25_weight(q.tf, dl, n as u64, index.total_len);
            contributions.push(
                Contribution {
                    doc: q.doc,
                    idf_num: s.idf_num,
                    idf_den: s.idf_den,
                    weight_num: wn,
                    weight_den: wd,
                },
            );
            proof {
                assert(contributions@ =~= before + index.term_contributions(k as int).take(p + 1));
            }
            p += 1;
        }
        proof {
            assert(index.term_contributions(k as int).take(p as int) =~= index.term_contributions(k as int));
            assert(used@.take(i + 1).drop_last() =~= used@.take(i as int));
        }
        i += 1;
    }
    proof {
        assert(used@.take(i as int) =~= used@);
    }
    let mut marks: Vec<bool> = Vec::new();
    let mut d: usize = 0;
    while d < n
        invariant
            d <= n,
            marks@.len() == d,
            forall|e: int| 0 <= e < d ==> !(#[trigger] marks@[e]),
        decreases n - d,
    {
        marks.push(false);
        d += 1;
    }
    let mut j: usize = 0;
    while j < contributions.len()
        invariant
            index.wf(),
            n == index.n_docs(),
            marks@.len() == n,
            j <= contributions@.len(),
            contributions@ == index.contributions(used@),
            forall|c: int| 0 <= c < contributions@.len() ==> (#[trigger] contributions@[c]).doc < n,
            forall|e: int|
                0 <= e < n ==> (#[trigger] marks@[e] <==> exists|c: int|
                    0 <= c < j && #[trigger] contributions@[c].doc == e),
        decreases contributions.len() - j,
    {
        let e = contributions[j].doc;
        marks[e] = true;
        j += 1;
    }
    let mut matched: Vec<usize> = Vec::new();
    let mut e: usize = 0;
    while e < n
        invariant
            e <= n,
            marks@.len() == n,
            forall|a: int, b: int| 0 <= a < b < matched@.len() ==> #[trigger] matched@[a] < #[trigger] matched@[b],
            forall|a: int| 0 <= a < matched@.len() ==> #[trigger] matched@[a] < e,
            forall|x: usize| #[trigger] matched@.contains(x) <==> (x < e && marks@[x as int]),
        decreases n - e,
    {
        if marks[e] {
            let ghost old_m = matched@;
            matched.push(e);
            proof {
                assert forall|x: usize| #[trigger] matched@.contains(x) <==> (old_m.contains(x) || x == e) by {
                    if x == e {
                        assert(matched@[old_m.len() as int] == e);
                    } else if matched@.contains(x) {
                        let m = choose|m: int| 0 <= m < matched@.len() && matched@[m] == x;
                        assert(old_m[m] == x);
                    } else if old_m.contains(x) {
                        let m = choose|m: int| 0 <= m < old_m.len() && old_m[m] == x;
                        assert(matched@[m] == x);
                    }
                }
            }
        }
        e += 1;
    }
    proof {
        assert forall|x: usize| #[trigger] matched@.contains(x) <==> exists|c: int|
            0 <= c < contributions@.len() && #[trigger] contributions@[c].doc == x by {
            if x < n {
                assert(marks@[x as int] <==> exists|c: int|
                    0 <= c < contributions@.len() && #[trigger] contributions@[c].doc == x);
            } else {
                if exists|c: int| 0 <= c < contributions@.len() && #[trigger] contributions@[c].doc == x {
                    let c = choose|c: int| 0 <= c < contributions@.len() && #[trigger] contributions@[c].doc == x;
                    assert(contributions@[c].doc < n);
                }
            }
        }
    }
    Ok(Plan { terms: used, contributions, matched, query_len: terms.len() })
}

/// With the document's length and the corpus fixed, a document in which a
/// term occurs more often gets a strictly larger weight for it:
/// `weight(tf1) < weight(tf2)` for `tf1 < tf2`, compared as fractions.
pub proof fn lemma_weight_monotone(tf1: nat, tf2: nat, dl: nat, n: nat, total: nat)
    requires
        0 < tf1 < tf2,
        0 < total,
    ensures
        weight_den(tf1, dl, n, total) > 0,
        weight_den(tf2, dl, n, total) > 0,
        weight_num(tf1, dl, n, total) * weight_den(tf2, dl, n, total) < weight_num(tf2, dl, n, total)
            * weight_den(tf1, dl, n, total),
{
    let dn = dl * n;
    let a = 52 * total;
    let c = 20 * total;
    let e = 8 * (total + 3 * dn);
    assert(weight_num(tf1, dl, n, total) == tf1 * a) by (nonlinear_arith)
        requires
            a == 52 * total,
            weight_num(tf1, dl, n, total) == tf1 * 52 * total,
    ;
    assert(weight_num(tf2, dl, n, total) == tf2 * a) by (nonlinear_arith)
        requires
            a == 52 * total,
            weight_num(tf2, dl, n, total) == tf2 * 52 * total,
    ;
    assert(weight_den(tf1, dl, n, total) == tf1 * c + e) by (nonlinear_arith)
        requires
            c == 20 * total,
            e == 8 * (total + 3 * dn),
            dn == dl * n,
            weight_den(tf1, dl, n, total) == tf1 * 20 * total + 8 * (1 * total + 3 * dl * n),
    ;
    assert(weight_den(tf2, dl, n, total) == tf2 * c + e) by (nonlinear_arith)
        requires
            c == 20 * total,
            e == 8 * (total + 3 * dn),
            dn == dl * n,
            weight_den(tf2, dl, n, total) == tf2 * 20 * total + 8 * (1 * total + 3 * dl * n),
    ;
    assert(a > 0);
    assert((tf1 * a) * (tf2 * c + e) < (tf2 * a) * (tf1 * c + e)) by (nonlinear_arith)
        requires
            0 < tf1 < tf2,
            a > 0,
            e > 0,
    ;
}

/// Every term of a well-formed index has a positive idf: the fraction under
/// the logarithm, `idf_num / idf_den`, is above one.
pub proof fn lemma_idf_positive(index: &Index, k: int)
    requires
        index.wf(),
        0 <= k < index.terms@.len(),
    ensures
        index.terms@[k].idf_num > index.terms@[k].idf_den,
{
    let ps = index.terms@[k].postings@;
    let n = index.n_docs();
    assert forall|p: int| 0 <= p < ps.len() implies (#[trigger] ps[p]).doc < n by {
        assert(index.terms@[k].postings@[p].doc < n);
    }
    assert forall|p: int, r: int| 0 <= p < r < ps.len() implies #[trigger] ps[p].doc < #[trigger] ps[r].doc by {
        assert(index.terms@[k].postings@[p].doc < index.terms@[k].postings@[r].doc);
    }
    lemma_postings_len(ps, n);
    assert(index.terms@[k].idf_num == idf_num_of(n));
    assert(index.terms@[k].idf_den == idf_den_of(ps.len()));
}

/// A query term that the index does not hold adds nothing: the terms that
/// score a query are the same with it and without it.
pub proof fn lemma_absent_term(ts: Seq<TermStats>, q: Seq<Seq<char>>, t: Seq<char>)
    requires
        !has_term(ts, t),
    ensures
        used_terms(ts, q.push(t)) == used_terms(ts, q),
{
    assert(q.push(t).drop_last() =~= q);
}

} // verus!

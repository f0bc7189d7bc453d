use vstd::prelude::*;

verus! {

/// A scored document. `key` orders the scores: a larger key is a larger score.
#[derive(Clone, Copy, Debug, PartialEq, Eq)]
pub struct Ranked {
    pub doc: usize,
    pub key: u64,
}

/// `a` comes before `b` in a ranking: a higher score first, and among equal
/// scores the document that comes first in the corpus.
pub open spec fn before(a: Ranked, b: Ranked) -> bool {
    a.key > b.key || (a.key == b.key && a.doc < b.doc)
}

pub open spec fn passes(x: Ranked, min_key: Option<u64>) -> bool {
    match min_key {
        Some(m) => x.key >= m,
        None => true,
    }
}

pub open spec fn distinct_docs(s: Seq<Ranked>) -> bool {
    forall|i: int, j: int| 0 <= i < j < s.len() ==> #[trigger] s[i].doc != #[trigger] s[j].doc
}

pub open spec fn ranked_order(s: Seq<Ranked>) -> bool {
    forall|i: int, j: int| 0 <= i < j < s.len() ==> before(#[trigger] s[i], #[trigger] s[j])
}

/// Ranks scored documents: drops those below `min_key`, sorts the rest by
/// `before`, and keeps at most the first `max_results`.
#[verifier::rlimit(100)]
pub fn rank(entries: &Vec<Ranked>, max_results: Option<usize>, min_key: Option<u64>) -> (r: Vec<Ranked>)
    requires
        distinct_docs(entries@),
    ensures
        ranked_order(r@),
        max_results matches Some(m) ==> r@.len() <= m,
        forall|x: Ranked| #[trigger] r@.contains(x) ==> entries@.contains(x) && passes(x, min_key),
        forall|x: Ranked|
            #[trigger] entries@.contains(x) && passes(x, min_key) && !r@.contains(x) ==> {
                &&& max_results matches Some(m) && r@.len() == m
                &&& forall|i: int| 0 <= i < r@.len() ==> before(#[trigger] r@[i], x)
            },
{
    let mut sorted: Vec<Ranked> = Vec::new();
    let mut i: usize = 0;
    while i < entries.len()
        invariant
            distinct_docs(entries@),
            i <= entries@.len(),
            ranked_order(sorted@),
            max_results matches Some(m) ==> sorted@.len() <= m,
            forall|y: Ranked| #[trigger] sorted@.contains(y) ==> passes(y, min_key) && exists|j: int|
                0 <= j < i && entries@[j] == y,
            forall|j: int|
                0 <= j < i && passes(entries@[j], min_key) && !sorted@.contains(#[trigger] entries@[j]) ==> {
                    &&& max_results matches Some(m) && sorted@.len() == m
                    &&& forall|a: int| 0 <= a < sorted@.len() ==> before(#[trigger] sorted@[a], entries@[j])
                },
        decreases entries.len() - i,
    {
        let x = entries[i];
        let keep = match min_key {
            Some(m) => x.key >= m,
            None => true,
        };
        let ghost old_s = sorted@;
        if keep {
            let mut pos: usize = 0;
            while pos < sorted.len() && (sorted[pos].key > x.key || (sorted[pos].key == x.key
                && sorted[pos].doc < x.doc))
                invariant
                    pos <= sorted@.len(),
                    sorted@ == old_s,
                    forall|m: int| 0 <= m < pos ==> before(#[trigger] sorted@[m], x),
                decreases sorted.len() - pos,
            {
                pos += 1;
            }
            proof {
                assert forall|m: int| 0 <= m < old_s.len() implies old_s[m].doc != x.doc by {
                    assert(old_s.contains(old_s[m]));
                    let j = choose|j: int| 0 <= j < i && entries@[j] == old_s[m];
                    assert(entries@[j].doc != entries@[i as int].doc);
                }
                if pos < old_s.len() {
                    assert(before(x, old_s[pos as int]));
                    assert forall|m: int| pos <= m < old_s.len() implies before(x, #[trigger] old_s[m]) by {
                        if m > pos {
                            assert(before(old_s[pos as int], old_s[m]));
                        }
                    }
                }
            }
            let full = match max_results {
                Some(m) => pos >= m,
                None => false,
            };
            if !full {
                sorted.insert(pos, x);
                let ghost ins = sorted@;
                proof {
                    old_s.insert_ensures(pos as int, x);
                    assert forall|a: int, b: int| 0 <= a < b < ins.len() implies before(
                        #[trigger] ins[a],
                        #[trigger] ins[b],
                    ) by {
                        if b < pos {
                        } else if a < pos && b == pos {
                        } else if a < pos {
                            assert(before(old_s[a], old_s[b - 1]));
                        } else if a == pos {
                        } else {
                            assert(before(old_s[a - 1], old_s[b - 1]));
                        }
                    }
                }
                let over = match max_results {
                    Some(m) => sorted.len() > m,
                    None => false,
                };
                if over {
                    sorted.pop();
                }
                proof {
                    assert(sorted@ == ins || sorted@ == ins.drop_last());
                    assert forall|y: Ranked| #[trigger] sorted@.contains(y) implies (old_s.contains(y) || y == x) by {
                        let m = choose|m: int| 0 <= m < sorted@.len() && sorted@[m] == y;
                        assert(ins[m] == y);
                        if m < pos {
                            assert(old_s[m] == y);
                        } else if m > pos {
                            assert(old_s[m - 1] == y);
                        }
                    }
                    assert forall|y: Ranked| old_s.contains(y) && !sorted@.contains(y) implies ({
                        &&& max_results matches Some(m) && sorted@.len() == m
                        &&& forall|a: int| 0 <= a < sorted@.len() ==> before(#[trigger] sorted@[a], y)
                    }) by {
                        let m = choose|m: int| 0 <= m < old_s.len() && old_s[m] == y;
                        let mi = if m < pos { m } else { m + 1 };
                        assert(ins[mi] == y);
                        if mi < sorted@.len() {
                            assert(sorted@[mi] == y);
                        }
                        assert(over);
                        assert forall|a: int| 0 <= a < sorted@.len() implies before(#[trigger] sorted@[a], y) by {
                            assert(sorted@[a] == ins[a]);
                            assert(before(ins[a], ins[mi]));
                        }
                    }
                    if pos < sorted@.len() {
                        assert(sorted@[pos as int] == ins[pos as int]);
                        assert(sorted@.contains(x));
                    } else {
                        assert(over && pos == ins.len() - 1);
                    }
                    assert(sorted@.contains(x) || (over && pos == ins.len() - 1));
                    assert forall|j: int|
                        0 <= j < i + 1 && passes(entries@[j], min_key) && !sorted@.contains(#[trigger] entries@[j]) implies {
                            &&& max_results matches Some(m) && sorted@.len() == m
                            &&& forall|a: int| 0 <= a < sorted@.len() ==> before(#[trigger] sorted@[a], entries@[j])
                        } by {
                        let y = entries@[j];
                        if y == x {
                            assert(over && pos == ins.len() - 1);
                            assert forall|a: int| 0 <= a < sorted@.len() implies before(#[trigger] sorted@[a], y) by {
                                assert(sorted@[a] == ins[a]);
                                assert(before(ins[a], ins[pos as int]));
                            }
                        } else if j < i && old_s.contains(y) {
                        } else if j < i {
                            assert forall|a: int| 0 <= a < sorted@.len() implies before(#[trigger] sorted@[a], y) by {
                                assert(sorted@[a] == ins[a]);
                                if a < pos {
                                    assert(ins[a] == old_s[a]);
                                } else if a == pos {
                                    assert(before(old_s[pos as int], y));
                                } else {
                                    assert(ins[a] == old_s[a - 1]);
                                }
                            }
                            assert(old_s.len() == max_results->Some_0);
                            assert(over);
                        } else {
                            assert(entries@[j] == x);
                        }
                    }
                    assert forall|y: Ranked| #[trigger] sorted@.contains(y) implies passes(y, min_key) && exists|j: int|
                        0 <= j < i + 1 && entries@[j] == y by {
                        if y == x {
                            assert(entries@[i as int] == y);
                        } else {
                            assert(old_s.contains(y));
                        }
                    }
                }
            } else {
                proof {
                    assert(old_s.len() == pos);
                    assert forall|y: Ranked| #[trigger] sorted@.contains(y) implies passes(y, min_key) && exists|j: int|
                        0 <= j < i + 1 && entries@[j] == y by {
                        assert(old_s.contains(y));
                    }
                }
            }
        } else {
            proof {
                assert forall|y: Ranked| #[trigger] sorted@.contains(y) implies passes(y, min_key) && exists|j: int|
                    0 <= j < i + 1 && entries@[j] == y by {
                    assert(old_s.contains(y));
                }
            }
        }
        i += 1;
    }
    proof {
        assert forall|x: Ranked| #[trigger] sorted@.contains(x) implies entries@.contains(x) && passes(x, min_key) by {
            let j = choose|j: int| 0 <= j < i && entries@[j] == x;
            assert(entries@[j] == x);
        }
        assert forall|x: Ranked| #[trigger] entries@.contains(x) && passes(x, min_key) && !sorted@.contains(x) implies {
            &&& max_results matches Some(m) && sorted@.len() == m
            &&& forall|a: int| 0 <= a < sorted@.len() ==> before(#[trigger] sorted@[a], x)
        } by {
            let j = choose|j: int| 0 <= j < entries@.len() && entries@[j] == x;
            assert(entries@[j] == x);
        }
    }
    sorted
}

} // verus!

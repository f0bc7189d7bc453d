use vstd::prelude::*;

verus! {

/// The pieces of `s` between occurrences of `/`, empty pieces included,
/// read from left to right: `"a//b"` has the pieces `"a"`, `""` and `"b"`.
pub open spec fn pieces(s: Seq<char>) -> Seq<Seq<char>>
    decreases s.len(),
{
    if s.len() == 0 {
        seq![Seq::<char>::empty()]
    } else {
        let p = pieces(s.drop_last());
        if s.last() == '/' {
            p.push(Seq::<char>::empty())
        } else {
            p.update(p.len() - 1, p.last().push(s.last()))
        }
    }
}

pub open spec fn non_empty(p: Seq<char>) -> bool {
    p.len() > 0
}

/// The terms of one path: its non-empty segments, in order.
pub open spec fn path_terms(s: Seq<char>) -> Seq<Seq<char>> {
    pieces(s).filter(|p: Seq<char>| non_empty(p))
}

/// The terms of a document: the terms of each of its paths, one path after another.
pub open spec fn doc_terms(files: Seq<Seq<char>>) -> Seq<Seq<char>>
    decreases files.len(),
{
    if files.len() == 0 {
        Seq::empty()
    } else {
        doc_terms(files.drop_last()) + path_terms(files.last())
    }
}

pub open spec fn string_views(v: Seq<String>) -> Seq<Seq<char>> {
    v.map_values(|s: String| s@)
}

/// Relies on str::split with a `char` pattern: the substrings between
/// the separators, from left to right, empty ones included.
#[verifier::external_body]
fn split_slash(s: &str) -> (r: Vec<String>)
    ensures
        string_views(r@) == pieces(s@),
{
    s.split('/').map(|p| p.to_string()).collect()
}

/// Splits every path on `/` and keeps each non-empty segment as one term.
pub fn tokenize(files: &Vec<String>) -> (r: Vec<String>)
    ensures
        string_views(r@) == doc_terms(string_views(files@)),
{
    let mut out: Vec<String> = Vec::new();
    let mut i: usize = 0;
    while i < files.len()
        invariant
            i <= files.len(),
            string_views(out@) == doc_terms(string_views(files@.take(i as int))),
        decreases files.len() - i,
    {
        let parts = split_slash(files[i].as_str());
        let ghost before = string_views(out@);
        let mut j: usize = 0;
        while j < parts.len()
            invariant
                i < files.len(),
                j <= parts.len(),
                string_views(parts@) == pieces(files@[i as int]@),
                string_views(out@) == before + string_views(parts@.take(j as int)).filter(
                    |p: Seq<char>| non_empty(p),
                ),
            decreases parts.len() - j,
        {
            proof {
                assert(string_views(parts@.take(j + 1)) == string_views(parts@.take(j as int)).push(
                    parts@[j as int]@,
                ));
                string_views(parts@.take(j as int)).lemma_filter_push(
                    parts@[j as int]@,
                    |p: Seq<char>| non_empty(p),
                );
            }
            if !parts[j].as_str().is_empty() {
                let ghost prev = out@;
                out.push(parts[j].clone());
                assert(string_views(out@) =~= string_views(prev).push(parts@[j as int]@));
                assert(string_views(out@) =~= before + string_views(parts@.take(j + 1)).filter(
                    |p: Seq<char>| non_empty(p),
                ));
            } else {
                assert(string_views(out@) =~= before + string_views(parts@.take(j + 1)).filter(
                    |p: Seq<char>| non_empty(p),
                ));
            }
            j += 1;
        }
        proof {
            assert(string_views(parts@.take(j as int)) =~= string_views(parts@));
            let fs = string_views(files@.take(i + 1));
            assert(fs.drop_last() =~= string_views(files@.take(i as int)));
            assert(fs.last() == files@[i as int]@);
        }
        i += 1;
    }
    proof {
        assert(files@.take(i as int) =~= files@);
    }
    out
}

} // verus!

//! The candidate test files: what the include patterns matched, less what the
//! exclude patterns matched, without repeats and in path order.
use vstd::prelude::*;
use crate::path_order::{lemma_path_lt_total, lemma_path_lt_transitive, path_less, path_lt};

verus! {

/// The contents of a list of paths.
pub open spec fn path_views(s: Seq<String>) -> Seq<Seq<char>> {
    s.map_values(|p: String| p@)
}

/// Each path comes strictly before every later one: sorted, and no path twice.
pub open spec fn strictly_sorted(s: Seq<Seq<char>>) -> bool {
    forall|i: int, j: int| 0 <= i < j < s.len() ==> path_lt(s[i], s[j])
}

/// The paths named among `includes` and not among `excludes`.
pub open spec fn selected(includes: Seq<Seq<char>>, excludes: Seq<Seq<char>>) -> Set<Seq<char>> {
    includes.to_set().difference(excludes.to_set())
}

/// Why no candidate list could be formed.
#[derive(Debug, Clone, Copy, PartialEq, Eq, Structural)]
pub enum ResolveError {
    /// Every matched file was excluded, or nothing matched at all.
    NoTestFilesFound,
}

/// Whether `p` is one of the paths in `v`.
pub fn contains_path(v: &Vec<String>, p: &String) -> (r: bool)
    ensures
        r == path_views(v@).contains(p@),
{
    let n = v.len();
    let mut i: usize = 0;
    while i < n
        invariant
            n == v@.len(),
            i <= n,
            forall|j: int| 0 <= j < i ==> v@[j]@ != p@,
        decreases n - i,
    {
        if v[i] == *p {
            assert(path_views(v@)[i as int] == p@);
            return true;
        }
        i = i + 1;
    }
    assert forall|j: int| 0 <= j < path_views(v@).len() implies path_views(v@)[j] != p@ by {
        assert(v@[j]@ != p@);
    }
    false
}

/// Puts `p` in its place in a strictly sorted list, unless it is there already.
pub fn insert_sorted_unique(out: &mut Vec<String>, p: String)
    requires
        strictly_sorted(path_views(old(out)@)),
    ensures
        strictly_sorted(path_views(final(out)@)),
        path_views(final(out)@).to_set() == path_views(old(out)@).to_set().insert(p@),
{
    let ghost vs = path_views(out@);
    let n = out.len();
    let mut k: usize = 0;
    let mut done = false;
    while !done && k < n
        invariant
            n == out@.len(),
            vs == path_views(out@),
            k <= n,
            forall|j: int| 0 <= j < k ==> path_lt(vs[j], p@),
            done ==> k < n && !path_lt(vs[k as int], p@),
        decreases n - k + (if done { 0int } else { 1int }),
    {
        if path_less(&out[k], &p) {
            k = k + 1;
        } else {
            done = true;
        }
    }
    if k < n && out[k] == p {
        assert(vs[k as int] == p@);
        assert(vs.to_set().insert(p@) =~= vs.to_set());
        return;
    }
    proof {
        if k < n {
            lemma_path_lt_total(vs[k as int], p@);
        }
        assert forall|j: int| k <= j < n implies path_lt(p@, vs[j]) by {
            if j > k {
                lemma_path_lt_transitive(p@, vs[k as int], vs[j]);
            }
        }
    }
    out.insert(k, p);
    proof {
        let ws = path_views(out@);
        assert(ws =~= vs.insert(k as int, p@));
        assert forall|i: int, j: int| 0 <= i < j < ws.len() implies path_lt(ws[i], ws[j]) by {
            if i < k && j > k {
                lemma_path_lt_transitive(ws[i], p@, ws[j]);
            }
        }
        assert(ws.to_set() =~= vs.to_set().insert(p@)) by {
            assert forall|x: Seq<char>| ws.contains(x) implies vs.to_set().insert(x).contains(x) by {}
            assert forall|x: Seq<char>| #[trigger] vs.to_set().insert(p@).contains(x) implies ws.contains(x) by {
                if x == p@ {
                    assert(ws[k as int] == x);
                } else {
                    let j = choose|j: int| 0 <= j < vs.len() && vs[j] == x;
                    if j < k {
                        assert(ws[j] == x);
                    } else {
                        assert(ws[j + 1] == x);
                    }
                }
            }
            assert forall|x: Seq<char>| #[trigger] ws.contains(x) implies vs.to_set().insert(p@).contains(x) by {
                let j = choose|j: int| 0 <= j < ws.len() && ws[j] == x;
                if j < k {
                    assert(vs[j] == x);
                } else if j > k {
                    assert(vs[j - 1] == x);
                }
            }
        }
    }
}

/// The candidate files: the paths of `includes` that are not in `excludes`,
/// each once, in path order. Fails when no path is left.
pub fn resolve(includes: &Vec<String>, excludes: &Vec<String>) -> (r: Result<Vec<String>, ResolveError>)
    ensures
        match r {
            Ok(v) => {
                &&& strictly_sorted(path_views(v@))
                &&& path_views(v@).to_set() == selected(path_views(includes@), path_views(excludes@))
                &&& v@.len() > 0
            },
            Err(e) => {
                &&& e == ResolveError::NoTestFilesFound
                &&& selected(path_views(includes@), path_views(excludes@)) == Set::<Seq<char>>::empty()
            },
        },
{
    let ghost inc = path_views(includes@);
    let ghost exc = path_views(excludes@);
    let mut out: Vec<String> = Vec::new();
    let n = includes.len();
    let mut i: usize = 0;
    assert(path_views(out@).to_set() =~= selected(inc.take(0), exc));
    while i < n
        invariant
            n == includes@.len(),
            inc == path_views(includes@),
            exc == path_views(excludes@),
            i <= n,
            strictly_sorted(path_views(out@)),
            path_views(out@).to_set() == selected(inc.take(i as int), exc),
        decreases n - i,
    {
        let p = &includes[i];
        assert(inc.take(i + 1) =~= inc.take(i as int).push(p@));
        assert(inc.take(i as int).push(p@).to_set() =~= inc.take(i as int).to_set().insert(p@)) by {
            assert forall|x: Seq<char>| #[trigger] inc.take(i as int).push(p@).contains(x) implies
                inc.take(i as int).to_set().insert(p@).contains(x) by {
                let j = choose|j: int| 0 <= j < i + 1 && inc.take(i as int).push(p@)[j] == x;
                if j < i {
                    assert(inc.take(i as int)[j] == x);
                }
            }
            assert forall|x: Seq<char>| #[trigger] inc.take(i as int).to_set().insert(p@).contains(x) implies
                inc.take(i as int).push(p@).contains(x) by {
                if x == p@ {
                    assert(inc.take(i as int).push(p@)[i as int] == x);
                } else {
                    let j = choose|j: int| 0 <= j < i && inc.take(i as int)[j] == x;
                    assert(inc.take(i as int).push(p@)[j] == x);
                }
            }
        }
        if !contains_path(excludes, p) {
            insert_sorted_unique(&mut out, p.clone());
            assert(path_views(out@).to_set() =~= selected(inc.take(i + 1), exc));
        } else {
            assert(path_views(out@).to_set() =~= selected(inc.take(i + 1), exc));
        }
        i = i + 1;
    }
    assert(inc.take(n as int) =~= inc);
    if out.len() == 0 {
        assert(path_views(out@).to_set() =~= Set::<Seq<char>>::empty());
        Err(ResolveError::NoTestFilesFound)
    } else {
        Ok(out)
    }
}

} // verus!

//! The recorded duration of each test file, summed over every observation.
use vstd::prelude::*;

verus! {

/// The map that a list of entries stands for; a later entry for a path wins.
pub open spec fn entries_map(s: Seq<(String, u64)>) -> Map<Seq<char>, nat>
    decreases s.len(),
{
    if s.len() == 0 {
        Map::empty()
    } else {
        entries_map(s.drop_last()).insert(s.last().0@, s.last().1 as nat)
    }
}

/// What `m` holds for `p`, zero where it holds nothing.
pub open spec fn recorded(m: Map<Seq<char>, nat>, p: Seq<char>) -> nat {
    if m.contains_key(p) {
        m[p]
    } else {
        0
    }
}

/// No entry after the one at `k` is for the same path.
pub open spec fn last_for_its_path(s: Seq<(String, u64)>, k: int) -> bool {
    forall|j: int| k < j < s.len() ==> s[j].0@ != s[k].0@
}

proof fn lemma_entries_map_dom(s: Seq<(String, u64)>, p: Seq<char>)
    ensures
        entries_map(s).contains_key(p) <==> exists|k: int| 0 <= k < s.len() && s[k].0@ == p,
    decreases s.len(),
{
    if s.len() > 0 {
        lemma_entries_map_dom(s.drop_last(), p);
        if entries_map(s).contains_key(p) && s.last().0@ != p {
            let k = choose|k: int| 0 <= k < s.len() - 1 && s.drop_last()[k].0@ == p;
            assert(s[k].0@ == p);
        }
        if exists|k: int| 0 <= k < s.len() && s[k].0@ == p {
            let k = choose|k: int| 0 <= k < s.len() && s[k].0@ == p;
            if k < s.len() - 1 {
                assert(s.drop_last()[k].0@ == p);
            }
        }
    }
}

proof fn lemma_entries_map_get(s: Seq<(String, u64)>, k: int)
    requires
        0 <= k < s.len(),
        last_for_its_path(s, k),
    ensures
        entries_map(s).contains_key(s[k].0@),
        entries_map(s)[s[k].0@] == s[k].1 as nat,
    decreases s.len(),
{
    if k < s.len() - 1 {
        lemma_entries_map_get(s.drop_last(), k);
    }
}

proof fn lemma_entries_map_update(s: Seq<(String, u64)>, k: int, v: u64)
    requires
        0 <= k < s.len(),
        last_for_its_path(s, k),
    ensures
        entries_map(s.update(k, (s[k].0, v))) == entries_map(s).insert(s[k].0@, v as nat),
    decreases s.len(),
{
    let u = s.update(k, (s[k].0, v));
    if k == s.len() - 1 {
        assert(u.drop_last() =~= s.drop_last());
        assert(entries_map(u) =~= entries_map(s).insert(s[k].0@, v as nat));
    } else {
        assert(u.drop_last() =~= s.drop_last().update(k, (s[k].0, v)));
        lemma_entries_map_update(s.drop_last(), k, v);
        assert(s.last().0@ != s[k].0@);
        assert(entries_map(u) =~= entries_map(s).insert(s[k].0@, v as nat));
    }
}

/// For each test file that some report timed, its total duration in
/// microseconds.
pub struct DurationRecord {
    entries: Vec<(String, u64)>,
}

impl View for DurationRecord {
    type V = Map<Seq<char>, nat>;

    closed spec fn view(&self) -> Map<Seq<char>, nat> {
        entries_map(self.entries@)
    }
}

impl DurationRecord {
    /// A record with no file in it.
    pub fn new() -> (r: DurationRecord)
        ensures
            r@ == Map::<Seq<char>, nat>::empty(),
    {
        DurationRecord { entries: Vec::new() }
    }

    /// The total recorded for `path`, if any.
    pub fn get(&self, path: &String) -> (r: Option<u64>)
        ensures
            match r {
                Some(v) => self@.contains_key(path@) && self@[path@] == v as nat,
                None => !self@.contains_key(path@),
            },
    {
        let mut i: usize = self.entries.len();
        while i > 0
            invariant
                i <= self.entries@.len(),
                forall|j: int| i <= j < self.entries@.len() ==> self.entries@[j].0@ != path@,
            decreases i,
        {
            i = i - 1;
            if self.entries[i].0 == *path {
                proof {
                    lemma_entries_map_get(self.entries@, i as int);
                }
                return Some(self.entries[i].1);
            }
        }
        proof {
            lemma_entries_map_dom(self.entries@, path@);
        }
        None
    }

    /// Adds `time` to the total of `path`, which starts at zero.
    pub fn add(&mut self, path: String, time: u64)
        requires
            old(self)@.contains_key(path@) ==> old(self)@[path@] + time <= u64::MAX,
        ensures
            final(self)@ == old(self)@.insert(
                path@,
                recorded(old(self)@, path@) + time as nat,
            ),
    {
        let mut i: usize = self.entries.len();
        while i > 0
            invariant
                i <= self.entries@.len(),
                self@ == old(self)@,
                old(self)@.contains_key(path@) ==> old(self)@[path@] + time <= u64::MAX,
                forall|j: int| i <= j < self.entries@.len() ==> self.entries@[j].0@ != path@,
            decreases i,
        {
            i = i - 1;
            if self.entries[i].0 == path {
                proof {
                    lemma_entries_map_get(self.entries@, i as int);
                    assert(self.entries@[i as int].0@ == path@);
                }
                let v = self.entries[i].1 + time;
                proof {
                    lemma_entries_map_update(self.entries@, i as int, v);
                }
                let key = self.entries[i].0.clone();
                self.entries.set(i, (key, v));
                return;
            }
        }
        proof {
            lemma_entries_map_dom(self.entries@, path@);
        }
        let ghost before = self.entries@;
        self.entries.push((path, time));
        assert(self.entries@.drop_last() =~= before);
    }
}

} // verus!

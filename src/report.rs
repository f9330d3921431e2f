//! Reports as trees of suites and cases, and how their timings are summed
//! into a duration record.
use vstd::prelude::*;
use crate::record::{recorded, DurationRecord};

verus! {

/// Whether an element of a report is a suite, which only groups, or a case,
/// whose time counts.
#[derive(Debug, Clone, Copy, PartialEq, Eq, Structural)]
pub enum ElementKind {
    Suite,
    Case,
}

/// One suite or case of a report.
pub struct ReportElement {
    /// The element that holds this one. It must come earlier in the tree; a
    /// link to this element or a later one counts as no parent.
    pub parent: Option<usize>,
    pub kind: ElementKind,
    /// The canonical path of the element's file attribute, where it has one
    /// that resolves.
    pub file: Option<String>,
    /// The element's recorded time, in microseconds.
    pub time: u64,
}

/// A parsed report: its elements, each after the elements that hold it.
pub struct ReportTree {
    pub elements: Vec<ReportElement>,
}

/// What reading one report file gave.
pub enum ReportInput {
    /// The file had no bytes.
    Empty,
    /// The file could not be parsed as a report.
    Malformed,
    Parsed(ReportTree),
}

#[derive(Debug, Clone, Copy, PartialEq, Eq, Structural)]
pub enum SkipReason {
    EmptyFile,
    MalformedFile,
}

/// A report file that contributed nothing, by its place among the inputs.
#[derive(Debug, Clone, Copy, PartialEq, Eq, Structural)]
pub struct SkipNote {
    pub index: usize,
    pub reason: SkipReason,
}

/// One timing observation: the file that a case is attributed to, if any, and
/// its time.
pub type Observation = (Option<Seq<char>>, nat);

pub open spec fn file_view(f: Option<String>) -> Option<Seq<char>> {
    match f {
        Some(s) => Some(s@),
        None => None,
    }
}

/// The file that element `i` is attributed to: its own, else that of the
/// nearest enclosing element that has one.
pub open spec fn attributed(elems: Seq<ReportElement>, i: int) -> Option<Seq<char>>
    decreases i,
{
    if i < 0 || i >= elems.len() {
        None
    } else {
        match elems[i].file {
            Some(f) => Some(f@),
            None => match elems[i].parent {
                Some(p) => if p < i {
                    attributed(elems, p as int)
                } else {
                    None
                },
                None => None,
            },
        }
    }
}

/// The observations of the cases among the first `e` elements, in order.
pub open spec fn tree_obs(elems: Seq<ReportElement>, e: int) -> Seq<Observation>
    decreases e,
{
    if e <= 0 || e > elems.len() {
        Seq::empty()
    } else if elems[e - 1].kind == ElementKind::Case {
        tree_obs(elems, e - 1).push((attributed(elems, e - 1), elems[e - 1].time as nat))
    } else {
        tree_obs(elems, e - 1)
    }
}

pub open spec fn report_obs(x: ReportInput) -> Seq<Observation> {
    match x {
        ReportInput::Parsed(t) => tree_obs(t.elements@, t.elements@.len() as int),
        _ => Seq::empty(),
    }
}

/// The observations of the first `r` reports, in order.
pub open spec fn input_obs(inputs: Seq<ReportInput>, r: int) -> Seq<Observation>
    decreases r,
{
    if r <= 0 || r > inputs.len() {
        Seq::empty()
    } else {
        input_obs(inputs, r - 1) + report_obs(inputs[r - 1])
    }
}

/// The time of every observation, attributed or not, summed.
pub open spec fn obs_sum(obs: Seq<Observation>) -> nat
    decreases obs.len(),
{
    if obs.len() == 0 {
        0
    } else {
        obs_sum(obs.drop_last()) + obs.last().1
    }
}

/// For each file, the sum of the times of the observations attributed to it.
pub open spec fn totals(obs: Seq<Observation>) -> Map<Seq<char>, nat>
    decreases obs.len(),
{
    if obs.len() == 0 {
        Map::empty()
    } else {
        let m = totals(obs.drop_last());
        match obs.last().0 {
            Some(p) => m.insert(p, recorded(m, p) + obs.last().1),
            None => m,
        }
    }
}

/// The notes on the first `r` inputs that were skipped.
pub open spec fn skip_notes(inputs: Seq<ReportInput>, r: int) -> Seq<SkipNote>
    decreases r,
{
    if r <= 0 || r > inputs.len() {
        Seq::empty()
    } else {
        let prev = skip_notes(inputs, r - 1);
        match inputs[r - 1] {
            ReportInput::Empty => prev.push(SkipNote { index: (r - 1) as usize, reason: SkipReason::EmptyFile }),
            ReportInput::Malformed => prev.push(SkipNote { index: (r - 1) as usize, reason: SkipReason::MalformedFile }),
            ReportInput::Parsed(_) => prev,
        }
    }
}

proof fn lemma_obs_sum_concat(a: Seq<Observation>, b: Seq<Observation>)
    ensures
        obs_sum(a + b) == obs_sum(a) + obs_sum(b),
    decreases b.len(),
{
    if b.len() > 0 {
        assert((a + b).drop_last() =~= a + b.drop_last());
        lemma_obs_sum_concat(a, b.drop_last());
    } else {
        assert(a + b =~= a);
    }
}

proof fn lemma_tree_obs_monotone(elems: Seq<ReportElement>, e: int, f: int)
    requires
        0 <= e <= f <= elems.len(),
    ensures
        obs_sum(tree_obs(elems, e)) <= obs_sum(tree_obs(elems, f)),
    decreases f - e,
{
    if e < f {
        lemma_tree_obs_monotone(elems, e, f - 1);
        if elems[f - 1].kind == ElementKind::Case {
            assert(tree_obs(elems, f).drop_last() == tree_obs(elems, f - 1));
        }
    }
}

proof fn lemma_input_obs_monotone(inputs: Seq<ReportInput>, r: int, s: int)
    requires
        0 <= r <= s <= inputs.len(),
    ensures
        obs_sum(input_obs(inputs, r)) <= obs_sum(input_obs(inputs, s)),
    decreases s - r,
{
    if r < s {
        lemma_input_obs_monotone(inputs, r, s - 1);
        lemma_obs_sum_concat(input_obs(inputs, s - 1), report_obs(inputs[s - 1]));
    }
}

proof fn lemma_totals_bounded(obs: Seq<Observation>, p: Seq<char>)
    ensures
        recorded(totals(obs), p) <= obs_sum(obs),
    decreases obs.len(),
{
    if obs.len() > 0 {
        lemma_totals_bounded(obs.drop_last(), p);
    }
}

fn copy_file(f: &Option<String>) -> (r: Option<String>)
    ensures
        file_view(r) == file_view(*f),
{
    match f {
        Some(s) => Some(s.clone()),
        None => None,
    }
}

impl ReportTree {
    /// A report with no element yet.
    pub fn new() -> (r: ReportTree)
        ensures
            r.elements@.len() == 0,
    {
        ReportTree { elements: Vec::new() }
    }

    /// Appends an element and returns its place, by which later elements
    /// name it as their parent.
    pub fn add(&mut self, parent: Option<usize>, kind: ElementKind, file: Option<String>, time: u64) -> (r: usize)
        requires
            old(self).elements@.len() < usize::MAX,
        ensures
            r == old(self).elements@.len(),
            final(self).elements@ == old(self).elements@.push(ReportElement { parent, kind, file, time }),
    {
        let r = self.elements.len();
        self.elements.push(ReportElement { parent, kind, file, time });
        r
    }

    /// For each element, the file it is attributed to.
    pub fn attributions(&self) -> (r: Vec<Option<String>>)
        ensures
            r@.len() == self.elements@.len(),
            forall|i: int| 0 <= i < r@.len() ==> file_view(#[trigger] r@[i]) == attributed(self.elements@, i),
    {
        let elems = &self.elements;
        let n = elems.len();
        let mut r: Vec<Option<String>> = Vec::new();
        let mut i: usize = 0;
        while i < n
            invariant
                n == elems@.len(),
                i <= n,
                r@.len() == i,
                forall|j: int| 0 <= j < i ==> file_view(#[trigger] r@[j]) == attributed(elems@, j),
            decreases n - i,
        {
            let e = &elems[i];
            let a = match &e.file {
                Some(f) => Some(f.clone()),
                None => match e.parent {
                    Some(p) => if p < i {
                        copy_file(&r[p])
                    } else {
                        None
                    },
                    None => None,
                },
            };
            r.push(a);
            i = i + 1;
        }
        r
    }
}

/// Adds the observations of one report to `record`.
fn add_tree(record: &mut DurationRecord, tree: &ReportTree, Ghost(before): Ghost<Seq<Observation>>)
    requires
        old(record)@ == totals(before),
        obs_sum(before) + obs_sum(tree_obs(tree.elements@, tree.elements@.len() as int)) <= u64::MAX,
    ensures
        final(record)@ == totals(before + tree_obs(tree.elements@, tree.elements@.len() as int)),
{
    let ghost elems = tree.elements@;
    let attr = tree.attributions();
    let n = tree.elements.len();
    let mut e: usize = 0;
    assert(before + tree_obs(elems, 0) =~= before);
    while e < n
        invariant
            n == elems.len(),
            elems == tree.elements@,
            attr@.len() == n,
            forall|i: int| 0 <= i < n ==> file_view(#[trigger] attr@[i]) == attributed(elems, i),
            e <= n,
            record@ == totals(before + tree_obs(elems, e as int)),
            obs_sum(before) + obs_sum(tree_obs(elems, n as int)) <= u64::MAX,
        decreases n - e,
    {
        let el = &tree.elements[e];
        let ghost prefix = before + tree_obs(elems, e as int);
        if el.kind == ElementKind::Case {
            let ghost o: Observation = (attributed(elems, e as int), el.time as nat);
            assert(before + tree_obs(elems, e + 1) =~= prefix.push(o));
            assert(prefix.push(o).drop_last() =~= prefix);
            match &attr[e] {
                Some(p) => {
                    proof {
                        assert(file_view(attr@[e as int]) == Some(p@));
                        lemma_totals_bounded(prefix, p@);
                        lemma_obs_sum_concat(before, tree_obs(elems, e + 1));
                        lemma_tree_obs_monotone(elems, e + 1, n as int);
                    }
                    record.add(p.clone(), el.time);
                },
                None => {},
            }
        } else {
            assert(before + tree_obs(elems, e + 1) =~= prefix);
        }
        e = e + 1;
    }
}

/// Sums the timings of every parsed report into one record, and notes each
/// report file that was empty or malformed, which contributes nothing.
pub fn aggregate(inputs: &Vec<ReportInput>) -> (r: (DurationRecord, Vec<SkipNote>))
    requires
        obs_sum(input_obs(inputs@, inputs@.len() as int)) <= u64::MAX,
    ensures
        r.0@ == totals(input_obs(inputs@, inputs@.len() as int)),
        r.1@ == skip_notes(inputs@, inputs@.len() as int),
{
    let mut record = DurationRecord::new();
    let mut notes: Vec<SkipNote> = Vec::new();
    let n = inputs.len();
    let mut r: usize = 0;
    assert(totals(input_obs(inputs@, 0)) =~= Map::<Seq<char>, nat>::empty());
    while r < n
        invariant
            n == inputs@.len(),
            r <= n,
            record@ == totals(input_obs(inputs@, r as int)),
            notes@ == skip_notes(inputs@, r as int),
            obs_sum(input_obs(inputs@, n as int)) <= u64::MAX,
        decreases n - r,
    {
        let ghost before = input_obs(inputs@, r as int);
        match &inputs[r] {
            ReportInput::Empty => {
                notes.push(SkipNote { index: r, reason: SkipReason::EmptyFile });
                assert(before + report_obs(inputs@[r as int]) =~= before);
            },
            ReportInput::Malformed => {
                notes.push(SkipNote { index: r, reason: SkipReason::MalformedFile });
                assert(before + report_obs(inputs@[r as int]) =~= before);
            },
            ReportInput::Parsed(tree) => {
                proof {
                    lemma_input_obs_monotone(inputs@, r + 1, n as int);
                    lemma_obs_sum_concat(before, report_obs(inputs@[r as int]));
                }
                add_tree(&mut record, tree, Ghost(before));
            },
        }
        r = r + 1;
    }
    (record, notes)
}

} // verus!

//! Greedy assignment of test files to nodes: the longest recorded files go
//! first, each to the least loaded node; files with no record are dealt out in
//! turn.
use vstd::prelude::*;
use crate::file_set::path_views;
use crate::path_order::{path_less, path_lt};
use crate::record::DurationRecord;

verus! {

/// One node: the files assigned to it, in order, and their recorded total in
/// microseconds.
pub struct Node {
    pub files: Vec<String>,
    pub total: u128,
}

/// A node as files and total.
pub type NodeModel = (Seq<Seq<char>>, nat);

pub open spec fn node_views(v: Seq<Node>) -> Seq<NodeModel> {
    v.map_values(|nd: Node| (path_views(nd.files@), nd.total as nat))
}

/// The paths of `c` that `m` records, in their order.
pub open spec fn timed_of(c: Seq<Seq<char>>, m: Map<Seq<char>, nat>) -> Seq<Seq<char>>
    decreases c.len(),
{
    if c.len() == 0 {
        Seq::empty()
    } else if m.contains_key(c.last()) {
        timed_of(c.drop_last(), m).push(c.last())
    } else {
        timed_of(c.drop_last(), m)
    }
}

/// The paths of `c` that `m` does not record, in their order.
pub open spec fn untimed_of(c: Seq<Seq<char>>, m: Map<Seq<char>, nat>) -> Seq<Seq<char>>
    decreases c.len(),
{
    if c.len() == 0 {
        Seq::empty()
    } else if !m.contains_key(c.last()) {
        untimed_of(c.drop_last(), m).push(c.last())
    } else {
        untimed_of(c.drop_last(), m)
    }
}

/// `a` is placed before `b`: it has the longer duration, or the same one and
/// the earlier path.
pub open spec fn goes_before(m: Map<Seq<char>, nat>, a: Seq<char>, b: Seq<char>) -> bool {
    m[a] > m[b] || (m[a] == m[b] && path_lt(a, b))
}

/// `x` put into `s` before the first element that it goes before.
pub open spec fn insert_by_cost(s: Seq<Seq<char>>, x: Seq<char>, m: Map<Seq<char>, nat>) -> Seq<Seq<char>>
    decreases s.len(),
{
    if s.len() == 0 {
        seq![x]
    } else if goes_before(m, x, s[0]) {
        seq![x] + s
    } else {
        seq![s[0]] + insert_by_cost(s.drop_first(), x, m)
    }
}

/// `s` ordered by `goes_before`.
pub open spec fn sort_by_cost(s: Seq<Seq<char>>, m: Map<Seq<char>, nat>) -> Seq<Seq<char>>
    decreases s.len(),
{
    if s.len() == 0 {
        Seq::empty()
    } else {
        insert_by_cost(sort_by_cost(s.drop_last(), m), s.last(), m)
    }
}

/// The node with the smallest total; the first such.
pub open spec fn least_loaded(nodes: Seq<NodeModel>) -> int
    decreases nodes.len(),
{
    if nodes.len() <= 1 {
        0
    } else {
        let k = least_loaded(nodes.drop_last());
        if nodes.last().1 < nodes[k].1 {
            nodes.len() - 1
        } else {
            k
        }
    }
}

/// `n` empty nodes.
pub open spec fn empty_nodes(n: nat) -> Seq<NodeModel> {
    Seq::new(n, |i: int| (Seq::<Seq<char>>::empty(), 0nat))
}

/// `order` given out in turn, each to the least loaded of `n` nodes.
pub open spec fn greedy(order: Seq<Seq<char>>, m: Map<Seq<char>, nat>, n: nat) -> Seq<NodeModel>
    decreases order.len(),
{
    if order.len() == 0 {
        empty_nodes(n)
    } else {
        let prev = greedy(order.drop_last(), m, n);
        let k = least_loaded(prev);
        let x = order.last();
        prev.update(k, (prev[k].0.push(x), prev[k].1 + m[x]))
    }
}

/// The elements of `u` whose place is `i` modulo `n`, in order.
pub open spec fn round_robin(u: Seq<Seq<char>>, n: nat, i: int) -> Seq<Seq<char>>
    decreases u.len(),
{
    if u.len() == 0 {
        Seq::empty()
    } else if (u.len() - 1) % (n as int) == i {
        round_robin(u.drop_last(), n, i).push(u.last())
    } else {
        round_robin(u.drop_last(), n, i)
    }
}

/// The assignment of the candidates `c` to `n` nodes, given the recorded
/// durations `m`.
pub open spec fn distribution(c: Seq<Seq<char>>, m: Map<Seq<char>, nat>, n: nat) -> Seq<NodeModel> {
    let g = greedy(sort_by_cost(timed_of(c, m), m), m, n);
    Seq::new(n, |i: int| (g[i].0 + round_robin(untimed_of(c, m), n, i), g[i].1))
}

pub open spec fn keys_of(s: Seq<(String, u64)>) -> Seq<Seq<char>> {
    s.map_values(|e: (String, u64)| e.0@)
}

/// Each entry carries the duration that `m` records for its path.
pub open spec fn costs_match(s: Seq<(String, u64)>, m: Map<Seq<char>, nat>) -> bool {
    forall|t: int| 0 <= t < s.len() ==> m.contains_key(#[trigger] s[t].0@) && m[s[t].0@] == s[t].1 as nat
}

pub proof fn lemma_least_loaded(nodes: Seq<NodeModel>)
    requires
        nodes.len() >= 1,
    ensures
        0 <= least_loaded(nodes) < nodes.len(),
        forall|j: int| 0 <= j < nodes.len() ==> nodes[least_loaded(nodes)].1 <= #[trigger] nodes[j].1,
    decreases nodes.len(),
{
    if nodes.len() > 1 {
        lemma_least_loaded(nodes.drop_last());
        let k = least_loaded(nodes.drop_last());
        assert forall|j: int| 0 <= j < nodes.len() - 1 implies nodes[k].1 <= #[trigger] nodes[j].1 by {
            assert(nodes.drop_last()[j] == nodes[j]);
        }
    }
}

proof fn lemma_insert_by_cost_at(s: Seq<Seq<char>>, x: Seq<char>, m: Map<Seq<char>, nat>, k: int)
    requires
        0 <= k <= s.len(),
        forall|j: int| 0 <= j < k ==> !goes_before(m, x, #[trigger] s[j]),
        k < s.len() ==> goes_before(m, x, s[k]),
    ensures
        insert_by_cost(s, x, m) == s.take(k) + seq![x] + s.skip(k),
    decreases s.len(),
{
    if k == 0 {
        assert(s.take(0) + seq![x] + s.skip(0) =~= seq![x] + s);
        if s.len() == 0 {
            assert(seq![x] + s =~= seq![x]);
        }
    } else {
        let d = s.drop_first();
        assert forall|j: int| 0 <= j < k - 1 implies !goes_before(m, x, #[trigger] d[j]) by {
            assert(d[j] == s[j + 1]);
        }
        assert(!goes_before(m, x, s[0]));
        lemma_insert_by_cost_at(d, x, m, k - 1);
        assert(seq![s[0]] + (d.take(k - 1) + seq![x] + d.skip(k - 1)) =~= s.take(k) + seq![x] + s.skip(k));
    }
}

/// Whether entry `a` goes before entry `b`.
fn goes_before_entry(a: &(String, u64), b: &(String, u64)) -> (r: bool)
    ensures
        r == (a.1 > b.1 || (a.1 == b.1 && path_lt(a.0@, b.0@))),
{
    if a.1 > b.1 {
        true
    } else if a.1 == b.1 {
        path_less(&a.0, &b.0)
    } else {
        false
    }
}

/// Puts `x` into `sorted` at its place by cost.
fn insert_entry_by_cost(sorted: &mut Vec<(String, u64)>, x: (String, u64), Ghost(m): Ghost<Map<Seq<char>, nat>>)
    requires
        costs_match(old(sorted)@, m),
        m.contains_key(x.0@),
        m[x.0@] == x.1 as nat,
    ensures
        costs_match(final(sorted)@, m),
        keys_of(final(sorted)@) == insert_by_cost(keys_of(old(sorted)@), x.0@, m),
{
    let ghost ks = keys_of(sorted@);
    let n = sorted.len();
    let mut k: usize = 0;
    let mut done = false;
    while !done && k < n
        invariant
            n == sorted@.len(),
            ks == keys_of(sorted@),
            costs_match(sorted@, m),
            m.contains_key(x.0@),
            m[x.0@] == x.1 as nat,
            k <= n,
            forall|j: int| 0 <= j < k ==> !goes_before(m, x.0@, #[trigger] ks[j]),
            done ==> k < n && goes_before(m, x.0@, ks[k as int]),
        decreases n - k + (if done { 0int } else { 1int }),
    {
        assert(ks[k as int] == sorted@[k as int].0@);
        if goes_before_entry(&x, &sorted[k]) {
            done = true;
        } else {
            k = k + 1;
        }
    }
    proof {
        lemma_insert_by_cost_at(ks, x.0@, m, k as int);
    }
    let ghost xk = x.0@;
    sorted.insert(k, x);
    assert(keys_of(sorted@) =~= ks.take(k as int) + seq![xk] + ks.skip(k as int));
}

/// Appends `file` to node `k` and adds `cost` to its total.
fn push_to_node(nodes: &mut Vec<Node>, k: usize, file: String, cost: u64)
    requires
        k < old(nodes)@.len(),
        old(nodes)@[k as int].total + cost <= u128::MAX,
    ensures
        final(nodes)@.len() == old(nodes)@.len(),
        node_views(final(nodes)@) == node_views(old(nodes)@).update(
            k as int,
            (node_views(old(nodes)@)[k as int].0.push(file@), node_views(old(nodes)@)[k as int].1 + cost as nat),
        ),
        forall|i: int| 0 <= i < final(nodes)@.len() && i != k ==> #[trigger] final(nodes)@[i].total == old(nodes)@[i].total,
        final(nodes)@[k as int].total == old(nodes)@[k as int].total + cost,
{
    let ghost before = nodes@;
    let mut node = nodes.remove(k);
    let ghost fv = file@;
    node.files.push(file);
    node.total = node.total + cost as u128;
    nodes.insert(k, node);
    assert(path_views(node.files@) =~= path_views(before[k as int].files@).push(fv));
    assert(node_views(nodes@) =~= node_views(before).update(
        k as int,
        (node_views(before)[k as int].0.push(fv), node_views(before)[k as int].1 + cost as nat),
    ));
}

/// The node that the greedy pass picks: the first with the smallest total.
fn least_loaded_node(nodes: &Vec<Node>) -> (k: usize)
    requires
        nodes@.len() >= 1,
    ensures
        k as int == least_loaded(node_views(nodes@)),
        k < nodes@.len(),
{
    let ghost vs = node_views(nodes@);
    let n = nodes.len();
    let mut best: usize = 0;
    let mut i: usize = 1;
    while i < n
        invariant
            n == nodes@.len(),
            vs == node_views(nodes@),
            1 <= i <= n,
            best < i,
            best as int == least_loaded(vs.take(i as int)),
        decreases n - i,
    {
        assert(vs.take(i + 1).drop_last() =~= vs.take(i as int));
        if nodes[i].total < nodes[best].total {
            best = i;
        }
        i = i + 1;
    }
    assert(vs.take(n as int) =~= vs);
    best
}

/// Assigns `candidates` to `node_count` nodes: files that `record` times go
/// longest first, each to the node with the smallest total so far (the first
/// such); the others go in turn to nodes 0, 1, ..., by their place among the
/// untimed files.
pub fn distribute(candidates: &Vec<String>, record: &DurationRecord, node_count: usize) -> (r: Vec<Node>)
    requires
        node_count >= 1,
    ensures
        r@.len() == node_count,
        node_views(r@) == distribution(path_views(candidates@), record@, node_count as nat),
{
    let ghost c = path_views(candidates@);
    let ghost m = record@;
    let ghost n = node_count as nat;
    let nc = candidates.len();

    // Split the candidates by whether they were timed.
    let mut timed: Vec<(String, u64)> = Vec::new();
    let mut untimed: Vec<String> = Vec::new();
    let mut i: usize = 0;
    while i < nc
        invariant
            nc == candidates@.len(),
            c == path_views(candidates@),
            m == record@,
            i <= nc,
            costs_match(timed@, m),
            keys_of(timed@) == timed_of(c.take(i as int), m),
            path_views(untimed@) == untimed_of(c.take(i as int), m),
            timed@.len() <= i,
        decreases nc - i,
    {
        let p = &candidates[i];
        assert(c.take(i + 1).drop_last() =~= c.take(i as int));
        assert(c.take(i + 1).last() == p@);
        match record.get(p) {
            Some(v) => {
                let ghost pv = p@;
                timed.push((p.clone(), v));
                assert(keys_of(timed@) =~= keys_of(timed@).drop_last().push(pv));
                assert(keys_of(timed@).drop_last() =~= timed_of(c.take(i as int), m));
            },
            None => {
                let ghost pv = p@;
                untimed.push(p.clone());
                assert(path_views(untimed@) =~= untimed_of(c.take(i as int), m).push(pv));
            },
        }
        i = i + 1;
    }
    assert(c.take(nc as int) =~= c);

    // Order the timed files, longest first.
    let ghost tk = keys_of(timed@);
    let nt = timed.len();
    let mut sorted: Vec<(String, u64)> = Vec::new();
    let mut j: usize = 0;
    assert(keys_of(sorted@) =~= sort_by_cost(tk.take(0), m));
    while j < nt
        invariant
            nt == timed@.len(),
            tk == keys_of(timed@),
            costs_match(timed@, m),
            j <= nt,
            costs_match(sorted@, m),
            keys_of(sorted@) == sort_by_cost(tk.take(j as int), m),
            sorted@.len() == j,
        decreases nt - j,
    {
        assert(tk.take(j + 1).drop_last() =~= tk.take(j as int));
        assert(tk.take(j + 1).last() == timed@[j as int].0@);
        let e = (timed[j].0.clone(), timed[j].1);
        insert_entry_by_cost(&mut sorted, e, Ghost(m));
        proof {
            lemma_sort_by_cost_len(tk.take(j as int), m);
            lemma_insert_by_cost_len(sort_by_cost(tk.take(j as int), m), tk[j as int], m);
        }
        j = j + 1;
    }
    assert(tk.take(nt as int) =~= tk);

    // Start from empty nodes.
    let mut nodes: Vec<Node> = Vec::new();
    let mut q: usize = 0;
    while q < node_count
        invariant
            q <= node_count,
            nodes@.len() == q,
            node_views(nodes@) == empty_nodes(q as nat),
            forall|t: int| 0 <= t < nodes@.len() ==> #[trigger] nodes@[t].total == 0,
        decreases node_count - q,
    {
        let ghost before = nodes@;
        nodes.push(Node { files: Vec::new(), total: 0 });
        assert(path_views(nodes@.last().files@) =~= Seq::<Seq<char>>::empty());
        assert forall|t: int| 0 <= t < q implies #[trigger] node_views(nodes@)[t] == node_views(before)[t] by {
            assert(nodes@[t] == before[t]);
        }
        assert(node_views(nodes@) =~= empty_nodes((q + 1) as nat));
        q = q + 1;
    }

    // Each timed file to the least loaded node.
    let ghost sk = keys_of(sorted@);
    let ns = sorted.len();
    let mut s: usize = 0;
    assert(sk.take(0) =~= Seq::<Seq<char>>::empty());
    while s < ns
        invariant
            ns == sorted@.len(),
            sk == keys_of(sorted@),
            costs_match(sorted@, m),
            nodes@.len() == node_count,
            node_count >= 1,
            s <= ns,
            node_views(nodes@) == greedy(sk.take(s as int), m, node_count as nat),
            forall|t: int| 0 <= t < nodes@.len() ==> #[trigger] nodes@[t].total <= (s as int) * (u64::MAX as int),
        decreases ns - s,
    {
        assert(sk.take(s + 1).drop_last() =~= sk.take(s as int));
        assert(sk.take(s + 1).last() == sorted@[s as int].0@);
        let k = least_loaded_node(&nodes);
        let cost = sorted[s].1;
        proof {
            assert((s as int + 1) * (u64::MAX as int) <= u128::MAX) by (nonlinear_arith)
                requires s < usize::MAX, usize::MAX <= u64::MAX;
            assert((s as int) * (u64::MAX as int) + cost <= (s as int + 1) * (u64::MAX as int)) by (nonlinear_arith)
                requires cost <= u64::MAX;
        }
        push_to_node(&mut nodes, k, sorted[s].0.clone(), cost);
        proof {
            assert forall|t: int| 0 <= t < nodes@.len() implies #[trigger] nodes@[t].total <= (s as int + 1) * (u64::MAX as int) by {
                assert((s as int) * (u64::MAX as int) <= (s as int + 1) * (u64::MAX as int)) by (nonlinear_arith);
            }
        }
        s = s + 1;
    }
    assert(sk.take(ns as int) =~= sk);

    // The untimed files in turn.
    let ghost g = node_views(nodes@);
    let ghost uk = path_views(untimed@);
    let nu = untimed.len();
    let mut u: usize = 0;
    assert forall|t: int| 0 <= t < node_count implies #[trigger] node_views(nodes@)[t] == (g[t].0 + round_robin(uk.take(0), n, t), g[t].1) by {
        assert(uk.take(0) =~= Seq::<Seq<char>>::empty());
        assert(g[t].0 + Seq::<Seq<char>>::empty() =~= g[t].0);
    }
    while u < nu
        invariant
            nu == untimed@.len(),
            uk == path_views(untimed@),
            nodes@.len() == node_count,
            node_count >= 1,
            n == node_count as nat,
            g.len() == node_count,
            u <= nu,
            forall|t: int| 0 <= t < node_count ==> #[trigger] node_views(nodes@)[t] == (g[t].0 + round_robin(uk.take(u as int), n, t), g[t].1),
            forall|t: int| 0 <= t < nodes@.len() ==> #[trigger] nodes@[t].total == g[t].1,
        decreases nu - u,
    {
        let k = u % node_count;
        let ghost before = node_views(nodes@);
        let ghost x = untimed@[u as int]@;
        assert(uk.take(u + 1).drop_last() =~= uk.take(u as int));
        assert(uk.take(u + 1).last() == x);
        push_to_node(&mut nodes, k, untimed[u].clone(), 0);
        assert forall|t: int| 0 <= t < node_count implies #[trigger] node_views(nodes@)[t] == (g[t].0 + round_robin(uk.take(u + 1), n, t), g[t].1) by {
            if t == k {
                assert(g[t].0 + round_robin(uk.take(u as int), n, t).push(x) =~= (g[t].0 + round_robin(uk.take(u as int), n, t)).push(x));
            }
        }
        u = u + 1;
    }
    assert(uk.take(nu as int) =~= uk);
    assert(node_views(nodes@) =~= distribution(c, m, n));
    nodes
}

/// Why no file list could be given for a node.
#[derive(Debug, Clone, Copy, PartialEq, Eq, Structural)]
pub enum SplitError {
    /// The node index is not below the node count.
    InvalidNodeIndex,
}

/// The files that the distribution of `candidates` over `node_count` nodes
/// assigns to node `node_index`, in their order. Fails when there is no such
/// node.
pub fn assigned_files(candidates: &Vec<String>, record: &DurationRecord, node_index: usize, node_count: usize) -> (r: Result<Vec<String>, SplitError>)
    ensures
        match r {
            Ok(v) => {
                &&& node_index < node_count
                &&& path_views(v@) == distribution(path_views(candidates@), record@, node_count as nat)[node_index as int].0
            },
            Err(e) => e == SplitError::InvalidNodeIndex && node_index >= node_count,
        },
{
    if node_index >= node_count {
        return Err(SplitError::InvalidNodeIndex);
    }
    let mut nodes = distribute(candidates, record, node_count);
    assert(node_views(nodes@)[node_index as int].0 == path_views(nodes@[node_index as int].files@));
    let node = nodes.remove(node_index);
    Ok(node.files)
}

proof fn lemma_insert_by_cost_len(s: Seq<Seq<char>>, x: Seq<char>, m: Map<Seq<char>, nat>)
    ensures
        insert_by_cost(s, x, m).len() == s.len() + 1,
    decreases s.len(),
{
    if s.len() > 0 && !goes_before(m, x, s[0]) {
        lemma_insert_by_cost_len(s.drop_first(), x, m);
    }
}

proof fn lemma_sort_by_cost_len(s: Seq<Seq<char>>, m: Map<Seq<char>, nat>)
    ensures
        sort_by_cost(s, m).len() == s.len(),
    decreases s.len(),
{
    if s.len() > 0 {
        lemma_sort_by_cost_len(s.drop_last(), m);
        lemma_insert_by_cost_len(sort_by_cost(s.drop_last(), m), s.last(), m);
    }
}

} // verus!

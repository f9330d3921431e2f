//! What holds of every distribution, and of the candidate list whatever order
//! the matches came in.
use vstd::prelude::*;
use vstd::multiset::Multiset;
use vstd::seq_lib::lemma_multiset_commutative;
use crate::distribute::{
    distribution, empty_nodes, goes_before, greedy, insert_by_cost, lemma_least_loaded,
    least_loaded, round_robin, sort_by_cost, timed_of, untimed_of, NodeModel,
};
use crate::file_set::{selected, strictly_sorted};
use crate::path_order::{lemma_path_lt_asymmetric, lemma_path_lt_irreflexive, lemma_path_lt_transitive};
use crate::record::recorded;
use crate::report::{input_obs, report_obs, totals, Observation, ReportInput};

verus! {

broadcast use vstd::seq_lib::group_to_multiset_ensures;

/// Every file assigned to any of `nodes`, counted once per assignment.
pub open spec fn all_files(nodes: Seq<NodeModel>) -> Multiset<Seq<char>>
    decreases nodes.len(),
{
    if nodes.len() == 0 {
        Multiset::empty()
    } else {
        all_files(nodes.drop_last()).add(nodes.last().0.to_multiset())
    }
}

/// Node by node, the files of `a` followed by those of `b`, with the totals of `a`.
pub open spec fn merge_nodes(a: Seq<NodeModel>, b: Seq<NodeModel>) -> Seq<NodeModel> {
    Seq::new(a.len(), |i: int| (a[i].0 + b[i].0, a[i].1))
}

pub open spec fn dealt_nodes(u: Seq<Seq<char>>, n: nat) -> Seq<NodeModel> {
    Seq::new(n, |i: int| (round_robin(u, n, i), 0nat))
}

proof fn lemma_all_files_update(s: Seq<NodeModel>, k: int, x: Seq<char>, t: nat)
    requires
        0 <= k < s.len(),
    ensures
        all_files(s.update(k, (s[k].0.push(x), t))) == all_files(s).insert(x),
    decreases s.len(),
{
    let u = s.update(k, (s[k].0.push(x), t));
    if k == s.len() - 1 {
        assert(u.drop_last() =~= s.drop_last());
    } else {
        assert(u.drop_last() =~= s.drop_last().update(k, (s[k].0.push(x), t)));
        lemma_all_files_update(s.drop_last(), k, x, t);
    }
    assert(all_files(u) =~= all_files(s).insert(x));
}

proof fn lemma_all_files_empty(n: nat)
    ensures
        all_files(empty_nodes(n)) == Multiset::<Seq<char>>::empty(),
    decreases n,
{
    if n > 0 {
        assert(empty_nodes(n).drop_last() =~= empty_nodes((n - 1) as nat));
        lemma_all_files_empty((n - 1) as nat);
        assert(empty_nodes(n).last().0 =~= Seq::<Seq<char>>::empty());
        assert(all_files(empty_nodes(n)) =~= Multiset::<Seq<char>>::empty());
    }
}

proof fn lemma_greedy_files(order: Seq<Seq<char>>, m: Map<Seq<char>, nat>, n: nat)
    requires
        n >= 1,
    ensures
        greedy(order, m, n).len() == n,
        all_files(greedy(order, m, n)) == order.to_multiset(),
    decreases order.len(),
{
    if order.len() == 0 {
        lemma_all_files_empty(n);
        assert(order.to_multiset() =~= Multiset::<Seq<char>>::empty());
    } else {
        let prev = greedy(order.drop_last(), m, n);
        lemma_greedy_files(order.drop_last(), m, n);
        lemma_least_loaded(prev);
        let k = least_loaded(prev);
        lemma_all_files_update(prev, k, order.last(), prev[k].1 + m[order.last()]);
        assert(order.drop_last().push(order.last()) =~= order);
    }
}

proof fn lemma_dealt_files(u: Seq<Seq<char>>, n: nat)
    requires
        n >= 1,
    ensures
        all_files(dealt_nodes(u, n)) == u.to_multiset(),
    decreases u.len(),
{
    if u.len() == 0 {
        assert(dealt_nodes(u, n) =~= empty_nodes(n));
        lemma_all_files_empty(n);
        assert(u.to_multiset() =~= Multiset::<Seq<char>>::empty());
    } else {
        let prev = dealt_nodes(u.drop_last(), n);
        let k = (u.len() - 1) % (n as int);
        lemma_dealt_files(u.drop_last(), n);
        assert(dealt_nodes(u, n) =~= prev.update(k, (prev[k].0.push(u.last()), 0nat)));
        lemma_all_files_update(prev, k, u.last(), 0nat);
        assert(u.drop_last().push(u.last()) =~= u);
    }
}

proof fn lemma_merge_files(a: Seq<NodeModel>, b: Seq<NodeModel>)
    requires
        a.len() == b.len(),
    ensures
        all_files(merge_nodes(a, b)) == all_files(a).add(all_files(b)),
    decreases a.len(),
{
    if a.len() == 0 {
        assert(all_files(merge_nodes(a, b)) =~= all_files(a).add(all_files(b)));
    } else {
        assert(merge_nodes(a, b).drop_last() =~= merge_nodes(a.drop_last(), b.drop_last()));
        lemma_merge_files(a.drop_last(), b.drop_last());
        lemma_multiset_commutative(a.last().0, b.last().0);
        assert(all_files(merge_nodes(a, b)) =~= all_files(a).add(all_files(b)));
    }
}

proof fn lemma_split_files(c: Seq<Seq<char>>, m: Map<Seq<char>, nat>)
    ensures
        timed_of(c, m).to_multiset().add(untimed_of(c, m).to_multiset()) == c.to_multiset(),
    decreases c.len(),
{
    if c.len() == 0 {
        assert(c.to_multiset() =~= Multiset::<Seq<char>>::empty());
        assert(timed_of(c, m).to_multiset().add(untimed_of(c, m).to_multiset()) =~= c.to_multiset());
    } else {
        lemma_split_files(c.drop_last(), m);
        assert(c.drop_last().push(c.last()) =~= c);
        assert(timed_of(c, m).to_multiset().add(untimed_of(c, m).to_multiset()) =~= c.to_multiset());
    }
}

proof fn lemma_insert_by_cost_files(s: Seq<Seq<char>>, x: Seq<char>, m: Map<Seq<char>, nat>)
    ensures
        insert_by_cost(s, x, m).to_multiset() == s.to_multiset().insert(x),
    decreases s.len(),
{
    if s.len() == 0 {
        assert(seq![x] =~= s.push(x));
    } else if goes_before(m, x, s[0]) {
        lemma_multiset_commutative(seq![x], s);
        assert(seq![x] =~= Seq::<Seq<char>>::empty().push(x));
        assert(Seq::<Seq<char>>::empty().to_multiset() =~= Multiset::<Seq<char>>::empty());
        assert((seq![x] + s).to_multiset() =~= s.to_multiset().insert(x));
    } else {
        lemma_insert_by_cost_files(s.drop_first(), x, m);
        lemma_multiset_commutative(seq![s[0]], insert_by_cost(s.drop_first(), x, m));
        lemma_multiset_commutative(seq![s[0]], s.drop_first());
        assert(seq![s[0]] + s.drop_first() =~= s);
        assert(insert_by_cost(s, x, m).to_multiset() =~= s.to_multiset().insert(x));
    }
}

proof fn lemma_sort_by_cost_files(s: Seq<Seq<char>>, m: Map<Seq<char>, nat>)
    ensures
        sort_by_cost(s, m).to_multiset() == s.to_multiset(),
    decreases s.len(),
{
    if s.len() == 0 {
        assert(sort_by_cost(s, m) =~= s);
    } else {
        lemma_sort_by_cost_files(s.drop_last(), m);
        lemma_insert_by_cost_files(sort_by_cost(s.drop_last(), m), s.last(), m);
        assert(s.drop_last().push(s.last()) =~= s);
    }
}

/// Every candidate is assigned to exactly one node, once, and nothing else is
/// assigned: the files of all nodes together are the candidates.
pub proof fn lemma_partition_complete(c: Seq<Seq<char>>, m: Map<Seq<char>, nat>, n: nat)
    requires
        n >= 1,
    ensures
        distribution(c, m, n).len() == n,
        all_files(distribution(c, m, n)) == c.to_multiset(),
{
    let order = sort_by_cost(timed_of(c, m), m);
    let g = greedy(order, m, n);
    lemma_greedy_files(order, m, n);
    lemma_sort_by_cost_files(timed_of(c, m), m);
    lemma_dealt_files(untimed_of(c, m), n);
    assert(distribution(c, m, n) =~= merge_nodes(g, dealt_nodes(untimed_of(c, m), n)));
    lemma_merge_files(g, dealt_nodes(untimed_of(c, m), n));
    lemma_split_files(c, m);
}

proof fn lemma_greedy_balanced(order: Seq<Seq<char>>, m: Map<Seq<char>, nat>, n: nat, d: nat)
    requires
        n >= 1,
        forall|k: int| 0 <= k < order.len() ==> m[#[trigger] order[k]] == d,
    ensures
        greedy(order, m, n).len() == n,
        forall|i: int, j: int| 0 <= i < n && 0 <= j < n ==>
            #[trigger] greedy(order, m, n)[i].1 <= #[trigger] greedy(order, m, n)[j].1 + d,
    decreases order.len(),
{
    if order.len() > 0 {
        let prev = greedy(order.drop_last(), m, n);
        assert forall|k: int| 0 <= k < order.drop_last().len() implies m[#[trigger] order.drop_last()[k]] == d by {
            assert(order.drop_last()[k] == order[k]);
        }
        lemma_greedy_balanced(order.drop_last(), m, n, d);
        lemma_least_loaded(prev);
        assert(m[order.last()] == d);
        let g = greedy(order, m, n);
        let k = least_loaded(prev);
        assert forall|i: int, j: int| 0 <= i < n && 0 <= j < n implies #[trigger] g[i].1 <= #[trigger] g[j].1 + d by {
            assert(prev[k].1 <= prev[j].1);
            assert(prev[i].1 <= prev[k].1 + d);
        }
    }
}

proof fn lemma_timed_of_recorded(c: Seq<Seq<char>>, m: Map<Seq<char>, nat>, x: Seq<char>)
    requires
        timed_of(c, m).contains(x),
    ensures
        c.contains(x),
        m.contains_key(x),
    decreases c.len(),
{
    if c.len() > 0 {
        let t = timed_of(c.drop_last(), m);
        if t.contains(x) {
            lemma_timed_of_recorded(c.drop_last(), m, x);
            let k = choose|k: int| 0 <= k < c.len() - 1 && c.drop_last()[k] == x;
            assert(c[k] == x);
        } else {
            let k = choose|k: int| 0 <= k < timed_of(c, m).len() && timed_of(c, m)[k] == x;
            if k < t.len() {
                assert(t[k] == x);
            }
            assert(c[c.len() - 1] == x);
        }
    }
}

/// When every recorded candidate has the same duration `d`, the totals of any
/// two nodes differ by at most `d`.
pub proof fn lemma_balanced_for_equal_durations(c: Seq<Seq<char>>, m: Map<Seq<char>, nat>, n: nat, d: nat)
    requires
        n >= 1,
        forall|p: Seq<char>| c.contains(p) && m.contains_key(p) ==> m[p] == d,
    ensures
        forall|i: int, j: int| 0 <= i < n && 0 <= j < n ==>
            #[trigger] distribution(c, m, n)[i].1 <= #[trigger] distribution(c, m, n)[j].1 + d,
{
    let t = timed_of(c, m);
    let order = sort_by_cost(t, m);
    lemma_sort_by_cost_files(t, m);
    assert forall|k: int| 0 <= k < order.len() implies m[#[trigger] order[k]] == d by {
        assert(order.contains(order[k]));
        assert(order.to_multiset().count(order[k]) > 0);
        assert(t.contains(order[k]));
        lemma_timed_of_recorded(c, m, order[k]);
    }
    lemma_greedy_balanced(order, m, n, d);
}

proof fn lemma_sorted_same_set(a: Seq<Seq<char>>, b: Seq<Seq<char>>)
    requires
        strictly_sorted(a),
        strictly_sorted(b),
        a.to_set() == b.to_set(),
    ensures
        a == b,
    decreases a.len(),
{
    if a.len() == 0 {
        if b.len() > 0 {
            assert(b.to_set().contains(b[0]));
        }
        assert(a =~= b);
    } else {
        assert(a.to_set().contains(a[0]));
        assert(b.len() > 0);
        assert(b.to_set().contains(b[0]));
        let i = choose|i: int| 0 <= i < b.len() && b[i] == a[0];
        let j = choose|j: int| 0 <= j < a.len() && a[j] == b[0];
        if i > 0 {
            if j == 0 {
                lemma_path_lt_irreflexive(b[i]);
            } else {
                lemma_path_lt_asymmetric(a[0], a[j]);
            }
        }
        assert(a[0] == b[0]);
        let a1 = a.drop_first();
        let b1 = b.drop_first();
        assert forall|x: Seq<char>| a1.to_set().contains(x) implies b1.to_set().contains(x) by {
            let k = choose|k: int| 0 <= k < a1.len() && a1[k] == x;
            assert(a[k + 1] == x);
            assert(b.to_set().contains(x));
            let l = choose|l: int| 0 <= l < b.len() && b[l] == x;
            if l == 0 {
                lemma_path_lt_asymmetric(a[0], a[k + 1]);
            } else {
                assert(b1[l - 1] == x);
            }
        }
        assert forall|x: Seq<char>| b1.to_set().contains(x) implies a1.to_set().contains(x) by {
            let k = choose|k: int| 0 <= k < b1.len() && b1[k] == x;
            assert(b[k + 1] == x);
            assert(a.to_set().contains(x));
            let l = choose|l: int| 0 <= l < a.len() && a[l] == x;
            if l == 0 {
                lemma_path_lt_asymmetric(b[0], b[k + 1]);
            } else {
                assert(a1[l - 1] == x);
            }
        }
        assert(a1.to_set() =~= b1.to_set());
        lemma_sorted_same_set(a1, b1);
        assert forall|k: int| 0 < k < a.len() implies a[k] == b[k] by {
            assert(a[k] == a1[k - 1]);
            assert(b[k] == b1[k - 1]);
        }
        assert(a =~= b);
    }
}

/// The candidate list and the distribution depend on which paths the
/// patterns matched, not on the order in which they were listed: lists of
/// candidates that meet the ordering and content that `resolve` promises for
/// the same sets of matches are equal, and so are their distributions.
pub proof fn lemma_order_independent(
    inc1: Seq<Seq<char>>,
    inc2: Seq<Seq<char>>,
    exc1: Seq<Seq<char>>,
    exc2: Seq<Seq<char>>,
    c1: Seq<Seq<char>>,
    c2: Seq<Seq<char>>,
    m: Map<Seq<char>, nat>,
    n: nat,
)
    requires
        inc1.to_set() == inc2.to_set(),
        exc1.to_set() == exc2.to_set(),
        strictly_sorted(c1),
        strictly_sorted(c2),
        c1.to_set() == selected(inc1, exc1),
        c2.to_set() == selected(inc2, exc2),
    ensures
        c1 == c2,
        distribution(c1, m, n) == distribution(c2, m, n),
{
    lemma_sorted_same_set(c1, c2);
}

/// The summed time of the observations attributed to `p`.
pub open spec fn path_sum(obs: Seq<Observation>, p: Seq<char>) -> nat
    decreases obs.len(),
{
    if obs.len() == 0 {
        0
    } else {
        path_sum(obs.drop_last(), p) + if obs.last().0 == Some(p) {
            obs.last().1
        } else {
            0
        }
    }
}

/// Some observation is attributed to `p`.
pub open spec fn path_seen(obs: Seq<Observation>, p: Seq<char>) -> bool {
    exists|k: int| 0 <= k < obs.len() && obs[k].0 == Some(p)
}

proof fn lemma_totals_pointwise(obs: Seq<Observation>, p: Seq<char>)
    ensures
        totals(obs).contains_key(p) == path_seen(obs, p),
        recorded(totals(obs), p) == path_sum(obs, p),
    decreases obs.len(),
{
    if obs.len() > 0 {
        let d = obs.drop_last();
        lemma_totals_pointwise(d, p);
        if path_seen(d, p) {
            let k = choose|k: int| 0 <= k < d.len() && d[k].0 == Some(p);
            assert(obs[k].0 == Some(p));
        }
        if path_seen(obs, p) && obs.last().0 != Some(p) {
            let k = choose|k: int| 0 <= k < obs.len() && obs[k].0 == Some(p);
            assert(d[k].0 == Some(p));
        }
        if obs.last().0 == Some(p) {
            assert(obs[obs.len() - 1].0 == Some(p));
        }
    }
}

proof fn lemma_path_sum_concat(a: Seq<Observation>, b: Seq<Observation>, p: Seq<char>)
    ensures
        path_sum(a + b, p) == path_sum(a, p) + path_sum(b, p),
        path_seen(a + b, p) == (path_seen(a, p) || path_seen(b, p)),
    decreases b.len(),
{
    if b.len() == 0 {
        assert(a + b =~= a);
    } else {
        assert((a + b).drop_last() =~= a + b.drop_last());
        lemma_path_sum_concat(a, b.drop_last(), p);
    }
    if path_seen(a + b, p) {
        let k = choose|k: int| 0 <= k < (a + b).len() && (a + b)[k].0 == Some(p);
        if k >= a.len() {
            assert(b[k - a.len()].0 == Some(p));
        }
    }
    if path_seen(a, p) {
        let k = choose|k: int| 0 <= k < a.len() && a[k].0 == Some(p);
        assert((a + b)[k] == a[k]);
    }
    if path_seen(b, p) {
        let k = choose|k: int| 0 <= k < b.len() && b[k].0 == Some(p);
        assert((a + b)[a.len() + k] == b[k]);
    }
}

proof fn lemma_input_obs_prefix(s: Seq<ReportInput>, t: Seq<ReportInput>, r: int)
    requires
        0 <= r <= s.len(),
        r <= t.len(),
        forall|k: int| 0 <= k < r ==> s[k] == t[k],
    ensures
        input_obs(s, r) == input_obs(t, r),
    decreases r,
{
    if r > 0 {
        lemma_input_obs_prefix(s, t, r - 1);
    }
}

proof fn lemma_input_obs_remove(s: Seq<ReportInput>, i: int, p: Seq<char>)
    requires
        0 <= i < s.len(),
    ensures
        path_sum(input_obs(s, s.len() as int), p) == path_sum(input_obs(s.remove(i), s.len() - 1), p)
            + path_sum(report_obs(s[i]), p),
        path_seen(input_obs(s, s.len() as int), p) == (path_seen(input_obs(s.remove(i), s.len() - 1), p)
            || path_seen(report_obs(s[i]), p)),
    decreases s.len(),
{
    let n = s.len() as int;
    let d = s.drop_last();
    let t = s.remove(i);
    lemma_path_sum_concat(input_obs(s, n - 1), report_obs(s[n - 1]), p);
    if i == n - 1 {
        lemma_input_obs_prefix(s, t, n - 1);
    } else {
        lemma_input_obs_remove(d, i, p);
        lemma_input_obs_prefix(s, d, n - 1);
        lemma_input_obs_prefix(t, d.remove(i), n - 2);
        assert(t[n - 2] == s[n - 1]);
        lemma_path_sum_concat(input_obs(t, n - 2), report_obs(t[n - 2]), p);
    }
}

proof fn lemma_input_obs_permutation(s1: Seq<ReportInput>, s2: Seq<ReportInput>, p: Seq<char>)
    requires
        s1.to_multiset() == s2.to_multiset(),
    ensures
        path_sum(input_obs(s1, s1.len() as int), p) == path_sum(input_obs(s2, s2.len() as int), p),
        path_seen(input_obs(s1, s1.len() as int), p) == path_seen(input_obs(s2, s2.len() as int), p),
    decreases s1.len(),
{
    assert(s1.len() == s1.to_multiset().len());
    assert(s2.len() == s2.to_multiset().len());
    if s1.len() > 0 {
        let n = s1.len() as int;
        let x = s1.last();
        assert(s1.contains(x)) by {
            assert(s1[n - 1] == x);
        }
        assert(s1.to_multiset().count(x) > 0);
        assert(s2.to_multiset().count(x) > 0);
        assert(s2.contains(x));
        let i = choose|i: int| 0 <= i < s2.len() && s2[i] == x;
        let d1 = s1.drop_last();
        let t2 = s2.remove(i);
        assert(d1.to_multiset() =~= t2.to_multiset()) by {
            assert(s1.remove(n - 1) =~= d1);
        }
        lemma_input_obs_permutation(d1, t2, p);
        lemma_input_obs_remove(s2, i, p);
        lemma_input_obs_remove(s1, n - 1, p);
    }
}

/// The record that the reports give does not depend on the order in which the
/// report files were listed: any reordering of the same inputs gives the same
/// totals.
pub proof fn lemma_report_order_independent(in1: Seq<ReportInput>, in2: Seq<ReportInput>)
    requires
        in1.to_multiset() == in2.to_multiset(),
    ensures
        totals(input_obs(in1, in1.len() as int)) == totals(input_obs(in2, in2.len() as int)),
{
    let m1 = totals(input_obs(in1, in1.len() as int));
    let m2 = totals(input_obs(in2, in2.len() as int));
    assert forall|p: Seq<char>| #[trigger] m1.contains_key(p) == m2.contains_key(p) && recorded(m1, p) == recorded(m2, p) by {
        lemma_input_obs_permutation(in1, in2, p);
        lemma_totals_pointwise(input_obs(in1, in1.len() as int), p);
        lemma_totals_pointwise(input_obs(in2, in2.len() as int), p);
    }
    assert forall|p: Seq<char>| m1.contains_key(p) implies m1[p] == m2[p] by {
        assert(m1.contains_key(p) == m2.contains_key(p) && recorded(m1, p) == recorded(m2, p));
    }
    assert(m1 =~= m2);
}

/// No element of `s` goes before an earlier one.
pub open spec fn ordered_by_cost(s: Seq<Seq<char>>, m: Map<Seq<char>, nat>) -> bool {
    forall|i: int, j: int| 0 <= i < j < s.len() ==> !goes_before(m, #[trigger] s[j], #[trigger] s[i])
}

proof fn lemma_goes_before_transitive(m: Map<Seq<char>, nat>, a: Seq<char>, b: Seq<char>, c: Seq<char>)
    requires
        goes_before(m, a, b),
        goes_before(m, b, c),
    ensures
        goes_before(m, a, c),
{
    if m[a] == m[b] && m[b] == m[c] {
        lemma_path_lt_transitive(a, b, c);
    }
}

proof fn lemma_goes_before_irreflexive(m: Map<Seq<char>, nat>, a: Seq<char>)
    ensures
        !goes_before(m, a, a),
{
    lemma_path_lt_irreflexive(a);
}

proof fn lemma_insert_by_cost_ordered(s: Seq<Seq<char>>, x: Seq<char>, m: Map<Seq<char>, nat>)
    requires
        ordered_by_cost(s, m),
    ensures
        ordered_by_cost(insert_by_cost(s, x, m), m),
    decreases s.len(),
{
    let r = insert_by_cost(s, x, m);
    if s.len() == 0 {
    } else if goes_before(m, x, s[0]) {
        assert forall|i: int, j: int| 0 <= i < j < r.len() implies !goes_before(m, #[trigger] r[j], #[trigger] r[i]) by {
            if i == 0 {
                if goes_before(m, r[j], x) {
                    if j == 1 {
                        lemma_goes_before_transitive(m, x, s[0], x);
                        lemma_goes_before_irreflexive(m, x);
                    } else {
                        lemma_goes_before_transitive(m, s[j - 1], x, s[0]);
                    }
                }
            } else {
                assert(r[i] == s[i - 1] && r[j] == s[j - 1]);
            }
        }
    } else {
        let t = s.drop_first();
        assert forall|i: int, j: int| 0 <= i < j < t.len() implies !goes_before(m, #[trigger] t[j], #[trigger] t[i]) by {
            assert(t[i] == s[i + 1] && t[j] == s[j + 1]);
        }
        lemma_insert_by_cost_ordered(t, x, m);
        lemma_insert_by_cost_files(t, x, m);
        let u = insert_by_cost(t, x, m);
        assert forall|i: int, j: int| 0 <= i < j < r.len() implies !goes_before(m, #[trigger] r[j], #[trigger] r[i]) by {
            if i == 0 {
                let y = u[j - 1];
                assert(r[j] == y);
                assert(u.contains(y));
                assert(u.to_multiset().count(y) > 0);
                if y != x {
                    assert(t.to_multiset().count(y) > 0);
                    assert(t.contains(y));
                    let k = choose|k: int| 0 <= k < t.len() && t[k] == y;
                    assert(s[k + 1] == y);
                }
            } else {
                assert(r[i] == u[i - 1] && r[j] == u[j - 1]);
            }
        }
    }
}

/// The timed files are handed out longest first, and among equal durations in
/// path order: no file in the greedy order goes before one handed out earlier.
pub proof fn lemma_greedy_order(c: Seq<Seq<char>>, m: Map<Seq<char>, nat>)
    ensures
        ordered_by_cost(sort_by_cost(timed_of(c, m), m), m),
{
    lemma_sort_ordered(timed_of(c, m), m);
}

proof fn lemma_sort_ordered(s: Seq<Seq<char>>, m: Map<Seq<char>, nat>)
    ensures
        ordered_by_cost(sort_by_cost(s, m), m),
    decreases s.len(),
{
    if s.len() > 0 {
        lemma_sort_ordered(s.drop_last(), m);
        lemma_insert_by_cost_ordered(sort_by_cost(s.drop_last(), m), s.last(), m);
    }
}

} // verus!

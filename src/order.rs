//! Publish order: repeated elimination passes over the pending packages.

use crate::graph::{
    build_graph, build_spec, copy_string, dropped, lemma_build_unique, lemma_index_of_name, names_unique, record_of, seq_has, string_views, views, CrateInfo,
    CrateView, MetadataField, RawPackage,
};
use crate::name_map::{
    names_contains, name_map_entries, names_get, names_insert, names_len,
    names_new,
};
use indexmap::IndexMap;
use vstd::prelude::*;

verus! {

/// Some pending package carries `name`.
pub open spec fn pending_has(g: Seq<CrateView>, p: Seq<usize>, name: Seq<char>) -> bool {
    exists|j: int| 0 <= j < p.len() && g[p[j] as int].name == name
}

/// None of the dependencies of package `i` is still pending.
pub open spec fn is_ready(g: Seq<CrateView>, p: Seq<usize>, i: usize) -> bool {
    forall|d: int|
        0 <= d < g[i as int].dependencies.len() ==> !pending_has(g, p, g[i as int].dependencies[d])
}

/// One pass over `s` (a prefix of the pending sequence `p`): the packages
/// found ready, and those left, each in scan order.
pub open spec fn split_pass(g: Seq<CrateView>, p: Seq<usize>, s: Seq<usize>) -> (Seq<usize>, Seq<usize>)
    decreases s.len(),
{
    if s.len() == 0 {
        (seq![], seq![])
    } else {
        let prev = split_pass(g, p, s.drop_last());
        if is_ready(g, p, s.last()) {
            (prev.0.push(s.last()), prev.1)
        } else {
            (prev.0, prev.1.push(s.last()))
        }
    }
}

pub proof fn lemma_split_len(g: Seq<CrateView>, p: Seq<usize>, s: Seq<usize>)
    ensures
        split_pass(g, p, s).0.len() + split_pass(g, p, s).1.len() == s.len(),
    decreases s.len(),
{
    if s.len() > 0 {
        lemma_split_len(g, p, s.drop_last());
    }
}

/// Elimination passes until nothing is pending: the order in which packages
/// leave, or the packages still pending when a pass finds none ready.
pub open spec fn passes(g: Seq<CrateView>, p: Seq<usize>) -> Result<Seq<usize>, Seq<usize>>
    decreases p.len(),
    via passes_decreases
{
    if p.len() == 0 {
        Ok(seq![])
    } else {
        let (r, k) = split_pass(g, p, p);
        if r.len() == 0 {
            Err(p)
        } else {
            match passes(g, k) {
                Ok(o) => Ok(r + o),
                Err(e) => Err(e),
            }
        }
    }
}

#[via_fn]
proof fn passes_decreases(g: Seq<CrateView>, p: Seq<usize>) {
    lemma_split_len(g, p, p);
}

/// Positions `0 .. n` in order.
pub open spec fn all_positions(n: nat) -> Seq<usize> {
    Seq::new(n, |i: int| i as usize)
}

/// The publish plan of a graph, or the names left when it has a cycle.
pub open spec fn plan_spec(g: Seq<CrateView>) -> Result<Seq<CrateView>, Seq<Seq<char>>> {
    match passes(g, all_positions(g.len())) {
        Ok(o) => Ok(o.map_values(|i: usize| g[i as int])),
        Err(e) => Err(e.map_values(|i: usize| g[i as int].name)),
    }
}

pub open spec fn prepend(a: Seq<usize>, r: Result<Seq<usize>, Seq<usize>>) -> Result<Seq<usize>, Seq<usize>> {
    match r {
        Ok(o) => Ok(a + o),
        Err(e) => Err(e),
    }
}

pub open spec fn entries_of(g: Seq<CrateView>, p: Seq<usize>) -> Seq<(Seq<char>, usize)> {
    p.map_values(|i: usize| (g[i as int].name, i))
}

pub open spec fn distinct_in(p: Seq<usize>, n: nat) -> bool {
    &&& forall|a: int| 0 <= a < p.len() ==> p[a] < n
    &&& forall|a: int, b: int| 0 <= a < p.len() && 0 <= b < p.len() && a != b ==> p[a] != p[b]
}


pub proof fn lemma_split_facts(g: Seq<CrateView>, p: Seq<usize>, s: Seq<usize>)
    ensures
        forall|a: int| 0 <= a < split_pass(g, p, s).0.len() ==> is_ready(g, p, #[trigger] split_pass(g, p, s).0[a]) && s.contains(split_pass(g, p, s).0[a]),
        forall|a: int| 0 <= a < split_pass(g, p, s).1.len() ==> !is_ready(g, p, #[trigger] split_pass(g, p, s).1[a]) && s.contains(split_pass(g, p, s).1[a]),
        forall|t: int| 0 <= t < s.len() ==> split_pass(g, p, s).0.contains(#[trigger] s[t]) || split_pass(g, p, s).1.contains(s[t]),
    decreases s.len(),
{
    if s.len() > 0 {
        let s0 = s.drop_last();
        lemma_split_facts(g, p, s0);
        let prev = split_pass(g, p, s0);
        let cur = split_pass(g, p, s);
        assert forall|a: int| 0 <= a < cur.0.len() implies is_ready(g, p, #[trigger] cur.0[a]) && s.contains(cur.0[a]) by {
            if a < prev.0.len() {
                assert(cur.0[a] == prev.0[a]);
                let w = choose|w: int| 0 <= w < s0.len() && s0[w] == prev.0[a];
                assert(s[w] == s0[w]);
            } else {
                assert(s[s.len() - 1] == cur.0[a]);
            }
        }
        assert forall|a: int| 0 <= a < cur.1.len() implies !is_ready(g, p, #[trigger] cur.1[a]) && s.contains(cur.1[a]) by {
            if a < prev.1.len() {
                assert(cur.1[a] == prev.1[a]);
                let w = choose|w: int| 0 <= w < s0.len() && s0[w] == prev.1[a];
                assert(s[w] == s0[w]);
            } else {
                assert(s[s.len() - 1] == cur.1[a]);
            }
        }
        assert forall|t: int| 0 <= t < s.len() implies cur.0.contains(#[trigger] s[t]) || cur.1.contains(s[t]) by {
            if t < s.len() - 1 {
                assert(s[t] == s0[t]);
                if prev.0.contains(s0[t]) {
                    let w = choose|w: int| 0 <= w < prev.0.len() && prev.0[w] == s0[t];
                    assert(cur.0[w] == prev.0[w]);
                } else {
                    let w = choose|w: int| 0 <= w < prev.1.len() && prev.1[w] == s0[t];
                    assert(cur.1[w] == prev.1[w]);
                }
            } else {
                if is_ready(g, p, s.last()) {
                    assert(cur.0[cur.0.len() - 1] == s[t]);
                } else {
                    assert(cur.1[cur.1.len() - 1] == s[t]);
                }
            }
        }
    }
}

/// Within the passes from pending set `p`, every package leaves after the
/// pending packages it depends on, and only pending packages leave.
pub proof fn lemma_passes_ordered(g: Seq<CrateView>, p: Seq<usize>)
    requires
        passes(g, p) is Ok,
    ensures
        forall|x: int| 0 <= x < passes(g, p)->Ok_0.len() ==> p.contains(#[trigger] passes(g, p)->Ok_0[x]),
        forall|t: int| 0 <= t < p.len() ==> passes(g, p)->Ok_0.contains(#[trigger] p[t]),
        forall|x: int, d: int|
            0 <= x < passes(g, p)->Ok_0.len() && 0 <= d < g[passes(g, p)->Ok_0[x] as int].dependencies.len()
                && pending_has(g, p, #[trigger] g[passes(g, p)->Ok_0[x] as int].dependencies[d])
                ==> exists|y: int| 0 <= y < x && g[passes(g, p)->Ok_0[y] as int].name == g[passes(g, p)->Ok_0[x] as int].dependencies[d],
    decreases p.len(),
{
    if p.len() > 0 {
        let (r, k) = split_pass(g, p, p);
        lemma_split_len(g, p, p);
        lemma_split_facts(g, p, p);
        let o = passes(g, p)->Ok_0;
        let o2 = passes(g, k)->Ok_0;
        lemma_passes_ordered(g, k);
        assert(o == r + o2);
        assert forall|x: int| 0 <= x < o.len() implies p.contains(#[trigger] o[x]) by {
            if x < r.len() {
                assert(o[x] == r[x]);
            } else {
                assert(o[x] == o2[x - r.len()]);
                let w = choose|w: int| 0 <= w < k.len() && k[w] == o2[x - r.len()];
                assert(k.contains(k[w]));
            }
        }
        assert forall|t: int| 0 <= t < p.len() implies o.contains(#[trigger] p[t]) by {
            if r.contains(p[t]) {
                let m = choose|m: int| 0 <= m < r.len() && r[m] == p[t];
                assert(o[m] == r[m]);
            } else {
                let m = choose|m: int| 0 <= m < k.len() && k[m] == p[t];
                assert(o2.contains(k[m]));
                let w = choose|w: int| 0 <= w < o2.len() && o2[w] == k[m];
                assert(o[w + r.len()] == o2[w]);
            }
        }
        assert forall|x: int, d: int|
            0 <= x < o.len() && 0 <= d < g[o[x] as int].dependencies.len()
                && pending_has(g, p, #[trigger] g[o[x] as int].dependencies[d])
            implies exists|y: int| 0 <= y < x && g[o[y] as int].name == g[o[x] as int].dependencies[d] by {
            let dep = g[o[x] as int].dependencies[d];
            if x < r.len() {
                assert(o[x] == r[x]);
                assert(is_ready(g, p, r[x]));
            } else {
                let x2 = x - r.len();
                assert(o[x] == o2[x2]);
                let j = choose|j: int| 0 <= j < p.len() && g[p[j] as int].name == dep;
                if r.contains(p[j]) {
                    let m = choose|m: int| 0 <= m < r.len() && r[m] == p[j];
                    assert(o[m] == r[m]);
                } else {
                    assert(k.contains(p[j]));
                    let m = choose|m: int| 0 <= m < k.len() && k[m] == p[j];
                    assert(pending_has(g, k, g[o2[x2] as int].dependencies[d]));
                    let y2 = choose|y: int| 0 <= y < x2 && g[o2[y] as int].name == g[o2[x2] as int].dependencies[d];
                    assert(o[y2 + r.len()] == o2[y2]);
                }
            }
        }
    }
}

/// Every package of the graph is in the plan, and a package of the plan
/// comes after every package of the graph that it depends on.
pub proof fn lemma_plan_respects_dependencies(g: Seq<CrateView>)
    requires
        g.len() <= usize::MAX,
        plan_spec(g) is Ok,
    ensures
        forall|i: int| 0 <= i < g.len() ==> plan_spec(g)->Ok_0.contains(#[trigger] g[i]),
        forall|x: int, d: int, i: int|
            #![trigger plan_spec(g)->Ok_0[x].dependencies[d], g[i]]
            0 <= x < plan_spec(g)->Ok_0.len() && 0 <= d < plan_spec(g)->Ok_0[x].dependencies.len()
                && 0 <= i < g.len() && g[i].name == plan_spec(g)->Ok_0[x].dependencies[d]
                ==> exists|y: int| 0 <= y < x && plan_spec(g)->Ok_0[y].name == g[i].name,
{
    let all = all_positions(g.len());
    lemma_passes_ordered(g, all);
    let o = passes(g, all)->Ok_0;
    let plan = plan_spec(g)->Ok_0;
    assert forall|i: int| 0 <= i < g.len() implies plan.contains(#[trigger] g[i]) by {
        assert(all[i] == i);
        assert(o.contains(all[i]));
        let w = choose|w: int| 0 <= w < o.len() && o[w] == all[i];
        assert(plan[w] == g[i]);
    }
    assert forall|x: int, d: int, i: int|
        #![trigger plan[x].dependencies[d], g[i]]
        0 <= x < plan.len() && 0 <= d < plan[x].dependencies.len() && 0 <= i < g.len()
            && g[i].name == plan[x].dependencies[d]
        implies exists|y: int| 0 <= y < x && plan[y].name == g[i].name by {
        assert(plan[x] == g[o[x] as int]);
        assert(all[i] == i);
        assert(pending_has(g, all, g[o[x] as int].dependencies[d]));
        let y = choose|y: int| 0 <= y < x && g[o[y] as int].name == g[o[x] as int].dependencies[d];
        assert(plan[y] == g[o[y] as int]);
    }
}

/// Two pending packages that depend on each other never leave: the passes
/// end in the error, and it holds both.
pub proof fn lemma_passes_keep_mutual(g: Seq<CrateView>, p: Seq<usize>, a: usize, b: usize)
    requires
        a < g.len(),
        b < g.len(),
        p.contains(a),
        p.contains(b),
        seq_has(g[a as int].dependencies, g[b as int].name),
        seq_has(g[b as int].dependencies, g[a as int].name),
    ensures
        passes(g, p) is Err,
        passes(g, p)->Err_0.contains(a),
        passes(g, p)->Err_0.contains(b),
    decreases p.len(),
{
    let (r, k) = split_pass(g, p, p);
    lemma_split_len(g, p, p);
    lemma_split_facts(g, p, p);
    let ja = choose|j: int| 0 <= j < p.len() && p[j] == a;
    let jb = choose|j: int| 0 <= j < p.len() && p[j] == b;
    let da = choose|d: int| 0 <= d < g[a as int].dependencies.len() && g[a as int].dependencies[d] == g[b as int].name;
    let db = choose|d: int| 0 <= d < g[b as int].dependencies.len() && g[b as int].dependencies[d] == g[a as int].name;
    assert(pending_has(g, p, g[a as int].dependencies[da]));
    assert(pending_has(g, p, g[b as int].dependencies[db]));
    assert(!is_ready(g, p, a));
    assert(!is_ready(g, p, b));
    assert(!r.contains(a)) by {
        if r.contains(a) {
            let m = choose|m: int| 0 <= m < r.len() && r[m] == a;
            assert(is_ready(g, p, r[m]));
        }
    }
    assert(!r.contains(b)) by {
        if r.contains(b) {
            let m = choose|m: int| 0 <= m < r.len() && r[m] == b;
            assert(is_ready(g, p, r[m]));
        }
    }
    assert(p[ja] == a && p[jb] == b);
    assert(k.contains(a) && k.contains(b));
    if r.len() > 0 {
        lemma_passes_keep_mutual(g, k, a, b);
    }
}

/// Two packages that depend on each other make ordering fail, and the error
/// names both.
pub proof fn lemma_mutual_dependency_is_cycle(g: Seq<CrateView>, a: int, b: int)
    requires
        g.len() <= usize::MAX,
        0 <= a < g.len(),
        0 <= b < g.len(),
        seq_has(g[a].dependencies, g[b].name),
        seq_has(g[b].dependencies, g[a].name),
    ensures
        plan_spec(g) is Err,
        seq_has(plan_spec(g)->Err_0, g[a].name),
        seq_has(plan_spec(g)->Err_0, g[b].name),
{
    let all = all_positions(g.len());
    assert(all[a] == a as usize && all[b] == b as usize);
    lemma_passes_keep_mutual(g, all, a as usize, b as usize);
    let e = passes(g, all)->Err_0;
    let ma = choose|m: int| 0 <= m < e.len() && e[m] == a as usize;
    let mb = choose|m: int| 0 <= m < e.len() && e[m] == b as usize;
    assert(e[ma] == a);
    assert(e[mb] == b);
    assert(plan_spec(g)->Err_0[ma] == g[a].name);
    assert(plan_spec(g)->Err_0[mb] == g[b].name);
}

/// When the passes fail, no package left pending is ready among those left,
/// and at least one is left.
pub proof fn lemma_passes_error_is_stuck(g: Seq<CrateView>, p: Seq<usize>)
    requires
        passes(g, p) is Err,
    ensures
        passes(g, p)->Err_0.len() > 0,
        forall|t: int| 0 <= t < passes(g, p)->Err_0.len() ==> !is_ready(g, passes(g, p)->Err_0, #[trigger] passes(g, p)->Err_0[t]),
    decreases p.len(),
{
    let (r, k) = split_pass(g, p, p);
    lemma_split_len(g, p, p);
    lemma_split_facts(g, p, p);
    if r.len() == 0 {
        assert(passes(g, p) == Err::<Seq<usize>, Seq<usize>>(p));
        assert forall|t: int| 0 <= t < p.len() implies !is_ready(g, p, #[trigger] p[t]) by {
            assert(r.contains(p[t]) || k.contains(p[t]));
            let m = choose|m: int| 0 <= m < k.len() && k[m] == p[t];
            assert(!is_ready(g, p, k[m]));
        }
    } else {
        assert(passes(g, p) == passes(g, k));
        lemma_passes_error_is_stuck(g, k);
    }
}

/// Some packages of the graph, at least one, each depend on a package of
/// the same set: the graph has a cycle.
pub open spec fn stuck_set(g: Seq<CrateView>, names: Seq<Seq<char>>) -> bool {
    &&& names.len() > 0
    &&& forall|u: int| 0 <= u < names.len() ==> exists|i: int, d: int|
        0 <= i < g.len() && g[i].name == #[trigger] names[u] && 0 <= d < g[i].dependencies.len()
            && seq_has(names, g[i].dependencies[d])
}

/// When ordering fails, the names it reports form a cycle: each is a
/// package that depends on a package named in the report.
pub proof fn lemma_cycle_error_is_stuck(g: Seq<CrateView>)
    requires
        g.len() <= usize::MAX,
        plan_spec(g) is Err,
    ensures
        stuck_set(g, plan_spec(g)->Err_0),
{
    let all = all_positions(g.len());
    lemma_passes_error_is_stuck(g, all);
    lemma_error_in_pending(g, all);
    let e = passes(g, all)->Err_0;
    let names = plan_spec(g)->Err_0;
    assert(names == e.map_values(|x: usize| g[x as int].name));
    assert forall|u: int| 0 <= u < names.len() implies exists|i: int, d: int|
        0 <= i < g.len() && g[i].name == #[trigger] names[u] && 0 <= d < g[i].dependencies.len()
            && seq_has(names, g[i].dependencies[d]) by {
        assert(all.contains(e[u]));
        let w = choose|w: int| 0 <= w < all.len() && all[w] == e[u];
        let i = w;
        assert(e[u] as int == i);
        assert(!is_ready(g, e, e[u]));
        let d = choose|d: int| 0 <= d < g[i].dependencies.len() && pending_has(g, e, g[i].dependencies[d]);
        let j = choose|j: int| 0 <= j < e.len() && g[e[j] as int].name == g[i].dependencies[d];
        assert(names[j] == g[e[j] as int].name);
        assert(seq_has(names, g[i].dependencies[d]));
        assert(names[u] == g[i].name);
    }
}

pub proof fn lemma_error_in_pending(g: Seq<CrateView>, p: Seq<usize>)
    requires
        passes(g, p) is Err,
    ensures
        forall|t: int| 0 <= t < passes(g, p)->Err_0.len() ==> p.contains(#[trigger] passes(g, p)->Err_0[t]),
    decreases p.len(),
{
    let (r, k) = split_pass(g, p, p);
    lemma_split_len(g, p, p);
    lemma_split_facts(g, p, p);
    if r.len() > 0 {
        lemma_error_in_pending(g, k);
        assert forall|t: int| 0 <= t < passes(g, p)->Err_0.len() implies p.contains(#[trigger] passes(g, p)->Err_0[t]) by {
            let x = passes(g, k)->Err_0[t];
            let m = choose|m: int| 0 <= m < k.len() && k[m] == x;
            assert(k.contains(k[m]));
        }
    } else {
        assert forall|t: int| 0 <= t < p.len() implies p.contains(#[trigger] p[t]) by {}
    }
}

/// A graph without a cycle always gets a plan.
pub proof fn lemma_acyclic_graph_has_plan(g: Seq<CrateView>)
    requires
        g.len() <= usize::MAX,
        forall|names: Seq<Seq<char>>| !stuck_set(g, names),
    ensures
        plan_spec(g) is Ok,
{
    if plan_spec(g) is Err {
        lemma_cycle_error_is_stuck(g);
    }
}

/// Two graphs with the same package names whose packages depend on the
/// same packages of the graph; they may differ in dependencies that name
/// no package of the graph.
pub open spec fn same_tracked_edges(g: Seq<CrateView>, g2: Seq<CrateView>) -> bool {
    &&& g.len() == g2.len()
    &&& forall|i: int| 0 <= i < g.len() ==> #[trigger] g2[i].name == g[i].name
    &&& forall|i: int, j: int|
        #![trigger g[i], g[j]]
        0 <= i < g.len() && 0 <= j < g.len() ==> (seq_has(g[i].dependencies, g[j].name) <==> seq_has(
            g2[i].dependencies,
            g[j].name,
        ))
}

pub open spec fn in_range(p: Seq<usize>, n: nat) -> bool {
    forall|a: int| 0 <= a < p.len() ==> #[trigger] p[a] < n
}

proof fn lemma_same_ready(g: Seq<CrateView>, g2: Seq<CrateView>, p: Seq<usize>, i: usize)
    requires
        same_tracked_edges(g, g2),
        in_range(p, g.len()),
        i < g.len(),
    ensures
        is_ready(g, p, i) == is_ready(g2, p, i),
{
    if !is_ready(g, p, i) {
        let d = choose|d: int| 0 <= d < g[i as int].dependencies.len() && pending_has(g, p, g[i as int].dependencies[d]);
        let x = g[i as int].dependencies[d];
        let j = choose|j: int| 0 <= j < p.len() && g[p[j] as int].name == x;
        let q = p[j] as int;
        assert(p[j] < g.len());
        assert(seq_has(g[i as int].dependencies, g[q].name));
        assert(seq_has(g2[i as int].dependencies, g[q].name));
        let d2 = choose|d2: int| 0 <= d2 < g2[i as int].dependencies.len() && g2[i as int].dependencies[d2] == g[q].name;
        assert(g2[q].name == g[q].name);
        assert(pending_has(g2, p, g2[i as int].dependencies[d2]));
    }
    if !is_ready(g2, p, i) {
        let d = choose|d: int| 0 <= d < g2[i as int].dependencies.len() && pending_has(g2, p, g2[i as int].dependencies[d]);
        let x = g2[i as int].dependencies[d];
        let j = choose|j: int| 0 <= j < p.len() && g2[p[j] as int].name == x;
        let q = p[j] as int;
        assert(p[j] < g.len());
        assert(g2[q].name == g[q].name);
        assert(seq_has(g2[i as int].dependencies, g[q].name));
        assert(seq_has(g[i as int].dependencies, g[q].name));
        let d1 = choose|d1: int| 0 <= d1 < g[i as int].dependencies.len() && g[i as int].dependencies[d1] == g[q].name;
        assert(pending_has(g, p, g[i as int].dependencies[d1]));
    }
}

proof fn lemma_same_split(g: Seq<CrateView>, g2: Seq<CrateView>, p: Seq<usize>, s: Seq<usize>)
    requires
        same_tracked_edges(g, g2),
        in_range(p, g.len()),
        in_range(s, g.len()),
    ensures
        split_pass(g, p, s) == split_pass(g2, p, s),
    decreases s.len(),
{
    if s.len() > 0 {
        assert(in_range(s.drop_last(), g.len())) by {
            assert forall|a: int| 0 <= a < s.len() - 1 implies #[trigger] s.drop_last()[a] < g.len() by {
                assert(s.drop_last()[a] == s[a]);
            }
        }
        lemma_same_split(g, g2, p, s.drop_last());
        assert(s.last() == s[s.len() - 1]);
        lemma_same_ready(g, g2, p, s.last());
    }
}

proof fn lemma_same_passes(g: Seq<CrateView>, g2: Seq<CrateView>, p: Seq<usize>)
    requires
        same_tracked_edges(g, g2),
        in_range(p, g.len()),
    ensures
        passes(g, p) == passes(g2, p),
    decreases p.len(),
{
    if p.len() > 0 {
        lemma_same_split(g, g2, p, p);
        lemma_split_len(g, p, p);
        lemma_split_facts(g, p, p);
        let k = split_pass(g, p, p).1;
        assert forall|a: int| 0 <= a < k.len() implies #[trigger] k[a] < g.len() by {
            let w = choose|w: int| 0 <= w < p.len() && p[w] == k[a];
        }
        if split_pass(g, p, p).0.len() > 0 {
            lemma_same_passes(g, g2, k);
        }
    }
}

/// Dependencies that name no package of the graph, such as those on
/// excluded or unpublishable packages, change nothing: deleting them leaves
/// the outcome of ordering the same, package for package.
pub proof fn lemma_untracked_dependencies_change_nothing(g: Seq<CrateView>, g2: Seq<CrateView>)
    requires
        g.len() <= usize::MAX,
        same_tracked_edges(g, g2),
    ensures
        plan_spec(g) is Ok <==> plan_spec(g2) is Ok,
        plan_spec(g) is Ok ==> plan_spec(g)->Ok_0.map_values(|c: CrateView| c.name)
            == plan_spec(g2)->Ok_0.map_values(|c: CrateView| c.name),
        plan_spec(g) is Err ==> plan_spec(g)->Err_0 == plan_spec(g2)->Err_0,
{
    let all = all_positions(g.len());
    assert forall|a: int| 0 <= a < all.len() implies #[trigger] all[a] < g.len() by {}
    lemma_same_passes(g, g2, all);
    if plan_spec(g) is Ok {
        lemma_passes_ordered(g, all);
        let o = passes(g, all)->Ok_0;
        assert forall|x: int| 0 <= x < o.len() implies #[trigger] o[x] < g.len() by {
            let w = choose|w: int| 0 <= w < all.len() && all[w] == o[x];
        }
        assert(plan_spec(g)->Ok_0.map_values(|c: CrateView| c.name)
            =~= plan_spec(g2)->Ok_0.map_values(|c: CrateView| c.name));
    } else {
        lemma_error_in_pending(g, all);
        let e = passes(g, all)->Err_0;
        assert forall|x: int| 0 <= x < e.len() implies #[trigger] e[x] < g.len() by {
            let w = choose|w: int| 0 <= w < all.len() && all[w] == e[x];
        }
        assert(plan_spec(g)->Err_0 =~= plan_spec(g2)->Err_0);
    }
}

pub proof fn lemma_all_ready_split(g: Seq<CrateView>, p: Seq<usize>, s: Seq<usize>)
    requires
        forall|t: int| 0 <= t < s.len() ==> is_ready(g, p, #[trigger] s[t]),
    ensures
        split_pass(g, p, s) == (s, Seq::<usize>::empty()),
    decreases s.len(),
{
    if s.len() > 0 {
        lemma_all_ready_split(g, p, s.drop_last());
        assert(s.drop_last().push(s.last()) =~= s);
    }
}

/// Dependencies that name no package of the graph never hold a package
/// back: when no package depends on another of the graph, the plan is the
/// graph in its own order.
pub proof fn lemma_untracked_names_never_block(g: Seq<CrateView>)
    requires
        g.len() <= usize::MAX,
        forall|i: int, d: int, j: int|
            #![trigger g[i].dependencies[d], g[j]]
            0 <= i < g.len() && 0 <= d < g[i].dependencies.len() && 0 <= j < g.len()
                ==> g[j].name != g[i].dependencies[d],
    ensures
        plan_spec(g) == Ok::<Seq<CrateView>, Seq<Seq<char>>>(g),
{
    let all = all_positions(g.len());
    assert forall|t: int| 0 <= t < all.len() implies is_ready(g, all, #[trigger] all[t]) by {
        assert(all[t] == t);
    }
    lemma_all_ready_split(g, all, all);
    if g.len() > 0 {
        assert(passes(g, Seq::<usize>::empty()) == Ok::<Seq<usize>, Seq<usize>>(seq![]));
        assert(all + Seq::<usize>::empty() =~= all);
    }
    assert(all.map_values(|i: usize| g[i as int]) =~= g);
}

/// Whether every dependency of a package has already left the pending set.
fn deps_clear(
    pending: &IndexMap<String, usize>,
    deps: &Vec<String>,
    Ghost(g): Ghost<Seq<CrateView>>,
    Ghost(p): Ghost<Seq<usize>>,
) -> (r: bool)
    requires
        name_map_entries(*pending) == entries_of(g, p),
        distinct_in(p, g.len()),
    ensures
        r == forall|d: int| 0 <= d < deps@.len() ==> !pending_has(g, p, deps@[d]@),
{
    let mut t: usize = 0;
    while t < deps.len()
        invariant
            t <= deps.len(),
            name_map_entries(*pending) == entries_of(g, p),
            forall|d: int| 0 <= d < t ==> !pending_has(g, p, deps@[d]@),
        decreases deps.len() - t,
    {
        let found = names_contains(pending, &deps[t]);
        if found {
            let ghost e = entries_of(g, p);
            let ghost w = choose|w: int| 0 <= w < e.len() && e[w].0 == deps@[t as int]@;
            assert(g[p[w] as int].name == deps@[t as int]@);
            return false;
        } else {
            assert forall|j: int| 0 <= j < p.len() implies g[p[j] as int].name != deps@[t as int]@ by {
                assert(entries_of(g, p)[j].0 == g[p[j] as int].name);
            }
        }
        t += 1;
    }
    true
}

/// Orders the packages of a graph so that each comes after the packages it
/// depends on, by elimination passes: each pass takes, in graph order, every
/// pending package none of whose dependencies is still pending. When a pass
/// takes none, the names still pending are the error, in graph order.
pub fn sort_crates(graph: &Vec<CrateInfo>) -> (r: Result<Vec<CrateInfo>, Vec<String>>)
    requires
        names_unique(views(graph@)),
    ensures
        r is Ok <==> plan_spec(views(graph@)) is Ok,
        r is Ok ==> views(r->Ok_0@) == plan_spec(views(graph@))->Ok_0,
        r is Err ==> string_views(r->Err_0@) == plan_spec(views(graph@))->Err_0,
{
    let ghost g = views(graph@);
    let n = graph.len();
    let mut pending = names_new();
    let mut i: usize = 0;
    while i < n
        invariant
            n == graph.len(),
            g == views(graph@),
            names_unique(g),
            i <= n,
            name_map_entries(pending) == entries_of(g, all_positions(i as nat)),
        decreases n - i,
    {
        proof {
            assert forall|m: int| 0 <= m < i implies #[trigger] entries_of(g, all_positions(i as nat))[m].0 != graph@[i as int].name@ by {
                assert(g[m].name != g[i as int].name);
            }
        }
        names_insert(&mut pending, copy_string(&graph[i].name), i);
        i += 1;
        assert(entries_of(g, all_positions(i as nat)) =~= entries_of(g, all_positions((i - 1) as nat)).push((g[i - 1].name, (i - 1) as usize)));
    }
    let ghost p = all_positions(n as nat);
    let ghost done: Seq<usize> = seq![];
    let mut out: Vec<CrateInfo> = Vec::new();
    while names_len(&pending) > 0
        invariant
            n == graph.len(),
            g == views(graph@),
            names_unique(g),
            name_map_entries(pending) == entries_of(g, p),
            distinct_in(p, n as nat),
            passes(g, all_positions(n as nat)) == prepend(done, passes(g, p)),
            views(out@) == done.map_values(|x: usize| g[x as int]),
        decreases p.len(),
    {
        let len = names_len(&pending);
        let mut next = names_new();
        let ghost r: Seq<usize> = seq![];
        let ghost k: Seq<usize> = seq![];
        let ghost out0 = views(out@);
        let mut taken: usize = 0;
        let mut j: usize = 0;
        while j < len
            invariant
                len == p.len(),
                j <= len,
                taken == r.len(),
                r.len() <= j,
                n == graph.len(),
                g == views(graph@),
                names_unique(g),
                name_map_entries(pending) == entries_of(g, p),
                distinct_in(p, n as nat),
                (r, k) == split_pass(g, p, p.subrange(0, j as int)),
                name_map_entries(next) == entries_of(g, k),
                distinct_in(k, n as nat),
                forall|m: int, t: int| 0 <= m < k.len() && j <= t < p.len() ==> k[m] != p[t],
                views(out@) == out0 + r.map_values(|x: usize| g[x as int]),
            decreases len - j,
        {
            let entry = names_get(&pending, j);
            let (name, idx) = match entry {
                Some(e) => e,
                None => {
                    proof {
                        assert(false);
                    }
                    return Ok(out);
                },
            };
            proof {
                assert(entries_of(g, p)[j as int] == (g[p[j as int] as int].name, p[j as int]));
                assert(p.subrange(0, j + 1).drop_last() =~= p.subrange(0, j as int));
            }
            assert(idx < n);
            assert(g[idx as int] == graph@[idx as int]@);
            if deps_clear(&pending, &graph[idx].dependencies, Ghost(g), Ghost(p)) {
                assert(is_ready(g, p, idx));
                let ghost vb = views(out@);
                let c = graph[idx].duplicate();
                out.push(c);
                assert(views(out@) =~= vb.push(c@));
                proof {
                    lemma_split_len(g, p, p.subrange(0, j as int));
                    r = r.push(idx);
                    assert(r.map_values(|x: usize| g[x as int]) =~= r.drop_last().map_values(|x: usize| g[x as int]).push(g[idx as int]));
                }
                taken += 1;
                assert(views(out@) =~= out0 + r.map_values(|x: usize| g[x as int]));
            } else {
                proof {
                    let ghost deps = graph@[idx as int].dependencies@;
                    let dd = choose|d: int| 0 <= d < deps.len() && pending_has(g, p, deps[d]@);
                    assert(g[idx as int].dependencies[dd] == deps[dd]@);
                }
                assert(!is_ready(g, p, idx));
                proof {
                    assert forall|m: int| 0 <= m < k.len() implies #[trigger] entries_of(g, k)[m].0 != name@ by {
                        assert(k[m] != p[j as int]);
                        assert(g[k[m] as int].name != g[p[j as int] as int].name);
                    }
                }
                names_insert(&mut next, copy_string(name), idx);
                proof {
                    k = k.push(idx);
                }
                assert(entries_of(g, k) =~= entries_of(g, k.drop_last()).push((g[idx as int].name, idx)));
            }
            j += 1;
        }
        assert(p.subrange(0, j as int) =~= p);
        proof {
            lemma_split_len(g, p, p);
        }
        if taken == 0 {
            // A pass took nothing: the pending packages are the error.
            let mut names: Vec<String> = Vec::new();
            let mut t: usize = 0;
            while t < len
                invariant
                    len == p.len(),
                    t <= len,
                    n == graph.len(),
                    g == views(graph@),
                    distinct_in(p, n as nat),
                    name_map_entries(pending) == entries_of(g, p),
                    string_views(names@) == p.subrange(0, t as int).map_values(|x: usize| g[x as int].name),
                decreases len - t,
            {
                match names_get(&pending, t) {
                    Some((nm, _)) => {
                        assert(entries_of(g, p)[t as int].0 == g[p[t as int] as int].name);
                        let ghost nb = string_views(names@);
                        let c = copy_string(nm);
                        names.push(c);
                        assert(string_views(names@) =~= nb.push(c@));
                        assert(p.subrange(0, t + 1) =~= p.subrange(0, t as int).push(p[t as int]));
                        t += 1;
                        assert(string_views(names@) =~= p.subrange(0, t as int).map_values(|x: usize| g[x as int].name));
                    },
                    None => {
                        proof {
                            assert(false);
                        }
                        return Err(names);
                    },
                }
            }
            assert(p.subrange(0, t as int) =~= p);
            return Err(names);
        }
        proof {
            assert(passes(g, p) == prepend(r, passes(g, k)));
            match passes(g, k) {
                Ok(o) => {
                    assert(done + (r + o) =~= (done + r) + o);
                },
                Err(e) => {},
            }
            done = done + r;
            assert(views(out@) =~= done.map_values(|x: usize| g[x as int]));
            p = k;
        }
        pending = next;
    }
    proof {
        assert(done + Seq::<usize>::empty() =~= done);
    }
    Ok(out)
}

/// Why no publish order could be made.
#[derive(Debug)]
pub enum OrderError {
    /// The metadata lacks a field, or holds it in the wrong shape.
    MetadataParse(MetadataField),
    /// No package is ready while some are pending; these are their names.
    CircularDependency(Vec<String>),
}

/// The outcome of ordering a snapshot, over its mathematical values.
pub enum OrderOutcome {
    Plan(Seq<CrateView>),
    Metadata(MetadataField),
    Cycle(Seq<Seq<char>>),
}

pub open spec fn order_spec(pkgs: Seq<RawPackage>, exclude: Seq<Seq<char>>, prefix: Seq<char>) -> OrderOutcome {
    match build_spec(pkgs, exclude, prefix) {
        Err(f) => OrderOutcome::Metadata(f),
        Ok(g) => match plan_spec(g) {
            Ok(plan) => OrderOutcome::Plan(plan),
            Err(names) => OrderOutcome::Cycle(names),
        },
    }
}

pub open spec fn outcome_of(r: Result<Vec<CrateInfo>, OrderError>) -> OrderOutcome {
    match r {
        Ok(v) => OrderOutcome::Plan(views(v@)),
        Err(OrderError::MetadataParse(f)) => OrderOutcome::Metadata(f),
        Err(OrderError::CircularDependency(names)) => OrderOutcome::Cycle(string_views(names@)),
    }
}

/// Builds the graph of a snapshot and orders it for publishing.
pub fn order_packages(pkgs: &Vec<RawPackage>, exclude: &Vec<String>, prefix: &str) -> (r: Result<
    Vec<CrateInfo>,
    OrderError,
>)
    ensures
        outcome_of(r) == order_spec(pkgs@, string_views(exclude@), prefix@),
{
    let graph = match build_graph(pkgs, exclude, prefix) {
        Ok(g) => g,
        Err(f) => return Err(OrderError::MetadataParse(f)),
    };
    proof {
        lemma_build_unique(pkgs@, string_views(exclude@), prefix@);
    }
    match sort_crates(&graph) {
        Ok(plan) => Ok(plan),
        Err(names) => Err(OrderError::CircularDependency(names)),
    }
}

/// Every record of a built graph comes from a publishable entry whose name
/// is not excluded.
pub proof fn lemma_graph_only_publishable(pkgs: Seq<RawPackage>, exclude: Seq<Seq<char>>, prefix: Seq<char>)
    requires
        build_spec(pkgs, exclude, prefix) is Ok,
    ensures
        build_spec(pkgs, exclude, prefix)->Ok_0.len() <= pkgs.len(),
        forall|i: int| 0 <= i < build_spec(pkgs, exclude, prefix)->Ok_0.len() ==> {
            let c = #[trigger] build_spec(pkgs, exclude, prefix)->Ok_0[i];
            &&& !seq_has(exclude, c.name)
            &&& exists|q: int| 0 <= q < pkgs.len() && pkgs[q].name is Some && pkgs[q].name->Some_0@ == c.name && !pkgs[q].unpublishable
        },
    decreases pkgs.len(),
{
    if pkgs.len() > 0 {
        let pk0 = pkgs.drop_last();
        lemma_graph_only_publishable(pk0, exclude, prefix);
        let g0 = build_spec(pk0, exclude, prefix)->Ok_0;
        let g = build_spec(pkgs, exclude, prefix)->Ok_0;
        let last = pkgs.last();
        if !dropped(last, exclude) {
            lemma_index_of_name(g0, record_of(last, prefix).name);
        }
        assert forall|i: int| 0 <= i < g.len() implies {
            let c = #[trigger] g[i];
            &&& !seq_has(exclude, c.name)
            &&& exists|q: int| 0 <= q < pkgs.len() && pkgs[q].name is Some && pkgs[q].name->Some_0@ == c.name && !pkgs[q].unpublishable
        } by {
            if !dropped(last, exclude) && g[i] == record_of(last, prefix) {
                assert(pkgs[pkgs.len() - 1] == last);
            } else {
                assert(i < g0.len() && g[i] == g0[i]);
                let q = choose|q: int| 0 <= q < pk0.len() && pk0[q].name is Some && pk0[q].name->Some_0@ == g0[i].name && !pk0[q].unpublishable;
                assert(pkgs[q] == pk0[q]);
            }
        }
    }
}

/// A package that is unpublishable or excluded never appears in the plan:
/// every planned package has a name outside the exclusion list and comes
/// from a publishable entry.
pub proof fn lemma_filtered_packages_never_planned(pkgs: Seq<RawPackage>, exclude: Seq<Seq<char>>, prefix: Seq<char>)
    requires
        pkgs.len() <= usize::MAX,
        order_spec(pkgs, exclude, prefix) is Plan,
    ensures
        forall|x: int| 0 <= x < order_spec(pkgs, exclude, prefix)->Plan_0.len() ==> {
            let c = #[trigger] order_spec(pkgs, exclude, prefix)->Plan_0[x];
            &&& !seq_has(exclude, c.name)
            &&& exists|q: int| 0 <= q < pkgs.len() && pkgs[q].name is Some && pkgs[q].name->Some_0@ == c.name && !pkgs[q].unpublishable
        },
{
    lemma_graph_only_publishable(pkgs, exclude, prefix);
    let g = build_spec(pkgs, exclude, prefix)->Ok_0;
    let all = all_positions(g.len());
    lemma_passes_ordered(g, all);
    let o = passes(g, all)->Ok_0;
    let plan = order_spec(pkgs, exclude, prefix)->Plan_0;
    assert forall|x: int| 0 <= x < plan.len() implies {
        let c = #[trigger] plan[x];
        &&& !seq_has(exclude, c.name)
        &&& exists|q: int| 0 <= q < pkgs.len() && pkgs[q].name is Some && pkgs[q].name->Some_0@ == c.name && !pkgs[q].unpublishable
    } by {
        assert(all.contains(o[x]));
        let w = choose|w: int| 0 <= w < all.len() && all[w] == o[x];
        assert(plan[x] == g[o[x] as int]);
        assert(g[w] == g[o[x] as int]);
    }
}

} // verus!

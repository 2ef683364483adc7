//! The dependency graph of a composition and the search for a cycle in it.
//!
//! Nodes are the paths of the components, edges run from a provider to each
//! component that depends on it. A composition may only start when the graph
//! has no cycle; otherwise the cycle is reported by the paths on it.

use vstd::prelude::*;
use crate::error::Error;
use crate::manifest::{ComponentDeclaration, ProvidedBinding, RequiredBinding};

verus! {

/// A dependency graph: node `i` is named `names[i]`, and `children[i]` lists
/// the nodes that depend on it.
pub struct Graph {
    pub names: Vec<String>,
    pub children: Vec<Vec<usize>>,
}

impl Graph {
    /// Every edge joins two nodes of the graph.
    pub open spec fn well_formed(&self) -> bool {
        &&& self.children@.len() == self.names@.len()
        &&& forall|i: int, k: int| 0 <= i < self.children@.len() && 0 <= k < self.children@[i]@.len()
            ==> #[trigger] self.children@[i]@[k] < self.names@.len()
    }

    /// There is an edge from `u` to `v`.
    pub open spec fn edge(&self, u: int, v: int) -> bool {
        exists|k: int| 0 <= k < self.children@[u]@.len() && #[trigger] self.children@[u]@[k] == v
    }

    /// `c` is a closed walk along edges: at least one edge, ending where it
    /// starts.
    pub open spec fn is_cycle(&self, c: Seq<usize>) -> bool {
        &&& c.len() >= 2
        &&& c[0] == c.last()
        &&& forall|i: int| 0 <= i < c.len() ==> #[trigger] c[i] < self.names@.len()
        &&& forall|i: int| 0 <= i < c.len() - 1 ==> #[trigger] self.edge(c[i] as int, c[i + 1] as int)
    }

    /// The graph has no cycle.
    pub open spec fn acyclic(&self) -> bool {
        forall|c: Seq<usize>| !#[trigger] self.is_cycle(c)
    }
}

/// The number of unmarked entries.
pub open spec fn unmarked(v: Seq<bool>) -> nat
    decreases v.len(),
{
    if v.len() == 0 {
        0
    } else {
        unmarked(v.drop_last()) + if v.last() { 0nat } else { 1nat }
    }
}

/// Marking an unmarked entry leaves one fewer unmarked.
pub proof fn lemma_mark(v: Seq<bool>, i: int)
    requires
        0 <= i < v.len(),
        !v[i],
    ensures
        unmarked(v.update(i, true)) + 1 == unmarked(v),
    decreases v.len(),
{
    if i < v.len() - 1 {
        lemma_mark(v.drop_last(), i);
        assert(v.update(i, true).drop_last() =~= v.drop_last().update(i, true));
    } else {
        assert(v.update(i, true).drop_last() =~= v.drop_last());
    }
}

/// The state of a depth-first search: nodes on the current path are
/// `active`; finished nodes are `done` with their finishing `rank`.
pub open spec fn search_ok(g: &Graph, active: Seq<bool>, done: Seq<bool>, rank: Seq<usize>, clock: usize, stack: Seq<usize>) -> bool {
    let n = g.names@.len();
    &&& active.len() == n && done.len() == n && rank.len() == n
    &&& forall|i: int| 0 <= i < stack.len() ==> #[trigger] stack[i] < n
    &&& forall|i: int| 0 <= i < stack.len() - 1 ==> #[trigger] g.edge(stack[i] as int, stack[i + 1] as int)
    &&& forall|x: int| 0 <= x < n ==> (#[trigger] active[x] <==> exists|i: int| 0 <= i < stack.len() && stack[i] == x)
    &&& forall|x: int| 0 <= x < n && #[trigger] done[x] ==> !active[x] && rank[x] < clock
    &&& forall|x: int, k: int| #![trigger g.children@[x]@[k]] 0 <= x < n && done[x] && 0 <= k < g.children@[x]@.len()
        ==> done[g.children@[x]@[k] as int] && rank[g.children@[x]@[k] as int] < rank[x]
}

/// Visits `node`, reached from the top of `stack` when that is not empty.
fn visit(
    g: &Graph,
    node: usize,
    active: &mut Vec<bool>,
    done: &mut Vec<bool>,
    rank: &mut Vec<usize>,
    clock: &mut usize,
    stack: &mut Vec<usize>,
) -> (r: Result<(), Vec<usize>>)
    requires
        g.well_formed(),
        node < g.names@.len(),
        search_ok(g, old(active)@, old(done)@, old(rank)@, *old(clock), old(stack)@),
        old(stack)@.len() > 0 ==> g.edge(old(stack)@.last() as int, node as int),
        *old(clock) + unmarked(old(done)@) <= usize::MAX,
    ensures
        match r {
            Ok(()) => {
                &&& search_ok(g, final(active)@, final(done)@, final(rank)@, *final(clock), final(stack)@)
                &&& final(stack)@ == old(stack)@
                &&& final(active)@ == old(active)@
                &&& final(done)@[node as int]
                &&& forall|x: int| 0 <= x < g.names@.len() && #[trigger] old(done)@[x] ==> final(done)@[x] && final(rank)@[x] == old(rank)@[x]
                &&& *final(clock) + unmarked(final(done)@) <= *old(clock) + unmarked(old(done)@)
            },
            Err(c) => g.is_cycle(c@),
        },
    decreases unmarked(old(active)@),
{
    if done[node] {
        return Ok(());
    }
    if active[node] {
        let ghost s = stack@;
        let mut start: usize = 0;
        while start < stack.len() && stack[start] != node
            invariant
                start <= s.len(),
                s == stack@,
                forall|i: int| 0 <= i < start ==> s[i] != node,
            decreases s.len() - start,
        {
            start += 1;
        }
        assert(start < s.len()) by {
            assert(exists|i: int| 0 <= i < s.len() && s[i] == node);
        }
        let mut cycle: Vec<usize> = Vec::new();
        let mut i: usize = start;
        while i < stack.len()
            invariant
                start <= i <= s.len(),
                s == stack@,
                cycle@ == s.subrange(start as int, i as int),
            decreases s.len() - i,
        {
            cycle.push(stack[i]);
            i += 1;
        }
        cycle.push(node);
        assert(g.is_cycle(cycle@)) by {
            assert forall|j: int| 0 <= j < cycle@.len() - 1 implies #[trigger] g.edge(cycle@[j] as int, cycle@[j + 1] as int) by {
                if j < cycle@.len() - 2 {
                    assert(cycle@[j] == s[start + j] && cycle@[j + 1] == s[start + j + 1]);
                } else {
                    assert(cycle@[j] == s.last());
                }
            }
        }
        return Err(cycle);
    }
    proof { lemma_mark(active@, node as int); }
    let ghost before_stack = stack@;
    active.set(node, true);
    stack.push(node);
    proof {
        let n = g.names@.len();
        assert forall|x: int| 0 <= x < n implies (#[trigger] active@[x] <==> exists|i: int| 0 <= i < stack@.len() && stack@[i] == x) by {
            if x == node {
                assert(stack@[stack@.len() - 1] == x);
            } else {
                if old(active)@[x] {
                    let i = choose|i: int| 0 <= i < before_stack.len() && before_stack[i] == x;
                    assert(stack@[i] == x);
                }
                if exists|i: int| 0 <= i < stack@.len() && stack@[i] == x {
                    let i = choose|i: int| 0 <= i < stack@.len() && stack@[i] == x;
                    assert(i < before_stack.len());
                    assert(before_stack[i] == x);
                }
            }
        }
        assert forall|i: int| 0 <= i < stack@.len() - 1 implies #[trigger] g.edge(stack@[i] as int, stack@[i + 1] as int) by {
            if i < before_stack.len() - 1 {
                assert(stack@[i] == before_stack[i] && stack@[i + 1] == before_stack[i + 1]);
            } else {
                assert(stack@[i] == before_stack.last() && stack@[i + 1] == node);
            }
        }
        assert forall|i: int| 0 <= i < stack@.len() implies #[trigger] stack@[i] < n by {
            if i < before_stack.len() {
                assert(stack@[i] == before_stack[i]);
            }
        }
    }
    let ghost entry_done = done@;
    let ghost entry_rank = rank@;
    let ghost entry_clock = *clock;
    let children = &g.children[node];
    let mut k: usize = 0;
    while k < children.len()
        invariant
            g.well_formed(),
            node < g.names@.len(),
            children == &g.children@[node as int],
            k <= children@.len(),
            search_ok(g, active@, done@, rank@, *clock, stack@),
            stack@ == old(stack)@.push(node),
            active@ == old(active)@.update(node as int, true),
            unmarked(active@) + 1 == unmarked(old(active)@),
            !done@[node as int],
            forall|j: int| 0 <= j < k ==> #[trigger] done@[children@[j] as int],
            forall|x: int| 0 <= x < g.names@.len() && #[trigger] old(done)@[x] ==> done@[x] && rank@[x] == old(rank)@[x],
            *clock + unmarked(done@) <= *old(clock) + unmarked(old(done)@),
            *old(clock) + unmarked(old(done)@) <= usize::MAX,
            old(active)@.len() == g.names@.len(),
            old(done)@.len() == g.names@.len(),
        decreases children@.len() - k,
    {
        let child = children[k];
        assert(g.edge(node as int, child as int));
        let ghost done_pre = done@;
        match visit(g, child, active, done, rank, clock, stack) {
            Ok(()) => {},
            Err(c) => return Err(c),
        }
        assert(active@[node as int]);
        assert(!done@[node as int]);
        assert forall|j: int| 0 <= j < k + 1 implies #[trigger] done@[children@[j] as int] by {
            if j < k {
                assert(done_pre[children@[j] as int]);
            }
        }
        k += 1;
    }
    stack.pop();
    active.set(node, false);
    assert(active@ =~= old(active)@);
    assert(stack@ =~= old(stack)@);
    proof { lemma_mark(done@, node as int); }
    assert(search_ok(g, old(active)@.update(node as int, true), done@, rank@, *clock, old(stack)@.push(node)));
    let ghost done_mid = done@;
    let ghost rank_mid = rank@;
    let ghost clock_mid = *clock;
    done.set(node, true);
    rank.set(node, *clock);
    *clock = *clock + 1;
    proof {
        let n = g.names@.len();
        assert forall|x: int| 0 <= x < n && #[trigger] done@[x] implies !active@[x] && rank@[x] < *clock by {
            if x != node {
                assert(done_mid[x]);
            }
        }
        assert forall|x: int, j: int| #![trigger g.children@[x]@[j]] 0 <= x < n && done@[x] && 0 <= j < g.children@[x]@.len()
            implies done@[g.children@[x]@[j] as int] && rank@[g.children@[x]@[j] as int] < rank@[x] by {
            let child = g.children@[x]@[j] as int;
            if x == node {
                assert(done_mid[child]);
                assert(child != node);
            } else {
                assert(done_mid[x]);
                assert(done_mid[child] && rank_mid[child] < rank_mid[x]);
                assert(child != node);
            }
        }
    }
    Ok(())
}

/// Ranks strictly decrease along the edges of finished nodes, so no walk
/// along them closes.
proof fn lemma_ranked_acyclic(g: &Graph, active: Seq<bool>, done: Seq<bool>, rank: Seq<usize>, clock: usize, stack: Seq<usize>, c: Seq<usize>)
    requires
        g.well_formed(),
        search_ok(g, active, done, rank, clock, stack),
        forall|x: int| 0 <= x < g.names@.len() ==> #[trigger] done[x],
    ensures
        !g.is_cycle(c),
{
    if g.is_cycle(c) {
        assert forall|j: int| 0 <= j < c.len() - 1 implies rank[c[j + 1] as int] < rank[#[trigger] c[j] as int] by {
            assert(g.edge(c[j] as int, c[j + 1] as int));
            let u = c[j] as int;
            let v = c[j + 1] as int;
            let k = choose|k: int| 0 <= k < g.children@[u]@.len() && #[trigger] g.children@[u]@[k] == v;
            assert(done[c[j] as int]);
            assert(done[g.children@[c[j] as int]@[k] as int] && rank[g.children@[c[j] as int]@[k] as int] < rank[c[j] as int]);
        }
        lemma_decreasing(rank, c, c.len() - 1);
    }
}

/// Strictly decreasing ranks along a walk end below where they start.
proof fn lemma_decreasing(rank: Seq<usize>, c: Seq<usize>, m: int)
    requires
        1 <= m < c.len(),
        forall|i: int| 0 <= i < c.len() ==> #[trigger] c[i] < rank.len(),
        forall|j: int| 0 <= j < c.len() - 1 ==> rank[c[j + 1] as int] < rank[#[trigger] c[j] as int],
    ensures
        rank[c[m] as int] < rank[c[0] as int],
    decreases m,
{
    if m > 1 {
        lemma_decreasing(rank, c, m - 1);
        assert(rank[c[m] as int] < rank[c[m - 1] as int]);
    } else {
        assert(rank[c[1] as int] < rank[c[0] as int]);
    }
}

/// Finds a dependency cycle by depth-first search from each node in order,
/// each node's dependents in order; refused with the paths on the first
/// cycle met.
pub fn detect_cycle(g: &Graph) -> (r: Result<(), Error>)
    requires
        g.well_formed(),
    ensures
        r is Ok <==> g.acyclic(),
        r matches Err(e) ==> e matches Error::DependencyCycle(names) && exists|c: Seq<usize>| #[trigger] g.is_cycle(c) && names@ == names_of(g, c),
{
    let n = g.names.len();
    let mut active: Vec<bool> = Vec::new();
    let mut done: Vec<bool> = Vec::new();
    let mut rank: Vec<usize> = Vec::new();
    let mut i: usize = 0;
    while i < n
        invariant
            i <= n == g.names@.len(),
            active@.len() == i && done@.len() == i && rank@.len() == i,
            forall|x: int| 0 <= x < i ==> !#[trigger] active@[x],
            forall|x: int| 0 <= x < i ==> !#[trigger] done@[x],
        decreases n - i,
    {
        active.push(false);
        done.push(false);
        rank.push(0);
        i += 1;
    }
    let mut clock: usize = 0;
    let mut stack: Vec<usize> = Vec::new();
    proof {
        lemma_unmarked_bound(done@);
        assert forall|x: int| 0 <= x < n implies (#[trigger] active@[x] <==> exists|i: int| 0 <= i < stack@.len() && stack@[i] == x) by {
            assert(!active@[x]);
        }
        assert forall|x: int| 0 <= x < n && #[trigger] done@[x] implies !active@[x] && rank@[x] < clock by {
            assert(!done@[x]);
        }
        assert(search_ok(g, active@, done@, rank@, clock, stack@));
    }
    let mut node: usize = 0;
    while node < n
        invariant
            g.well_formed(),
            node <= n == g.names@.len(),
            search_ok(g, active@, done@, rank@, clock, stack@),
            stack@.len() == 0,
            forall|x: int| 0 <= x < node ==> #[trigger] done@[x],
            clock + unmarked(done@) <= n,
        decreases n - node,
    {
        let ghost done_before = done@;
        match visit(g, node, &mut active, &mut done, &mut rank, &mut clock, &mut stack) {
            Ok(()) => {},
            Err(c) => {
                let names = cycle_names(g, &c);
                return Err(Error::DependencyCycle(names));
            },
        }
        assert forall|x: int| 0 <= x < node + 1 implies #[trigger] done@[x] by {
            if x < node {
                assert(done_before[x]);
            }
        }
        node += 1;
    }
    proof {
        assert forall|c: Seq<usize>| !#[trigger] g.is_cycle(c) by {
            lemma_ranked_acyclic(g, active@, done@, rank@, clock, stack@, c);
        }
    }
    Ok(())
}

/// There are at most as many unmarked entries as entries.
proof fn lemma_unmarked_bound(v: Seq<bool>)
    ensures
        unmarked(v) <= v.len(),
    decreases v.len(),
{
    if v.len() > 0 {
        lemma_unmarked_bound(v.drop_last());
    }
}

/// The names of the nodes on a walk.
pub open spec fn names_of(g: &Graph, c: Seq<usize>) -> Seq<String> {
    c.map_values(|i: usize| g.names@[i as int])
}

/// Returns the names of the nodes on a walk.
fn cycle_names(g: &Graph, c: &Vec<usize>) -> (r: Vec<String>)
    requires
        forall|i: int| 0 <= i < c@.len() ==> #[trigger] c@[i] < g.names@.len(),
    ensures
        r@ == names_of(g, c@),
{
    let mut out: Vec<String> = Vec::new();
    let mut i: usize = 0;
    while i < c.len()
        invariant
            i <= c@.len(),
            forall|j: int| 0 <= j < c@.len() ==> #[trigger] c@[j] < g.names@.len(),
            out@ == names_of(g, c@.take(i as int)),
        decreases c@.len() - i,
    {
        out.push(g.names[c[i]].clone());
        assert(names_of(g, c@.take(i + 1)) =~= names_of(g, c@.take(i as int)).push(g.names@[c@[i as int] as int]));
        i += 1;
    }
    assert(c@.take(c@.len() as int) =~= c@);
    out
}

/// A component of a composition: its path and its declaration.
#[derive(Clone, Debug, PartialEq, Eq)]
pub struct Entry {
    pub path: String,
    pub component: ComponentDeclaration,
}

/// Two provisions provide the same interface name.
pub open spec fn same_key(p: ProvidedBinding, q: ProvidedBinding) -> bool {
    p.namespace@ == q.namespace@ && p.interface@ == q.interface@
}

/// The provisions of some entries, in order.
pub open spec fn flat(entries: Seq<Entry>) -> Seq<ProvidedBinding>
    decreases entries.len(),
{
    if entries.len() == 0 {
        Seq::empty()
    } else {
        flat(entries.drop_last()) + entries.last().component.provide@
    }
}

/// The first provision from `j` on whose interface name an earlier one
/// already provides.
pub open spec fn first_collision(ps: Seq<ProvidedBinding>, j: nat) -> Option<int>
    decreases ps.len() - j,
{
    if j >= ps.len() {
        None
    } else if exists|i: int| 0 <= i < j && #[trigger] same_key(ps[i], ps[j as int]) {
        Some(j as int)
    } else {
        first_collision(ps, j + 1)
    }
}

/// A requirement accepts a provision: same kind and name, and a revision in
/// its range.
pub open spec fn satisfies(r: RequiredBinding, p: ProvidedBinding) -> bool {
    &&& r.kind == p.kind
    &&& r.namespace@ == p.namespace@
    &&& r.interface@ == p.interface@
    &&& r.min_revision <= p.revision <= r.max_revision
}

/// Some provision of `provider` satisfies some requirement of `consumer`.
pub open spec fn serves(provider: Entry, consumer: Entry) -> bool {
    exists|k: int, j: int| 0 <= k < provider.component.provide@.len() && 0 <= j < consumer.component.inject@.len()
        && #[trigger] satisfies(consumer.component.inject@[j], provider.component.provide@[k])
}

/// The position of the first entry from `start` on with path `path`.
pub open spec fn first_path(entries: Seq<Entry>, path: Seq<char>, start: nat) -> Option<int>
    decreases entries.len() - start,
{
    if start >= entries.len() {
        None
    } else if entries[start as int].path@ == path {
        Some(start as int)
    } else {
        first_path(entries, path, start + 1)
    }
}

/// The node of an entry: the first entry with its path.
pub open spec fn node(entries: Seq<Entry>, i: int) -> int {
    match first_path(entries, entries[i].path@, 0) {
        Some(j) => j,
        None => i,
    }
}

/// The component at node `b` depends on the component at node `a`.
pub open spec fn depends(entries: Seq<Entry>, a: int, b: int) -> bool {
    exists|u: int, v: int| 0 <= u < entries.len() && 0 <= v < entries.len() && node(entries, u) == a
        && node(entries, v) == b && #[trigger] serves(entries[u], entries[v])
}

/// `c` is a closed walk of dependencies.
pub open spec fn dependency_cycle(entries: Seq<Entry>, c: Seq<usize>) -> bool {
    &&& c.len() >= 2
    &&& c[0] == c.last()
    &&& forall|i: int| 0 <= i < c.len() ==> #[trigger] c[i] < entries.len()
    &&& forall|i: int| 0 <= i < c.len() - 1 ==> #[trigger] depends(entries, c[i] as int, c[i + 1] as int)
}

/// The paths of the entries at some positions.
pub open spec fn paths_at(entries: Seq<Entry>, c: Seq<usize>) -> Seq<String> {
    c.map_values(|i: usize| entries[i as int].path)
}

/// The entries a composition may start with: no two provisions provide the
/// same interface name; the first that repeats one is refused as a
/// collision. Otherwise refused exactly when dependencies form a cycle,
/// reported by the paths on it.
pub open spec fn entries_ok(entries: Seq<Entry>, r: Result<(), Error>) -> bool {
    match first_collision(flat(entries), 0) {
        Some(j) => r == Err::<(), Error>(Error::ProviderCollision {
            namespace: flat(entries)[j].namespace,
            interface: flat(entries)[j].interface,
            revision: flat(entries)[j].revision,
        }),
        None => {
            &&& (r is Ok <==> forall|c: Seq<usize>| !#[trigger] dependency_cycle(entries, c))
            &&& (r matches Err(e) ==> e matches Error::DependencyCycle(names)
                && exists|c: Seq<usize>| #[trigger] dependency_cycle(entries, c) && names@ == paths_at(entries, c))
        },
    }
}

/// Returns whether two strings are equal.
fn same_string(a: &String, b: &String) -> (r: bool)
    ensures
        r == (a@ == b@),
{
    let x = a.as_str().as_bytes();
    let y = b.as_str().as_bytes();
    proof {
        vstd::utf8::encode_utf8_decode_utf8(a@);
        vstd::utf8::encode_utf8_decode_utf8(b@);
    }
    crate::composition::bytes_equal(x, y)
}

/// Returns whether a requirement accepts a provision.
fn satisfied(r: &RequiredBinding, p: &ProvidedBinding) -> (b: bool)
    ensures
        b == satisfies(*r, *p),
{
    r.kind == p.kind && same_string(&r.namespace, &p.namespace) && same_string(&r.interface, &p.interface)
        && r.min_revision <= p.revision && p.revision <= r.max_revision
}

/// Returns whether `provider` serves `consumer`.
fn serves_exec(provider: &Entry, consumer: &Entry) -> (b: bool)
    ensures
        b == serves(*provider, *consumer),
{
    let provide = &provider.component.provide;
    let inject = &consumer.component.inject;
    let mut k: usize = 0;
    while k < provide.len()
        invariant
            k <= provide@.len(),
            provide == &provider.component.provide,
            inject == &consumer.component.inject,
            forall|kk: int, j: int| 0 <= kk < k && 0 <= j < inject@.len() ==> !#[trigger] satisfies(inject@[j], provide@[kk]),
        decreases provide@.len() - k,
    {
        let mut j: usize = 0;
        while j < inject.len()
            invariant
                j <= inject@.len(),
                k < provide@.len(),
                provide == &provider.component.provide,
                inject == &consumer.component.inject,
                forall|jj: int| 0 <= jj < j ==> !#[trigger] satisfies(inject@[jj], provide@[k as int]),
            decreases inject@.len() - j,
        {
            if satisfied(&inject[j], &provide[k]) {
                return true;
            }
            j += 1;
        }
        k += 1;
    }
    false
}

/// The provisions of a prefix of the entries begin the provisions of all.
pub proof fn lemma_flat_prefix(entries: Seq<Entry>, m: nat, n: nat)
    requires
        m <= n <= entries.len(),
    ensures
        flat(entries.take(m as int)).len() <= flat(entries.take(n as int)).len(),
        forall|i: int| 0 <= i < flat(entries.take(m as int)).len() ==> #[trigger] flat(entries.take(n as int))[i] == flat(entries.take(m as int))[i],
    decreases n,
{
    if m < n {
        lemma_flat_prefix(entries, m, (n - 1) as nat);
        assert(entries.take(n as int).drop_last() =~= entries.take(n - 1));
        let a = flat(entries.take(m as int));
        let b = flat(entries.take(n - 1));
        let c = flat(entries.take(n as int));
        assert forall|i: int| 0 <= i < a.len() implies #[trigger] c[i] == a[i] by {
            assert(c[i] == b[i]);
        }
    }
}

/// Finds the first provision whose interface name an earlier one provides.
#[verifier::spinoff_prover]
fn check_collisions(entries: &Vec<Entry>) -> (r: Result<(), Error>)
    ensures
        match first_collision(flat(entries@), 0) {
            Some(j) => r == Err::<(), Error>(Error::ProviderCollision {
                namespace: flat(entries@)[j].namespace,
                interface: flat(entries@)[j].interface,
                revision: flat(entries@)[j].revision,
            }),
            None => r == Ok::<(), Error>(()),
        },
{
    let ghost ps = flat(entries@);
    let mut seen: Vec<(String, String)> = Vec::new();
    let mut e: usize = 0;
    assert(entries@.take(entries@.len() as int) =~= entries@);
    assert(flat(entries@.take(0)) =~= Seq::<ProvidedBinding>::empty());
    while e < entries.len()
        invariant
            e <= entries@.len(),
            ps == flat(entries@),
            seen@.len() == flat(entries@.take(e as int)).len(),
            seen@.len() <= ps.len(),
            forall|i: int| 0 <= i < seen@.len() ==> #[trigger] seen@[i].0@ == ps[i].namespace@ && seen@[i].1@ == ps[i].interface@,
            first_collision(ps, 0) == first_collision(ps, seen@.len() as nat),
        decreases entries@.len() - e,
    {
        proof {
            lemma_flat_prefix(entries@, (e + 1) as nat, entries@.len());
            assert(entries@.take(e + 1).drop_last() =~= entries@.take(e as int));
            assert(entries@.take(entries@.len() as int) =~= entries@);
        }
        let provide = &entries[e].component.provide;
        let ghost base = seen@.len();
        let mut k: usize = 0;
        while k < provide.len()
            invariant
                e < entries@.len(),
                k <= provide@.len(),
                provide == &entries@[e as int].component.provide,
                ps == flat(entries@),
                base == flat(entries@.take(e as int)).len(),
                flat(entries@.take(e + 1)) == flat(entries@.take(e as int)) + provide@,
                forall|i: int| 0 <= i < flat(entries@.take(e + 1)).len() ==> #[trigger] ps[i] == flat(entries@.take(e + 1))[i],
                flat(entries@.take(e + 1)).len() <= ps.len(),
                seen@.len() == base + k,
                forall|i: int| 0 <= i < seen@.len() ==> #[trigger] seen@[i].0@ == ps[i].namespace@ && seen@[i].1@ == ps[i].interface@,
                first_collision(ps, 0) == first_collision(ps, seen@.len() as nat),
            decreases provide@.len() - k,
        {
            let p = &provide[k];
            let pos = seen.len();
            assert(ps[pos as int] == flat(entries@.take(e + 1))[pos as int]);
            assert(ps[pos as int] == *p);
            let mut i: usize = 0;
            while i < seen.len() && !(same_string(&seen[i].0, &p.namespace) && same_string(&seen[i].1, &p.interface))
                invariant
                    i <= seen@.len() == pos,
                    pos < ps.len(),
                    ps[pos as int] == *p,
                    forall|x: int| 0 <= x < seen@.len() ==> #[trigger] seen@[x].0@ == ps[x].namespace@ && seen@[x].1@ == ps[x].interface@,
                    forall|x: int| 0 <= x < i ==> !#[trigger] same_key(ps[x], ps[pos as int]),
                decreases seen@.len() - i,
            {
                i += 1;
            }
            if i < seen.len() {
                assert(same_key(ps[i as int], ps[pos as int]));
                return Err(Error::ProviderCollision {
                    namespace: p.namespace.clone(),
                    interface: p.interface.clone(),
                    revision: p.revision,
                });
            }
            assert(!exists|x: int| 0 <= x < pos && #[trigger] same_key(ps[x], ps[pos as int]));
            let ghost before = seen@;
            seen.push((p.namespace.clone(), p.interface.clone()));
            proof {
                assert forall|x: int| 0 <= x < seen@.len() implies #[trigger] seen@[x].0@ == ps[x].namespace@ && seen@[x].1@ == ps[x].interface@ by {
                    if x < pos {
                        assert(seen@[x] == before[x]);
                    }
                }
            }
            k += 1;
        }
        e += 1;
    }
    assert(seen@.len() == ps.len());
    Ok(())
}

/// A found path position holds that path and lies in the entries.
pub proof fn lemma_first_path(entries: Seq<Entry>, path: Seq<char>, start: nat)
    ensures
        first_path(entries, path, start) matches Some(j) ==> start <= j < entries.len() && entries[j].path@ == path,
        (exists|i: int| start <= i < entries.len() && entries[i].path@ == path) ==> first_path(entries, path, start) is Some,
    decreases entries.len() - start,
{
    if start < entries.len() {
        lemma_first_path(entries, path, start + 1);
        if entries[start as int].path@ != path {
            if exists|i: int| start <= i < entries.len() && entries[i].path@ == path {
                let i = choose|i: int| start <= i < entries.len() && entries[i].path@ == path;
                assert(i != start);
            }
        }
    }
}

/// The node of an entry is an entry at or before it.
pub proof fn lemma_node(entries: Seq<Entry>, i: int)
    requires
        0 <= i < entries.len(),
    ensures
        0 <= node(entries, i) <= i,
{
    lemma_first_path(entries, entries[i].path@, 0);
    let j = first_path(entries, entries[i].path@, 0)->0;
    if j > i {
        lemma_first_path_before(entries, entries[i].path@, 0, i);
    }
}

/// The first position with a path comes no later than any position with it.
proof fn lemma_first_path_before(entries: Seq<Entry>, path: Seq<char>, start: nat, i: int)
    requires
        start <= i < entries.len(),
        entries[i].path@ == path,
    ensures
        first_path(entries, path, start) matches Some(j) && j <= i,
    decreases i - start,
{
    if entries[start as int].path@ != path {
        lemma_first_path_before(entries, path, start + 1, i);
    }
}

/// Returns the node of entry `i`.
fn node_of(entries: &Vec<Entry>, i: usize) -> (r: usize)
    requires
        i < entries@.len(),
    ensures
        r as int == node(entries@, i as int),
        r <= i,
{
    proof {
        lemma_first_path_before(entries@, entries@[i as int].path@, 0, i as int);
    }
    let mut j: usize = 0;
    while j < i && !same_string(&entries[j].path, &entries[i].path)
        invariant
            j <= i < entries@.len(),
            first_path(entries@, entries@[i as int].path@, 0) == first_path(entries@, entries@[i as int].path@, j as nat),
        decreases i - j,
    {
        j += 1;
    }
    j
}

/// `list` holds `b`.
pub open spec fn holds_node(list: Seq<usize>, b: int) -> bool {
    exists|k: int| 0 <= k < list.len() && list[k] == b
}

/// Returns the nodes of the entries that `u` serves.
fn consumers(entries: &Vec<Entry>, u: usize) -> (r: Vec<usize>)
    requires
        u < entries@.len(),
    ensures
        forall|k: int| 0 <= k < r@.len() ==> #[trigger] r@[k] < entries@.len(),
        forall|b: int| #[trigger] holds_node(r@, b) <==> exists|v: int| 0 <= v < entries@.len() && node(entries@, v) == b
            && #[trigger] serves(entries@[u as int], entries@[v]),
{
    let mut out: Vec<usize> = Vec::new();
    let mut v: usize = 0;
    while v < entries.len()
        invariant
            u < entries@.len(),
            v <= entries@.len(),
            forall|k: int| 0 <= k < out@.len() ==> #[trigger] out@[k] < entries@.len(),
            forall|b: int| #[trigger] holds_node(out@, b) <==> exists|w: int| 0 <= w < v && node(entries@, w) == b
                && #[trigger] serves(entries@[u as int], entries@[w]),
        decreases entries@.len() - v,
    {
        if serves_exec(&entries[u], &entries[v]) {
            let b = node_of(entries, v);
            let ghost before = out@;
            out.push(b);
            assert forall|c: int| #[trigger] holds_node(out@, c) <==> exists|w: int| 0 <= w < v + 1 && node(entries@, w) == c
                && #[trigger] serves(entries@[u as int], entries@[w]) by {
                if holds_node(out@, c) {
                    let k = choose|k: int| 0 <= k < out@.len() && out@[k] == c;
                    if k < before.len() {
                        assert(holds_node(before, c));
                    }
                }
                if exists|w: int| 0 <= w < v + 1 && node(entries@, w) == c && #[trigger] serves(entries@[u as int], entries@[w]) {
                    let w = choose|w: int| 0 <= w < v + 1 && node(entries@, w) == c && #[trigger] serves(entries@[u as int], entries@[w]);
                    if w < v {
                        assert(holds_node(before, c));
                        let k = choose|k: int| 0 <= k < before.len() && before[k] == c;
                        assert(out@[k] == c);
                    } else {
                        assert(out@[before.len() as int] == c);
                    }
                }
            }
        } else {
            assert forall|c: int| #[trigger] holds_node(out@, c) <==> exists|w: int| 0 <= w < v + 1 && node(entries@, w) == c
                && #[trigger] serves(entries@[u as int], entries@[w]) by {
                if exists|w: int| 0 <= w < v + 1 && node(entries@, w) == c && #[trigger] serves(entries@[u as int], entries@[w]) {
                    let w = choose|w: int| 0 <= w < v + 1 && node(entries@, w) == c && #[trigger] serves(entries@[u as int], entries@[w]);
                    assert(w != v);
                }
            }
        }
        proof { lemma_node(entries@, v as int); }
        v += 1;
    }
    out
}

/// Returns the nodes that depend on node `a`.
fn dependents(entries: &Vec<Entry>, a: usize) -> (r: Vec<usize>)
    ensures
        forall|k: int| 0 <= k < r@.len() ==> #[trigger] r@[k] < entries@.len(),
        forall|b: int| #[trigger] holds_node(r@, b) <==> depends(entries@, a as int, b),
{
    let mut out: Vec<usize> = Vec::new();
    let mut u: usize = 0;
    while u < entries.len()
        invariant
            u <= entries@.len(),
            forall|k: int| 0 <= k < out@.len() ==> #[trigger] out@[k] < entries@.len(),
            forall|b: int| #[trigger] holds_node(out@, b) <==> exists|x: int, v: int| 0 <= x < u && 0 <= v < entries@.len()
                && node(entries@, x) == a && node(entries@, v) == b && #[trigger] serves(entries@[x], entries@[v]),
        decreases entries@.len() - u,
    {
        let here = node_of(entries, u);
        let ghost before = out@;
        if here == a {
            let more = consumers(entries, u);
            let mut k: usize = 0;
            while k < more.len()
                invariant
                    u < entries@.len(),
                    k <= more@.len(),
                    forall|j: int| 0 <= j < more@.len() ==> #[trigger] more@[j] < entries@.len(),
                    forall|j: int| 0 <= j < out@.len() ==> #[trigger] out@[j] < entries@.len(),
                    out@ == before + more@.take(k as int),
                decreases more@.len() - k,
            {
                out.push(more[k]);
                assert(more@.take(k + 1) =~= more@.take(k as int).push(more@[k as int]));
                k += 1;
            }
            assert(more@.take(more@.len() as int) =~= more@);
            assert forall|b: int| #[trigger] holds_node(out@, b) <==> exists|x: int, v: int| 0 <= x < u + 1 && 0 <= v < entries@.len()
                && node(entries@, x) == a && node(entries@, v) == b && #[trigger] serves(entries@[x], entries@[v]) by {
                if holds_node(out@, b) {
                    let k = choose|k: int| 0 <= k < out@.len() && out@[k] == b;
                    if k < before.len() {
                        assert(holds_node(before, b));
                    } else {
                        assert(more@[k - before.len()] == b);
                        assert(holds_node(more@, b));
                    }
                }
                if exists|x: int, v: int| 0 <= x < u + 1 && 0 <= v < entries@.len()
                    && node(entries@, x) == a && node(entries@, v) == b && #[trigger] serves(entries@[x], entries@[v]) {
                    let (x, v) = choose|x: int, v: int| 0 <= x < u + 1 && 0 <= v < entries@.len()
                        && node(entries@, x) == a && node(entries@, v) == b && #[trigger] serves(entries@[x], entries@[v]);
                    if x < u {
                        assert(holds_node(before, b));
                        let k = choose|k: int| 0 <= k < before.len() && before[k] == b;
                        assert(out@[k] == b);
                    } else {
                        assert(serves(entries@[u as int], entries@[v]));
                        assert(holds_node(more@, b));
                        let k = choose|k: int| 0 <= k < more@.len() && more@[k] == b;
                        assert(out@[before.len() + k] == b);
                    }
                }
            }
        } else {
            assert forall|b: int| #[trigger] holds_node(out@, b) <==> exists|x: int, v: int| 0 <= x < u + 1 && 0 <= v < entries@.len()
                && node(entries@, x) == a && node(entries@, v) == b && #[trigger] serves(entries@[x], entries@[v]) by {
                if exists|x: int, v: int| 0 <= x < u + 1 && 0 <= v < entries@.len()
                    && node(entries@, x) == a && node(entries@, v) == b && #[trigger] serves(entries@[x], entries@[v]) {
                    let (x, v) = choose|x: int, v: int| 0 <= x < u + 1 && 0 <= v < entries@.len()
                        && node(entries@, x) == a && node(entries@, v) == b && #[trigger] serves(entries@[x], entries@[v]);
                    assert(x != u);
                }
            }
        }
        u += 1;
    }
    out
}

/// Checks the entries a composition may start with: refused for the first
/// provision that repeats an interface name, then for a dependency cycle.
pub fn validate_entries(entries: &Vec<Entry>) -> (r: Result<(), Error>)
    ensures
        entries_ok(entries@, r),
{
    check_collisions(entries)?;
    let n = entries.len();
    let mut names: Vec<String> = Vec::new();
    let mut children: Vec<Vec<usize>> = Vec::new();
    let mut a: usize = 0;
    while a < n
        invariant
            a <= n == entries@.len(),
            names@.len() == a && children@.len() == a,
            forall|i: int| 0 <= i < a ==> #[trigger] names@[i] == entries@[i].path,
            forall|i: int, k: int| 0 <= i < a && 0 <= k < children@[i]@.len() ==> #[trigger] children@[i]@[k] < n,
            forall|i: int, b: int| 0 <= i < a ==> (#[trigger] holds_node(children@[i]@, b) <==> depends(entries@, i, b)),
        decreases n - a,
    {
        names.push(entries[a].path.clone());
        let list = dependents(entries, a);
        let ghost prior = children@;
        children.push(list);
        assert forall|i: int, b: int| 0 <= i < a + 1 implies (#[trigger] holds_node(children@[i]@, b) <==> depends(entries@, i, b)) by {
            if i < a {
                assert(children@[i] == prior[i]);
            }
        }
        a += 1;
    }
    let g = Graph { names, children };
    assert forall|u: int, v: int| 0 <= u < n implies (g.edge(u, v) <==> depends(entries@, u, v)) by {
        assert(g.edge(u, v) <==> holds_node(g.children@[u]@, v));
    }
    assert forall|c: Seq<usize>| #![trigger g.is_cycle(c)] #![trigger dependency_cycle(entries@, c)]
        g.is_cycle(c) <==> dependency_cycle(entries@, c) by {
        if g.is_cycle(c) {
            assert forall|i: int| 0 <= i < c.len() - 1 implies #[trigger] depends(entries@, c[i] as int, c[i + 1] as int) by {
                assert(g.edge(c[i] as int, c[i + 1] as int));
            }
        }
        if dependency_cycle(entries@, c) {
            assert forall|i: int| 0 <= i < c.len() - 1 implies #[trigger] g.edge(c[i] as int, c[i + 1] as int) by {
                assert(depends(entries@, c[i] as int, c[i + 1] as int));
            }
        }
    }
    let result = detect_cycle(&g);
    proof {
        if result is Err {
            let names = result->Err_0->DependencyCycle_0;
            let c = choose|c: Seq<usize>| #[trigger] g.is_cycle(c) && names@ == names_of(&g, c);
            assert(names_of(&g, c) =~= paths_at(entries@, c));
            assert(dependency_cycle(entries@, c));
        }
    }
    result
}

} // verus!

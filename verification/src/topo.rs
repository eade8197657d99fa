use vstd::prelude::*;

verus! {

/// One node of the dependency graph: a name together with the names it
/// depends on.
pub struct GraphEntry {
    pub name: String,
    pub deps: Vec<String>,
}

/// True when `s` holds a string whose characters are `n`.
pub open spec fn str_seq_contains(s: Seq<String>, n: Seq<char>) -> bool {
    exists|i: int| 0 <= i < s.len() && s[i]@ == n
}

/// True when `g` has a node named `n`.
pub open spec fn has_node(g: Seq<GraphEntry>, n: Seq<char>) -> bool {
    exists|i: int| 0 <= i < g.len() && g[i].name@ == n
}

/// True when the node `n` of `g` declares a dependency on `d`.
pub open spec fn has_edge(g: Seq<GraphEntry>, n: Seq<char>, d: Seq<char>) -> bool {
    exists|i: int| 0 <= i < g.len() && g[i].name@ == n && str_seq_contains(g[i].deps@, d)
}

/// True when `n` occurs in `g` at all, as a node or as a dependency name.
/// A name that occurs only as a dependency is a dangling reference: a node
/// whose resolution must come from outside this batch.
pub open spec fn mentions(g: Seq<GraphEntry>, n: Seq<char>) -> bool {
    has_node(g, n) || exists|i: int| 0 <= i < g.len() && str_seq_contains(#[trigger] g[i].deps@, n)
}

/// True when no two entries of `g` share a name.
pub open spec fn graph_entries_unique(g: Seq<GraphEntry>) -> bool {
    forall|i: int, j: int| 0 <= i < j < g.len() ==> g[i].name@ != g[j].name@
}

/// A nonempty family of nodes each of which declares a dependency on
/// another member of the family. Such a family certifies a dependency
/// cycle: no member can ever become ready, and following dependencies
/// inside the finite family must revisit a node.
pub open spec fn stuck_member(g: Seq<GraphEntry>, p: Seq<GraphEntry>, i: int) -> bool {
    exists|d: Seq<char>| has_edge(g, p[i].name@, d) && has_node(p, d)
}

pub open spec fn is_stuck_family(g: Seq<GraphEntry>, p: Seq<GraphEntry>) -> bool {
    &&& p.len() > 0
    &&& (forall|i: int| 0 <= i < p.len() ==> has_node(g, #[trigger] p[i].name@))
    &&& (forall|i: int| 0 <= i < p.len() ==> stuck_member(g, p, i))
}

/// True when the dependencies declared in `g` contain a cycle.
pub open spec fn contains_cycle(g: Seq<GraphEntry>) -> bool {
    exists|p: Seq<GraphEntry>| is_stuck_family(g, p)
}

proof fn lemma_str_seq_contains_concat(a: Seq<String>, b: Seq<String>, d: Seq<char>)
    ensures
        str_seq_contains(a + b, d) <==> str_seq_contains(a, d) || str_seq_contains(b, d),
{
    if str_seq_contains(a, d) {
        let i = choose|i: int| 0 <= i < a.len() && a[i]@ == d;
        assert((a + b)[i]@ == d);
    }
    if str_seq_contains(b, d) {
        let i = choose|i: int| 0 <= i < b.len() && b[i]@ == d;
        assert((a + b)[a.len() + i]@ == d);
    }
    if str_seq_contains(a + b, d) {
        let i = choose|i: int| 0 <= i < (a + b).len() && (a + b)[i]@ == d;
        if i < a.len() {
            assert(a[i]@ == d);
        } else {
            assert(b[i - a.len()]@ == d);
        }
    }
}

proof fn lemma_str_seq_contains_push(s: Seq<String>, x: String, d: Seq<char>)
    ensures
        str_seq_contains(s.push(x), d) <==> str_seq_contains(s, d) || x@ == d,
{
    if str_seq_contains(s, d) {
        let i = choose|i: int| 0 <= i < s.len() && s[i]@ == d;
        assert(s.push(x)[i]@ == d);
    }
    if x@ == d {
        assert(s.push(x)[s.len() as int]@ == d);
    }
    if str_seq_contains(s.push(x), d) {
        let i = choose|i: int| 0 <= i < s.push(x).len() && s.push(x)[i]@ == d;
        if i < s.len() {
            assert(s[i]@ == d);
        }
    }
}

proof fn lemma_seq_push_contains<A>(s: Seq<A>, x: A, y: A)
    ensures
        s.push(x).contains(y) <==> s.contains(y) || x == y,
{
    if s.contains(y) {
        let i = choose|i: int| 0 <= i < s.len() && s[i] == y;
        assert(s.push(x)[i] == y);
    }
    if x == y {
        assert(s.push(x)[s.len() as int] == y);
    }
    if s.push(x).contains(y) {
        let i = choose|i: int| 0 <= i < s.push(x).len() && s.push(x)[i] == y;
        if i < s.len() {
            assert(s[i] == y);
        }
    }
}

/// Whether `v` holds a string equal to `n`.
fn vec_contains_str(v: &Vec<String>, n: &String) -> (r: bool)
    ensures
        r == str_seq_contains(v@, n@),
{
    let mut i: usize = 0;
    while i < v.len()
        invariant
            0 <= i <= v@.len(),
            forall|k: int| 0 <= k < i ==> v@[k]@ != n@,
        decreases v@.len() - i,
    {
        if v[i] == *n {
            return true;
        }
        i += 1;
    }
    false
}

/// Whether the graph has a node named `n`.
fn entries_have_node(entries: &Vec<GraphEntry>, n: &String) -> (r: bool)
    ensures
        r == has_node(entries@, n@),
{
    let mut i: usize = 0;
    while i < entries.len()
        invariant
            0 <= i <= entries@.len(),
            forall|k: int| 0 <= k < i ==> entries@[k].name@ != n@,
        decreases entries@.len() - i,
    {
        if entries[i].name == *n {
            return true;
        }
        i += 1;
    }
    false
}

/// All entries of `deps` other than those equal to `name`, in order.
fn filter_dep(deps: Vec<String>, name: &String) -> (r: Vec<String>)
    ensures
        forall|d: Seq<char>| #[trigger]
            str_seq_contains(r@, d) <==> str_seq_contains(deps@, d) && d != name@,
{
    let mut out: Vec<String> = Vec::new();
    let mut i: usize = 0;
    while i < deps.len()
        invariant
            0 <= i <= deps@.len(),
            forall|d: Seq<char>| #[trigger]
                str_seq_contains(out@, d) <==> str_seq_contains(deps@.subrange(0, i as int), d)
                    && d != name@,
        decreases deps@.len() - i,
    {
        let ghost pre = out@;
        let ghost prefix = deps@.subrange(0, i as int);
        if !(deps[i] == *name) {
            out.push(deps[i].clone());
        }
        proof {
            let prefix2 = deps@.subrange(0, i + 1);
            assert(prefix2 =~= prefix.push(deps@[i as int]));
            lemma_str_seq_contains_push(prefix, deps@[i as int], deps@[i as int]@);
            assert forall|d: Seq<char>| #[trigger]
                str_seq_contains(out@, d) <==> str_seq_contains(prefix2, d) && d != name@ by {
                lemma_str_seq_contains_push(prefix, deps@[i as int], d);
                if out@ != pre {
                    lemma_str_seq_contains_push(pre, deps@[i as int], d);
                    assert(out@ == pre.push(deps@[i as int]));
                }
            }
        }
        i += 1;
    }
    proof {
        assert(deps@.subrange(0, deps@.len() as int) =~= deps@);
    }
    out
}

/// A generic incremental topological sorter over named nodes with named
/// dependencies. Nodes are registered with `insert`; `SimpleTopoSortIter`
/// then drains them in an order that yields every dependency before every
/// node that declares it, or reports a cycle.
pub struct SimpleTopoSort {
    entries: Vec<GraphEntry>,
}

impl View for SimpleTopoSort {
    type V = Seq<GraphEntry>;

    closed spec fn view(&self) -> Seq<GraphEntry> {
        self.entries@
    }
}

impl SimpleTopoSort {
    pub open spec fn wf(&self) -> bool {
        graph_entries_unique(self@)
    }

    pub fn new() -> (r: SimpleTopoSort)
        ensures
            r@ == Seq::<GraphEntry>::empty(),
            r.wf(),
    {
        SimpleTopoSort { entries: Vec::new() }
    }

    /// Register `node` with its declared dependencies. Registering the same
    /// node again adds the new dependencies to the ones already declared.
    pub fn insert(&mut self, node: String, deps: Vec<String>)
        requires
            old(self).wf(),
        ensures
            final(self).wf(),
            forall|n: Seq<char>| #[trigger]
                has_node(final(self)@, n) <==> has_node(old(self)@, n) || n == node@,
            forall|n: Seq<char>, d: Seq<char>| #[trigger]
                has_edge(final(self)@, n, d) <==> has_edge(old(self)@, n, d) || (n == node@
                    && str_seq_contains(deps@, d)),
            forall|n: Seq<char>| #[trigger]
                mentions(final(self)@, n) <==> mentions(old(self)@, n) || n == node@
                    || str_seq_contains(deps@, n),
    {
        let ghost g0 = self.entries@;
        let mut found: Option<usize> = None;
        let mut i: usize = 0;
        while i < self.entries.len()
            invariant
                0 <= i <= self.entries@.len(),
                self.entries@ == g0,
                match found {
                    Some(k) => k < i && self.entries@[k as int].name@ == node@,
                    None => forall|k: int| 0 <= k < i ==> self.entries@[k].name@ != node@,
                },
            decreases self.entries@.len() - i,
        {
            if found.is_none() && self.entries[i].name == node {
                found = Some(i);
            }
            i += 1;
        }
        match found {
            Some(k) => {
                let entry = self.entries.swap_remove(k);
                let ghost mid = self.entries@;
                let mut merged = entry.deps;
                let mut extra = deps;
                let ghost olddeps = merged@;
                let ghost newdeps = extra@;
                merged.append(&mut extra);
                self.entries.push(GraphEntry { name: entry.name, deps: merged });
                proof {
                    let gf = self.entries@;
                    let last = gf.len() - 1;
                    let ki = k as int;
                    assert(entry.name@ == node@);
                    assert(gf[last].deps@ == olddeps + newdeps);
                    assert forall|n: Seq<char>| #[trigger]
                        has_node(gf, n) <==> has_node(g0, n) || n == node@ by {
                        if has_node(gf, n) {
                            let j2 = choose|j2: int| 0 <= j2 < gf.len() && gf[j2].name@ == n;
                            if j2 == last {
                                assert(g0[ki].name@ == n);
                            } else if j2 == ki {
                                assert(gf[j2] == g0[g0.len() - 1]);
                            } else {
                                assert(gf[j2] == g0[j2]);
                            }
                            assert(has_node(g0, n));
                        }
                        if has_node(g0, n) {
                            let j = choose|j: int| 0 <= j < g0.len() && g0[j].name@ == n;
                            if j == ki {
                                assert(gf[last].name@ == n);
                            } else if j == g0.len() - 1 {
                                assert(gf[ki].name@ == n);
                            } else {
                                assert(gf[j].name@ == n);
                            }
                            assert(has_node(gf, n));
                        }
                        if n == node@ {
                            assert(gf[last].name@ == n);
                            assert(has_node(gf, n));
                        }
                    }
                    assert forall|n: Seq<char>, d: Seq<char>| #[trigger]
                        has_edge(gf, n, d) <==> has_edge(g0, n, d) || (n == node@
                            && str_seq_contains(deps@, d)) by {
                        lemma_str_seq_contains_concat(olddeps, newdeps, d);
                        if has_edge(gf, n, d) {
                            let j2 = choose|j2: int|
                                0 <= j2 < gf.len() && gf[j2].name@ == n && str_seq_contains(
                                    gf[j2].deps@,
                                    d,
                                );
                            if j2 == last {
                                if str_seq_contains(olddeps, d) {
                                    assert(g0[ki].name@ == n && str_seq_contains(g0[ki].deps@, d));
                                    assert(has_edge(g0, n, d));
                                } else {
                                    assert(str_seq_contains(newdeps, d));
                                }
                            } else if j2 == ki {
                                assert(gf[j2] == g0[g0.len() - 1]);
                                assert(has_edge(g0, n, d));
                            } else {
                                assert(gf[j2] == g0[j2]);
                                assert(has_edge(g0, n, d));
                            }
                        }
                        if has_edge(g0, n, d) {
                            let j = choose|j: int|
                                0 <= j < g0.len() && g0[j].name@ == n && str_seq_contains(
                                    g0[j].deps@,
                                    d,
                                );
                            if j == ki {
                                assert(str_seq_contains(gf[last].deps@, d));
                            } else if j == g0.len() - 1 {
                                assert(gf[ki] == g0[j]);
                            } else {
                                assert(gf[j] == g0[j]);
                            }
                            assert(has_edge(gf, n, d));
                        }
                        if n == node@ && str_seq_contains(deps@, d) {
                            assert(str_seq_contains(gf[last].deps@, d));
                            assert(has_edge(gf, n, d));
                        }
                    }
                    assert forall|n: Seq<char>| #[trigger]
                        mentions(gf, n) <==> mentions(g0, n) || n == node@ || str_seq_contains(
                            deps@,
                            n,
                        ) by {
                        lemma_str_seq_contains_concat(olddeps, newdeps, n);
                        if mentions(gf, n) && !has_node(gf, n) {
                            let j2 = choose|j2: int|
                                0 <= j2 < gf.len() && str_seq_contains(#[trigger] gf[j2].deps@, n);
                            if j2 == last {
                                if str_seq_contains(olddeps, n) {
                                    assert(str_seq_contains(g0[ki].deps@, n));
                                    assert(mentions(g0, n));
                                } else {
                                    assert(str_seq_contains(newdeps, n));
                                }
                            } else if j2 == ki {
                                assert(gf[j2] == g0[g0.len() - 1]);
                                assert(str_seq_contains(g0[g0.len() - 1].deps@, n));
                                assert(mentions(g0, n));
                            } else {
                                assert(gf[j2] == g0[j2]);
                                assert(str_seq_contains(g0[j2].deps@, n));
                                assert(mentions(g0, n));
                            }
                        }
                        if mentions(g0, n) && !has_node(g0, n) {
                            let j = choose|j: int|
                                0 <= j < g0.len() && str_seq_contains(#[trigger] g0[j].deps@, n);
                            if j == ki {
                                assert(str_seq_contains(gf[last].deps@, n));
                            } else if j == g0.len() - 1 {
                                assert(gf[ki] == g0[j]);
                                assert(str_seq_contains(gf[ki].deps@, n));
                            } else {
                                assert(gf[j] == g0[j]);
                                assert(str_seq_contains(gf[j].deps@, n));
                            }
                            assert(mentions(gf, n));
                        }
                        if str_seq_contains(deps@, n) {
                            assert(str_seq_contains(gf[last].deps@, n));
                            assert(mentions(gf, n));
                        }
                    }
                    assert forall|x: int, y: int| 0 <= x < y < gf.len() implies gf[x].name@
                        != gf[y].name@ by {
                        let ox: int = if x == last { ki } else if x == ki { g0.len() - 1 } else { x };
                        let oy: int = if y == last { ki } else if y == ki { g0.len() - 1 } else { y };
                        assert(gf[x].name@ == g0[ox].name@);
                        assert(gf[y].name@ == g0[oy].name@);
                        assert(ox != oy);
                    }
                    assert(graph_entries_unique(gf));
                }
            },
            None => {
                self.entries.push(GraphEntry { name: node, deps });
                proof {
                    let gf = self.entries@;
                    let last = gf.len() - 1;
                    assert forall|n: Seq<char>| #[trigger]
                        has_node(gf, n) <==> has_node(g0, n) || n == node@ by {
                        if has_node(gf, n) {
                            let j = choose|j: int| 0 <= j < gf.len() && gf[j].name@ == n;
                            if j < last {
                                assert(g0[j].name@ == n);
                            }
                        }
                        if has_node(g0, n) {
                            let j = choose|j: int| 0 <= j < g0.len() && g0[j].name@ == n;
                            assert(gf[j].name@ == n);
                        }
                        if n == node@ {
                            assert(gf[last].name@ == n);
                        }
                    }
                    assert forall|n: Seq<char>, d: Seq<char>| #[trigger]
                        has_edge(gf, n, d) <==> has_edge(g0, n, d) || (n == node@
                            && str_seq_contains(deps@, d)) by {
                        if has_edge(gf, n, d) {
                            let j = choose|j: int|
                                0 <= j < gf.len() && gf[j].name@ == n && str_seq_contains(
                                    gf[j].deps@,
                                    d,
                                );
                            if j < last {
                                assert(has_edge(g0, n, d));
                            }
                        }
                        if has_edge(g0, n, d) {
                            let j = choose|j: int|
                                0 <= j < g0.len() && g0[j].name@ == n && str_seq_contains(
                                    g0[j].deps@,
                                    d,
                                );
                            assert(gf[j] == g0[j]);
                            assert(has_edge(gf, n, d));
                        }
                        if n == node@ && str_seq_contains(deps@, d) {
                            assert(str_seq_contains(gf[last].deps@, d));
                            assert(has_edge(gf, n, d));
                        }
                    }
                    assert forall|n: Seq<char>| #[trigger]
                        mentions(gf, n) <==> mentions(g0, n) || n == node@ || str_seq_contains(
                            deps@,
                            n,
                        ) by {
                        if mentions(gf, n) && !has_node(gf, n) {
                            let j = choose|j: int|
                                0 <= j < gf.len() && str_seq_contains(#[trigger] gf[j].deps@, n);
                            if j < last {
                                assert(str_seq_contains(g0[j].deps@, n));
                                assert(mentions(g0, n));
                            } else {
                                assert(str_seq_contains(deps@, n));
                            }
                        }
                        if mentions(g0, n) && !has_node(g0, n) {
                            let j = choose|j: int|
                                0 <= j < g0.len() && str_seq_contains(#[trigger] g0[j].deps@, n);
                            assert(gf[j] == g0[j]);
                            assert(str_seq_contains(gf[j].deps@, n));
                            assert(mentions(gf, n));
                        }
                        if str_seq_contains(deps@, n) {
                            assert(str_seq_contains(gf[last].deps@, n));
                            assert(mentions(gf, n));
                        }
                    }
                    assert(graph_entries_unique(gf));
                }
            },
        }
    }

    /// Drain the graph completely, in dependency order.
    ///
    /// On success the returned order lists every registered node and every
    /// dangling dependency name exactly once, and every dependency strictly
    /// before every node that declares it; a graph with a cycle is reported
    /// as an error in finitely many steps (the loop provably terminates)
    /// rather than looped on, and an error is returned exactly for the
    /// graphs that contain a cycle.
    #[verifier::loop_isolation(false)]
    pub fn drain(self) -> (r: Result<Vec<String>, CycleError>)
        requires
            self.wf(),
        ensures
            match r {
                Ok(order) => {
                    &&& forall|k: int|
                        0 <= k < order@.len() ==> mentions(self@, #[trigger] order@[k]@)
                    &&& forall|n: Seq<char>| #[trigger]
                        mentions(self@, n) ==> str_seq_contains(order@, n)
                    &&& forall|k: int, l: int| 0 <= k < l < order@.len() ==> order@[k]@
                        != order@[l]@
                    &&& forall|k: int, d: Seq<char>|
                        #![trigger has_edge(self@, order@[k]@, d)]
                        0 <= k < order@.len() && has_edge(self@, order@[k]@, d) ==> exists|j: int|
                            0 <= j < k && order@[j]@ == d
                    &&& !contains_cycle(self@)
                },
                Err(e) => contains_cycle(self@) && has_node(self@, e.node@),
            },
    {
        let ghost g = self@;
        let mut it = SimpleTopoSortIter::new(self);
        let mut order: Vec<String> = Vec::new();
        loop
            invariant
                it.wf(),
                it.graph() == g,
                order@.len() == it.emitted().len(),
                forall|k: int| 0 <= k < order@.len() ==> (#[trigger] order@[k]@)
                    == it.emitted()[k],
            decreases it.unfinished(),
        {
            let step = it.next();
            match step {
                Some(Ok(n)) => {
                    order.push(n);
                },
                Some(Err(e)) => {
                    return Err(e);
                },
                None => {
                    proof {
                        let y = it.emitted();
                        assert forall|n: Seq<char>| #[trigger]
                            mentions(g, n) implies str_seq_contains(order@, n) by {
                            assert(y.contains(n));
                            let k = choose|k: int| 0 <= k < y.len() && y[k] == n;
                            assert(order@[k]@ == n);
                        }
                        assert forall|k: int, d: Seq<char>|
                            #![trigger has_edge(g, order@[k]@, d)]
                            0 <= k < order@.len() && has_edge(g, order@[k]@, d) implies exists|
                            j: int,
                        | 0 <= j < k && order@[j]@ == d by {
                            assert(has_edge(g, y[k], d));
                            let j = choose|j: int| 0 <= j < k && y[j] == d;
                            assert(order@[j]@ == d);
                        }
                        assert forall|k: int| 0 <= k < order@.len() implies mentions(
                            g,
                            #[trigger] order@[k]@,
                        ) by {
                            assert(mentions(g, y[k]));
                        }
                        assert(!contains_cycle(g)) by {
                            if contains_cycle(g) {
                                let p = choose|p: Seq<GraphEntry>| is_stuck_family(g, p);
                                assert(has_node(g, p[0].name@));
                                assert(mentions(g, p[0].name@));
                                assert(y.contains(p[0].name@));
                                let k = choose|k: int| 0 <= k < y.len() && y[k] == p[0].name@;
                                assert(has_node(p, y[k]));
                                lemma_order_excludes_cycle(g, p, y, k);
                            }
                        }
                    }
                    return Ok(order);
                },
            }
        }
    }
}

/// The law that a dependency-respecting order excludes cycles: an order
/// that lists every dependency strictly before the node declaring it never
/// reaches a member of a stuck family, so a graph with a cycle admits no
/// complete such order.
pub proof fn lemma_order_excludes_cycle(
    g: Seq<GraphEntry>,
    p: Seq<GraphEntry>,
    order: Seq<Seq<char>>,
    k: int,
)
    requires
        is_stuck_family(g, p),
        forall|i: int, d: Seq<char>|
            #![trigger has_edge(g, order[i], d)]
            0 <= i < order.len() && has_edge(g, order[i], d) ==> exists|j: int|
                0 <= j < i && order[j] == d,
        0 <= k < order.len(),
    ensures
        !has_node(p, order[k]),
    decreases k,
{
    if has_node(p, order[k]) {
        let i = choose|i: int| 0 <= i < p.len() && p[i].name@ == order[k];
        assert(stuck_member(g, p, i));
        let d = choose|d: Seq<char>| has_edge(g, p[i].name@, d) && has_node(p, d);
        assert(has_edge(g, order[k], d));
        let j = choose|j: int| 0 <= j < k && order[j] == d;
        lemma_order_excludes_cycle(g, p, order, j);
        assert(!has_node(p, d));
    }
}

/// The cycle signal: `node` is one registered node that could never become
/// ready.
#[derive(Debug, PartialEq, Eq)]
pub struct CycleError {
    pub node: String,
}

/// Destructive drain of a `SimpleTopoSort`. Each call to `next` yields one
/// name; every dependency is yielded strictly before every node that
/// declares it, a name referenced but never registered (dangling) is
/// yielded before the nodes that reference it, and a cycle is reported as a
/// value instead of being looped on.
pub struct SimpleTopoSortIter {
    pending: Vec<GraphEntry>,
    ready: Vec<String>,
    graph: Ghost<Seq<GraphEntry>>,
    emitted: Ghost<Seq<Seq<char>>>,
}

impl SimpleTopoSortIter {
    /// The graph this iterator was built from; constant across `next` calls.
    pub closed spec fn graph(&self) -> Seq<GraphEntry> {
        self.graph@
    }

    /// The names yielded so far, oldest first.
    pub closed spec fn emitted(&self) -> Seq<Seq<char>> {
        self.emitted@
    }

    /// How many names are still waiting; strictly decreases at every
    /// successful `next`.
    pub closed spec fn unfinished(&self) -> nat {
        (self.pending@.len() + self.ready@.len()) as nat
    }

    pub closed spec fn wf(&self) -> bool {
        let g = self.graph@;
        let p = self.pending@;
        let r = self.ready@;
        let y = self.emitted@;
        &&& graph_entries_unique(g)
        &&& (forall|i: int, j: int| 0 <= i < j < p.len() ==> p[i].name@ != p[j].name@)
        &&& (forall|i: int| 0 <= i < p.len() ==> has_node(g, #[trigger] p[i].name@))
        &&& (forall|i: int| 0 <= i < p.len() ==> (#[trigger] p[i].deps@).len() > 0)
        &&& (forall|i: int, d: Seq<char>|
            #![trigger str_seq_contains(p[i].deps@, d)]
            #![trigger has_edge(g, p[i].name@, d)]
            0 <= i < p.len() ==> (str_seq_contains(p[i].deps@, d) <==> has_edge(g, p[i].name@, d)
                && !y.contains(d)))
        &&& (forall|i: int, j: int| 0 <= i < j < r.len() ==> r[i]@ != r[j]@)
        &&& (forall|i: int| 0 <= i < r.len() ==> mentions(g, #[trigger] r[i]@))
        &&& (forall|i: int, d: Seq<char>|
            #![trigger has_edge(g, r[i]@, d)]
            0 <= i < r.len() && has_edge(g, r[i]@, d) ==> y.contains(d))
        &&& (forall|i: int, j: int| 0 <= i < j < y.len() ==> y[i] != y[j])
        &&& (forall|i: int| 0 <= i < y.len() ==> mentions(g, #[trigger] y[i]))
        &&& (forall|i: int, d: Seq<char>|
            #![trigger has_edge(g, y[i], d)]
            0 <= i < y.len() && has_edge(g, y[i], d) ==> exists|j: int| 0 <= j < i && y[j] == d)
        &&& (forall|n: Seq<char>| #[trigger]
            mentions(g, n) ==> has_node(p, n) || str_seq_contains(r, n) || y.contains(n))
        &&& (forall|i: int|
            0 <= i < p.len() ==> !str_seq_contains(r, #[trigger] p[i].name@) && !y.contains(
                p[i].name@,
            ))
        &&& (forall|i: int| 0 <= i < r.len() ==> !y.contains(#[trigger] r[i]@))
    }

    /// Seed the ready list with the nodes that declare no dependency and
    /// with the dangling names, and take everything else as pending.
    #[verifier::loop_isolation(false)]
    pub fn new(data: SimpleTopoSort) -> (r: SimpleTopoSortIter)
        requires
            data.wf(),
        ensures
            r.wf(),
            r.graph() == data@,
            r.emitted() == Seq::<Seq<char>>::empty(),
            r.unfinished() <= data@.len() + total_dep_count(data@),
    {
        let ghost g = data@;
        let mut ready: Vec<String> = Vec::new();
        let entries_ref = &data.entries;
        let mut i: usize = 0;
        while i < entries_ref.len()
            invariant
                0 <= i <= g.len(),
                ready@.len() <= partial_dep_count(g, i as int, 0),
                forall|a: int, b: int| 0 <= a < b < ready@.len() ==> ready@[a]@ != ready@[b]@,
                forall|a: int|
                    0 <= a < ready@.len() ==> !has_node(g, #[trigger] ready@[a]@) && mentions(
                        g,
                        ready@[a]@,
                    ),
                forall|k: int, l: int|
                    #![trigger g[k].deps@[l]]
                    0 <= k < i && 0 <= l < g[k].deps@.len() ==> has_node(g, g[k].deps@[l]@)
                        || str_seq_contains(ready@, g[k].deps@[l]@),
            decreases g.len() - i,
        {
            let mut j: usize = 0;
            while j < entries_ref[i].deps.len()
                invariant
                    0 <= j <= g[i as int].deps@.len(),
                    i < g.len(),
                    ready@.len() <= partial_dep_count(g, i as int, j as int),
                    forall|a: int, b: int| 0 <= a < b < ready@.len() ==> ready@[a]@ != ready@[b]@,
                    forall|a: int|
                        0 <= a < ready@.len() ==> !has_node(g, #[trigger] ready@[a]@) && mentions(
                            g,
                            ready@[a]@,
                        ),
                    forall|k: int, l: int|
                        #![trigger g[k].deps@[l]]
                        0 <= k < i && 0 <= l < g[k].deps@.len() ==> has_node(g, g[k].deps@[l]@)
                            || str_seq_contains(ready@, g[k].deps@[l]@),
                    forall|l: int|
                        0 <= l < j ==> has_node(g, #[trigger] g[i as int].deps@[l]@)
                            || str_seq_contains(ready@, g[i as int].deps@[l]@),
                decreases g[i as int].deps@.len() - j,
            {
                let d = &entries_ref[i].deps[j];
                let is_node = entries_have_node(entries_ref, d);
                let already = vec_contains_str(&ready, d);
                let ghost pre = ready@;
                if !is_node && !already {
                    ready.push(d.clone());
                    proof {
                        assert(str_seq_contains(g[i as int].deps@, d@)) by {
                            assert(g[i as int].deps@[j as int]@ == d@);
                        }
                        assert(mentions(g, d@));
                        assert forall|dd: Seq<char>| str_seq_contains(pre, dd) implies
                            str_seq_contains(ready@, dd) by {
                            lemma_str_seq_contains_push(pre, ready@[ready@.len() - 1], dd);
                        }
                        lemma_partial_dep_count_step(g, i as int, j as int);
                    }
                } else {
                    proof {
                        lemma_partial_dep_count_step(g, i as int, j as int);
                    }
                }
                proof {
                    assert forall|l: int|
                        0 <= l < j + 1 implies has_node(g, #[trigger] g[i as int].deps@[l]@)
                            || str_seq_contains(ready@, g[i as int].deps@[l]@) by {
                        if l < j {
                            if !has_node(g, g[i as int].deps@[l]@) {
                                assert(str_seq_contains(pre, g[i as int].deps@[l]@));
                                if ready@ != pre {
                                    lemma_str_seq_contains_push(
                                        pre,
                                        ready@[ready@.len() - 1],
                                        g[i as int].deps@[l]@,
                                    );
                                }
                            }
                        } else {
                            if !has_node(g, g[i as int].deps@[l]@) {
                                assert(g[i as int].deps@[l]@ == d@);
                                if !already {
                                    assert(ready@ == pre.push(ready@[ready@.len() - 1]));
                                    assert(ready@[ready@.len() - 1]@ == d@);
                                } else {
                                    assert(str_seq_contains(pre, d@));
                                }
                                assert(str_seq_contains(ready@, d@));
                            }
                        }
                    }
                }
                j += 1;
            }
            proof {
                lemma_partial_dep_count_row(g, i as int);
            }
            i += 1;
        }
        let ghost dangling = ready@;
        let SimpleTopoSort { entries } = data;
        let mut rest = entries;
        let mut pending: Vec<GraphEntry> = Vec::new();
        while rest.len() > 0
            invariant
                rest@ =~= g.subrange(0, rest@.len() as int),
                rest@.len() <= g.len(),
                pending@.len() + ready@.len() <= g.len() - rest@.len() + dangling.len(),
                forall|a: int, b: int| 0 <= a < b < ready@.len() ==> ready@[a]@ != ready@[b]@,
                forall|a: int|
                    0 <= a < ready@.len() ==> mentions(g, #[trigger] ready@[a]@),
                forall|a: int|
                    0 <= a < ready@.len() ==> !has_node(g, #[trigger] ready@[a]@) || (
                    exists|k: int|
                        rest@.len() <= k < g.len() && g[k].name@ == ready@[a]@
                            && g[k].deps@.len() == 0),
                forall|a: int, b: int| 0 <= a < b < pending@.len() ==> pending@[a].name@
                    != pending@[b].name@,
                forall|a: int|
                    0 <= a < pending@.len() ==> exists|k: int|
                        rest@.len() <= k < g.len() && #[trigger] pending@[a] == g[k],
                forall|a: int| 0 <= a < pending@.len() ==> (#[trigger] pending@[a].deps@).len() > 0,
                forall|a: int, b: int|
                    0 <= a < pending@.len() && 0 <= b < ready@.len() ==> pending@[a].name@
                        != ready@[b]@,
                forall|k: int|
                    rest@.len() <= k < g.len() ==> has_node(pending@, #[trigger] g[k].name@)
                        || str_seq_contains(ready@, g[k].name@),
                forall|k: int, l: int|
                    #![trigger g[k].deps@[l]]
                    0 <= k < g.len() && 0 <= l < g[k].deps@.len() ==> has_node(g, g[k].deps@[l]@)
                        || str_seq_contains(ready@, g[k].deps@[l]@),
            decreases rest@.len(),
        {
            let ghost m = rest@.len() as int;
            let entry = rest.pop().unwrap();
            proof {
                assert(entry == g[m - 1]);
                assert(rest@ =~= g.subrange(0, m - 1));
            }
            let ghost preready = ready@;
            let ghost prepending = pending@;
            if entry.deps.is_empty() {
                proof {
                    assert forall|a: int|
                        0 <= a < ready@.len() implies ready@[a]@ != entry.name@ by {
                        if has_node(g, ready@[a]@) {
                            let k = choose|k: int|
                                m <= k < g.len() && g[k].name@ == ready@[a]@ && g[k].deps@.len()
                                    == 0;
                            assert(g[k].name@ != g[m - 1].name@);
                        }
                    }
                }
                ready.push(entry.name);
                proof {
                    assert forall|dd: Seq<char>| str_seq_contains(preready, dd) implies
                        str_seq_contains(ready@, dd) by {
                        lemma_str_seq_contains_push(preready, ready@[ready@.len() - 1], dd);
                    }
                    assert(str_seq_contains(ready@, g[m - 1].name@)) by {
                        assert(ready@[ready@.len() - 1]@ == g[m - 1].name@);
                    }
                }
            } else {
                proof {
                    assert forall|a: int|
                        0 <= a < pending@.len() implies pending@[a].name@ != entry.name@ by {
                        let k = choose|k: int|
                            m <= k < g.len() && #[trigger] pending@[a] == g[k];
                        assert(g[k].name@ != g[m - 1].name@);
                    }
                }
                pending.push(entry);
                proof {
                    assert(pending@[pending@.len() - 1] == g[m - 1]);
                    assert(has_node(pending@, g[m - 1].name@));
                    assert forall|a: int|
                        0 <= a < pending@.len() implies exists|k: int|
                            rest@.len() <= k < g.len() && #[trigger] pending@[a] == g[k] by {
                        if a < prepending.len() {
                            let k = choose|k: int|
                                m <= k < g.len() && #[trigger] prepending[a] == g[k];
                            assert(pending@[a] == g[k]);
                        } else {
                            assert(pending@[a] == g[m - 1]);
                        }
                    }
                    assert forall|k: int|
                        rest@.len() <= k < g.len() implies has_node(
                        pending@,
                        #[trigger] g[k].name@,
                    ) || str_seq_contains(ready@, g[k].name@) by {
                        if k >= m {
                            if has_node(prepending, g[k].name@) {
                                let a = choose|a: int|
                                    0 <= a < prepending.len() && prepending[a].name@ == g[k].name@;
                                assert(pending@[a].name@ == g[k].name@);
                            }
                        } else {
                            assert(pending@[pending@.len() - 1].name@ == g[k].name@);
                        }
                    }
                }
            }
        }
        let r = SimpleTopoSortIter {
            pending,
            ready,
            graph: Ghost(g),
            emitted: Ghost(Seq::<Seq<char>>::empty()),
        };
        proof {
            let p = r.pending@;
            let rr = r.ready@;
            assert forall|i: int, d: Seq<char>|
                #![trigger str_seq_contains(p[i].deps@, d)]
                #![trigger has_edge(g, p[i].name@, d)]
                0 <= i < p.len() implies (str_seq_contains(p[i].deps@, d) <==> has_edge(
                g,
                p[i].name@,
                d,
            ) && !Seq::<Seq<char>>::empty().contains(d)) by {
                let k = choose|k: int| 0 <= k < g.len() && #[trigger] p[i] == g[k];
                if str_seq_contains(p[i].deps@, d) {
                    assert(has_edge(g, p[i].name@, d));
                }
                if has_edge(g, p[i].name@, d) {
                    let k2 = choose|k2: int|
                        0 <= k2 < g.len() && g[k2].name@ == p[i].name@ && str_seq_contains(
                            g[k2].deps@,
                            d,
                        );
                    assert(k2 == k);
                }
            }
            assert forall|i: int, d: Seq<char>|
                0 <= i < rr.len() && #[trigger] has_edge(g, rr[i]@, d) implies Seq::<
                Seq<char>,
            >::empty().contains(d) by {
                let k2 = choose|k2: int|
                    0 <= k2 < g.len() && g[k2].name@ == rr[i]@ && str_seq_contains(g[k2].deps@, d);
                assert(has_node(g, rr[i]@));
                let k = choose|k: int|
                    0 <= k < g.len() && g[k].name@ == rr[i]@ && g[k].deps@.len() == 0;
                assert(k2 == k);
                assert(false);
            }
            assert forall|n: Seq<char>| #[trigger]
                mentions(g, n) implies has_node(p, n) || str_seq_contains(rr, n) || Seq::<
                Seq<char>,
            >::empty().contains(n) by {
                if has_node(g, n) {
                    let k = choose|k: int| 0 <= k < g.len() && g[k].name@ == n;
                } else {
                    let k = choose|k: int|
                        0 <= k < g.len() && str_seq_contains(#[trigger] g[k].deps@, n);
                    let l = choose|l: int| 0 <= l < g[k].deps@.len() && g[k].deps@[l]@ == n;
                    assert(has_node(g, g[k].deps@[l]@) || str_seq_contains(rr, g[k].deps@[l]@));
                }
            }
        }
        r
    }

    /// Yield the next ready name.
    ///
    /// `Some(Ok(n))` yields a name all of whose dependencies were yielded
    /// strictly earlier; `Some(Err(_))` reports that the unresolved nodes
    /// contain a cycle, naming one of them; `None` says every registered
    /// node and every dangling dependency name has been yielded exactly
    /// once.
    pub fn next(&mut self) -> (r: Option<Result<String, CycleError>>)
        requires
            old(self).wf(),
        ensures
            final(self).wf(),
            final(self).graph() == old(self).graph(),
            match r {
                Some(Ok(n)) => {
                    &&& final(self).emitted() == old(self).emitted().push(n@)
                    &&& !old(self).emitted().contains(n@)
                    &&& mentions(old(self).graph(), n@)
                    &&& forall|d: Seq<char>| #[trigger]
                        has_edge(old(self).graph(), n@, d) ==> old(self).emitted().contains(d)
                    &&& final(self).unfinished() < old(self).unfinished()
                },
                Some(Err(e)) => {
                    &&& final(self).emitted() == old(self).emitted()
                    &&& final(self).unfinished() == old(self).unfinished()
                    &&& has_node(old(self).graph(), e.node@)
                    &&& !old(self).emitted().contains(e.node@)
                    &&& contains_cycle(old(self).graph())
                },
                None => {
                    &&& final(self).emitted() == old(self).emitted()
                    &&& final(self).unfinished() == old(self).unfinished()
                    &&& forall|n: Seq<char>| #[trigger]
                        mentions(old(self).graph(), n) ==> old(self).emitted().contains(n)
                },
            },
    {
        if self.ready.len() == 0 {
            if self.pending.is_empty() {
                None
            } else {
                let node = self.pending[0].name.clone();
                proof {
                    lemma_stuck_pending(*old(self));
                }
                Some(Err(CycleError { node }))
            }
        } else {
            let n = self.emit();
            Some(Ok(n))
        }
    }

    /// Pop one ready name, strike it from every pending dependency list and
    /// move the nodes it unblocks onto the ready list.
    #[verifier::rlimit(30)]
    fn emit(&mut self) -> (n: String)
        requires
            old(self).wf(),
            old(self).ready@.len() > 0,
        ensures
            final(self).wf(),
            final(self).graph() == old(self).graph(),
            final(self).emitted() == old(self).emitted().push(n@),
            !old(self).emitted().contains(n@),
            mentions(old(self).graph(), n@),
            forall|d: Seq<char>| #[trigger]
                has_edge(old(self).graph(), n@, d) ==> old(self).emitted().contains(d),
            final(self).unfinished() < old(self).unfinished(),
    {
        let ghost init = *self;
        let ghost g = self.graph@;
        let ghost y0 = self.emitted@;
        let ghost r0 = self.ready@;
        let ghost p0 = self.pending@;
        let rname = self.ready.pop().unwrap();
        let ghost rn = rname@;
        let ghost y1 = y0.push(rn);
        self.emitted = Ghost(y1);
        proof {
            assert(rname == r0[r0.len() - 1]);
            assert(self.ready@ =~= r0.subrange(0, r0.len() - 1));
            assert forall|a: int|
                0 <= a < p0.len() implies !str_seq_contains(self.ready@, #[trigger] p0[a].name@)
                    && p0[a].name@ != rn by {
                assert(!str_seq_contains(r0, p0[a].name@));
                if str_seq_contains(self.ready@, p0[a].name@) {
                    let b = choose|b: int|
                        0 <= b < self.ready@.len() && self.ready@[b]@ == p0[a].name@;
                    assert(r0[b]@ == p0[a].name@);
                    assert(false);
                }
                assert(r0[r0.len() - 1]@ == rn);
            }
        }
        let mut work: Vec<GraphEntry> = Vec::new();
        core::mem::swap(&mut work, &mut self.pending);
        proof {
            assert(work@ == p0);
        }
        let fresh = redistribute(work, &mut self.ready, &rname, Ghost(g), Ghost(y0));
        self.pending = fresh;
        proof {
            lemma_emit_wf(init, *self);
        }
        rname
    }
}

/// Filter one yielded name out of every pending dependency list, moving the
/// nodes whose last unresolved dependency it was onto the ready list.
#[verifier::loop_isolation(false)]
#[verifier::rlimit(30)]
fn redistribute(
    pending: Vec<GraphEntry>,
    ready: &mut Vec<String>,
    rname: &String,
    Ghost(g): Ghost<Seq<GraphEntry>>,
    Ghost(y0): Ghost<Seq<Seq<char>>>,
) -> (fresh: Vec<GraphEntry>)
    requires
        forall|a: int, b: int| 0 <= a < b < pending@.len() ==> pending@[a].name@
            != pending@[b].name@,
        forall|a: int, d: Seq<char>|
            #![trigger str_seq_contains(pending@[a].deps@, d)]
            #![trigger has_edge(g, pending@[a].name@, d)]
            0 <= a < pending@.len() ==> (str_seq_contains(pending@[a].deps@, d) <==> has_edge(
                g,
                pending@[a].name@,
                d,
            ) && !y0.contains(d)),
        forall|a: int|
            0 <= a < pending@.len() ==> !str_seq_contains(old(ready)@, #[trigger] pending@[a].name@)
                && pending@[a].name@ != rname@,
    ensures
        fresh@.len() + final(ready)@.len() == pending@.len() + old(ready)@.len(),
        final(ready)@.len() >= old(ready)@.len(),
        forall|a: int| 0 <= a < old(ready)@.len() ==> final(ready)@[a] == old(ready)@[a],
        forall|a: int|
            old(ready)@.len() <= a < final(ready)@.len() ==> has_node(
                pending@,
                #[trigger] final(ready)@[a]@,
            ),
        forall|a: int, d: Seq<char>|
            #![trigger has_edge(g, final(ready)@[a]@, d)]
            old(ready)@.len() <= a < final(ready)@.len() && has_edge(g, final(ready)@[a]@, d)
                ==> y0.contains(d) || d == rname@,
        forall|a: int, b: int|
            0 <= a < b < final(ready)@.len() && old(ready)@.len() <= b ==> final(ready)@[a]@
                != final(ready)@[b]@,
        forall|a: int, b: int| 0 <= a < b < fresh@.len() ==> fresh@[a].name@ != fresh@[b].name@,
        forall|a: int| 0 <= a < fresh@.len() ==> has_node(pending@, #[trigger] fresh@[a].name@),
        forall|a: int| 0 <= a < fresh@.len() ==> (#[trigger] fresh@[a].deps@).len() > 0,
        forall|a: int, d: Seq<char>|
            #![trigger str_seq_contains(fresh@[a].deps@, d)]
            #![trigger has_edge(g, fresh@[a].name@, d)]
            0 <= a < fresh@.len() ==> (str_seq_contains(fresh@[a].deps@, d) <==> has_edge(
                g,
                fresh@[a].name@,
                d,
            ) && !y0.contains(d) && d != rname@),
        forall|a: int, b: int|
            0 <= a < fresh@.len() && 0 <= b < final(ready)@.len() ==> fresh@[a].name@
                != final(ready)@[b]@,
        forall|k: int|
            0 <= k < pending@.len() ==> has_node(fresh@, #[trigger] pending@[k].name@)
                || str_seq_contains(final(ready)@, pending@[k].name@),
{
    let ghost p0 = pending@;
    let ghost r0 = ready@;
    let mut work = pending;
    let mut fresh: Vec<GraphEntry> = Vec::new();
    while work.len() > 0
        invariant
            work@ =~= p0.subrange(0, work@.len() as int),
            work@.len() <= p0.len(),
            fresh@.len() + ready@.len() == p0.len() - work@.len() + r0.len(),
            ready@.len() >= r0.len(),
            forall|a: int| 0 <= a < r0.len() ==> ready@[a] == r0[a],
            forall|a: int|
                r0.len() <= a < ready@.len() ==> exists|k: int|
                    work@.len() <= k < p0.len() && (#[trigger] ready@[a]@) == p0[k].name@,
            forall|a: int, d: Seq<char>|
                #![trigger has_edge(g, ready@[a]@, d)]
                r0.len() <= a < ready@.len() && has_edge(g, ready@[a]@, d) ==> y0.contains(d)
                    || d == rname@,
            forall|a: int, b: int|
                0 <= a < b < ready@.len() && r0.len() <= b ==> ready@[a]@ != ready@[b]@,
            forall|a: int, b: int| 0 <= a < b < fresh@.len() ==> fresh@[a].name@
                != fresh@[b].name@,
            forall|a: int|
                0 <= a < fresh@.len() ==> exists|k: int|
                    work@.len() <= k < p0.len() && (#[trigger] fresh@[a].name@) == p0[k].name@,
            forall|a: int| 0 <= a < fresh@.len() ==> (#[trigger] fresh@[a].deps@).len() > 0,
            forall|a: int, d: Seq<char>|
                #![trigger str_seq_contains(fresh@[a].deps@, d)]
                #![trigger has_edge(g, fresh@[a].name@, d)]
                0 <= a < fresh@.len() ==> (str_seq_contains(fresh@[a].deps@, d) <==> has_edge(
                    g,
                    fresh@[a].name@,
                    d,
                ) && !y0.contains(d) && d != rname@),
            forall|a: int, b: int|
                0 <= a < fresh@.len() && 0 <= b < ready@.len() ==> fresh@[a].name@ != ready@[b]@,
            forall|k: int|
                work@.len() <= k < p0.len() ==> has_node(fresh@, #[trigger] p0[k].name@)
                    || str_seq_contains(ready@, p0[k].name@),
        decreases work@.len(),
    {
        let ghost m = work@.len() as int;
        let ghost preready = ready@;
        let ghost prefresh = fresh@;
        let entry = work.pop().unwrap();
        proof {
            assert(entry == p0[m - 1]);
            assert(work@ =~= p0.subrange(0, m - 1));
        }
        let GraphEntry { name, deps } = entry;
        let deps = filter_dep(deps, rname);
        proof {
            assert forall|d: Seq<char>| #[trigger]
                str_seq_contains(deps@, d) <==> has_edge(g, name@, d) && !y0.contains(d) && d
                    != rname@ by {
                assert(str_seq_contains(p0[m - 1].deps@, d) <==> has_edge(g, p0[m - 1].name@, d)
                    && !y0.contains(d));
            }
        }
        if deps.is_empty() {
            proof {
                assert forall|d: Seq<char>| #[trigger]
                    has_edge(g, name@, d) implies y0.contains(d) || d == rname@ by {
                    if !y0.contains(d) && d != rname@ {
                        assert(str_seq_contains(deps@, d));
                    }
                }
                assert forall|a: int| 0 <= a < preready.len() implies preready[a]@ != name@ by {
                    if a < r0.len() {
                        assert(preready[a] == r0[a]);
                        assert(!str_seq_contains(r0, p0[m - 1].name@));
                    } else {
                        let k = choose|k: int|
                            m <= k < p0.len() && (#[trigger] preready[a]@) == p0[k].name@;
                        assert(p0[k].name@ != p0[m - 1].name@);
                    }
                }
                assert forall|a: int| 0 <= a < prefresh.len() implies prefresh[a].name@
                    != name@ by {
                    let k = choose|k: int|
                        m <= k < p0.len() && (#[trigger] prefresh[a].name@) == p0[k].name@;
                    assert(p0[k].name@ != p0[m - 1].name@);
                }
            }
            ready.push(name);
            proof {
                assert(ready@ == preready.push(ready@[ready@.len() - 1]));
                assert(ready@[ready@.len() - 1]@ == p0[m - 1].name@);
                assert forall|k: int|
                    work@.len() <= k < p0.len() implies has_node(fresh@, #[trigger] p0[k].name@)
                        || str_seq_contains(ready@, p0[k].name@) by {
                    if k == m - 1 {
                        assert(str_seq_contains(ready@, p0[k].name@));
                    } else {
                        if str_seq_contains(preready, p0[k].name@) {
                            let a = choose|a: int|
                                0 <= a < preready.len() && preready[a]@ == p0[k].name@;
                            assert(ready@[a]@ == p0[k].name@);
                        }
                    }
                }
            }
        } else {
            proof {
                assert forall|a: int| 0 <= a < prefresh.len() implies prefresh[a].name@
                    != name@ by {
                    let k = choose|k: int|
                        m <= k < p0.len() && (#[trigger] prefresh[a].name@) == p0[k].name@;
                    assert(p0[k].name@ != p0[m - 1].name@);
                }
                assert forall|b: int| 0 <= b < ready@.len() implies name@ != ready@[b]@ by {
                    if b < r0.len() {
                        assert(ready@[b] == r0[b]);
                        assert(!str_seq_contains(r0, p0[m - 1].name@));
                    } else {
                        let k = choose|k: int|
                            m <= k < p0.len() && (#[trigger] ready@[b]@) == p0[k].name@;
                        assert(p0[k].name@ != p0[m - 1].name@);
                    }
                }
            }
            fresh.push(GraphEntry { name, deps });
            proof {
                assert(fresh@[fresh@.len() - 1].name@ == p0[m - 1].name@);
                assert forall|k: int|
                    work@.len() <= k < p0.len() implies has_node(fresh@, #[trigger] p0[k].name@)
                        || str_seq_contains(ready@, p0[k].name@) by {
                    if k == m - 1 {
                        assert(has_node(fresh@, p0[k].name@));
                    } else {
                        if has_node(prefresh, p0[k].name@) {
                            let a = choose|a: int|
                                0 <= a < prefresh.len() && prefresh[a].name@ == p0[k].name@;
                            assert(fresh@[a].name@ == p0[k].name@);
                        }
                    }
                }
                assert forall|a: int|
                    0 <= a < fresh@.len() implies exists|k: int|
                        work@.len() <= k < p0.len() && (#[trigger] fresh@[a].name@)
                            == p0[k].name@ by {
                    if a < prefresh.len() {
                        let k = choose|k: int|
                            m <= k < p0.len() && (#[trigger] prefresh[a].name@) == p0[k].name@;
                        assert(fresh@[a].name@ == p0[k].name@);
                    } else {
                        assert(fresh@[a].name@ == p0[m - 1].name@);
                    }
                }
            }
        }
    }
    proof {
        assert(p0.subrange(0, 0) =~= Seq::<GraphEntry>::empty());
        assert(work@.len() == 0);
        assert forall|a: int| r0.len() <= a < ready@.len() implies has_node(
            p0,
            #[trigger] ready@[a]@,
        ) by {
            let k = choose|k: int| work@.len() <= k < p0.len() && ready@[a]@ == p0[k].name@;
            assert(p0[k].name@ == ready@[a]@);
        }
        assert forall|a: int| 0 <= a < fresh@.len() implies has_node(
            p0,
            #[trigger] fresh@[a].name@,
        ) by {
            let k = choose|k: int| work@.len() <= k < p0.len() && fresh@[a].name@ == p0[k].name@;
            assert(p0[k].name@ == fresh@[a].name@);
        }
    }
    fresh
}

/// Reassemble the iterator invariant after one name has been yielded: the
/// yielded name moves into the history, its last-dependency nodes onto the
/// ready list, and every remaining pending node still waits on something
/// unyielded.
#[verifier::rlimit(30)]
proof fn lemma_emit_wf(init: SimpleTopoSortIter, post: SimpleTopoSortIter)
    requires
        init.wf(),
        init.ready@.len() > 0,
        post.graph@ == init.graph@,
        post.emitted@ == init.emitted@.push(init.ready@[init.ready@.len() - 1]@),
        post.ready@.len() + 1 >= init.ready@.len(),
        post.pending@.len() + post.ready@.len() + 1 == init.pending@.len() + init.ready@.len(),
        forall|a: int| 0 <= a < init.ready@.len() - 1 ==> post.ready@[a] == init.ready@[a],
        forall|a: int|
            init.ready@.len() - 1 <= a < post.ready@.len() ==> has_node(
                init.pending@,
                #[trigger] post.ready@[a]@,
            ),
        forall|a: int, d: Seq<char>|
            #![trigger has_edge(init.graph@, post.ready@[a]@, d)]
            init.ready@.len() - 1 <= a < post.ready@.len() && has_edge(
                init.graph@,
                post.ready@[a]@,
                d,
            ) ==> init.emitted@.contains(d) || d == init.ready@[init.ready@.len() - 1]@,
        forall|a: int, b: int|
            0 <= a < b < post.ready@.len() && init.ready@.len() - 1 <= b ==> post.ready@[a]@
                != post.ready@[b]@,
        forall|a: int, b: int| 0 <= a < b < post.pending@.len() ==> post.pending@[a].name@
            != post.pending@[b].name@,
        forall|a: int|
            0 <= a < post.pending@.len() ==> has_node(
                init.pending@,
                #[trigger] post.pending@[a].name@,
            ),
        forall|a: int|
            0 <= a < post.pending@.len() ==> (#[trigger] post.pending@[a].deps@).len() > 0,
        forall|a: int, d: Seq<char>|
            #![trigger str_seq_contains(post.pending@[a].deps@, d)]
            #![trigger has_edge(init.graph@, post.pending@[a].name@, d)]
            0 <= a < post.pending@.len() ==> (str_seq_contains(post.pending@[a].deps@, d)
                <==> has_edge(init.graph@, post.pending@[a].name@, d) && !init.emitted@.contains(d)
                && d != init.ready@[init.ready@.len() - 1]@),
        forall|a: int, b: int|
            0 <= a < post.pending@.len() && 0 <= b < post.ready@.len() ==> post.pending@[a].name@
                != post.ready@[b]@,
        forall|k: int|
            0 <= k < init.pending@.len() ==> has_node(
                post.pending@,
                #[trigger] init.pending@[k].name@,
            ) || str_seq_contains(post.ready@, init.pending@[k].name@),
    ensures
        post.wf(),
        post.unfinished() < init.unfinished(),
        !init.emitted@.contains(init.ready@[init.ready@.len() - 1]@),
        mentions(init.graph@, init.ready@[init.ready@.len() - 1]@),
        forall|d: Seq<char>| #[trigger]
            has_edge(init.graph@, init.ready@[init.ready@.len() - 1]@, d)
                ==> init.emitted@.contains(d),
{
    let g = init.graph@;
    let p0 = init.pending@;
    let r0 = init.ready@;
    let y0 = init.emitted@;
    let rn = r0[r0.len() - 1]@;
    let y1 = y0.push(rn);
    let p = post.pending@;
    let rr = post.ready@;
    let r1len = r0.len() - 1;
    assert forall|d: Seq<char>| #[trigger] y1.contains(d) <==> y0.contains(d) || d == rn by {
        lemma_seq_push_contains(y0, rn, d);
    }
    assert(!y0.contains(rn)) by {
        assert(!y0.contains(r0[r0.len() - 1]@));
    }
    assert(mentions(g, rn)) by {
        assert(mentions(g, r0[r0.len() - 1]@));
    }
    assert forall|d: Seq<char>| #[trigger] has_edge(g, rn, d) implies y0.contains(d) by {
        assert(has_edge(g, r0[r0.len() - 1]@, d));
    }
    // pending nodes name nodes of the graph
    assert forall|a: int| 0 <= a < p.len() implies has_node(g, #[trigger] p[a].name@) by {
        let k = choose|k: int| 0 <= k < p0.len() && p0[k].name@ == p[a].name@;
        assert(has_node(g, p0[k].name@));
    }
    // the emitted history stays dependency-ordered
    assert forall|i: int, d: Seq<char>|
        #![trigger has_edge(g, y1[i], d)]
        0 <= i < y1.len() && has_edge(g, y1[i], d) implies exists|j: int|
        0 <= j < i && y1[j] == d by {
        if i < y0.len() {
            assert(has_edge(g, y0[i], d));
            let j = choose|j: int| 0 <= j < i && y0[j] == d;
            assert(y1[j] == d);
        } else {
            assert(y1[i] == rn);
            assert(y0.contains(d));
            let j = choose|j: int| 0 <= j < y0.len() && y0[j] == d;
            assert(y1[j] == d);
        }
    }
    // ready names are mentioned and unyielded
    assert forall|a: int| 0 <= a < rr.len() implies mentions(g, #[trigger] rr[a]@) && !y1.contains(
        rr[a]@,
    ) by {
        if a < r1len {
            assert(rr[a] == r0[a]);
            assert(mentions(g, r0[a]@));
            assert(!y0.contains(r0[a]@));
            assert(r0[a]@ != r0[r0.len() - 1]@);
        } else {
            let k = choose|k: int| 0 <= k < p0.len() && p0[k].name@ == rr[a]@;
            assert(has_node(g, p0[k].name@));
            assert(!y0.contains(p0[k].name@));
            assert(!str_seq_contains(r0, p0[k].name@));
            assert(r0[r0.len() - 1]@ == rn);
        }
    }
    // ready names have all their dependencies yielded
    assert forall|a: int, d: Seq<char>|
        #![trigger has_edge(g, rr[a]@, d)]
        0 <= a < rr.len() && has_edge(g, rr[a]@, d) implies y1.contains(d) by {
        if a < r1len {
            assert(rr[a] == r0[a]);
            assert(has_edge(g, r0[a]@, d));
            assert(y0.contains(d));
        }
    }
    // ready names are pairwise distinct
    assert forall|a: int, b: int| 0 <= a < b < rr.len() implies rr[a]@ != rr[b]@ by {
        if b < r1len {
            assert(rr[a] == r0[a] && rr[b] == r0[b]);
        }
    }
    // pending names are neither ready nor yielded
    assert forall|a: int|
        0 <= a < p.len() implies !str_seq_contains(rr, #[trigger] p[a].name@) && !y1.contains(
        p[a].name@,
    ) by {
        let k = choose|k: int| 0 <= k < p0.len() && p0[k].name@ == p[a].name@;
        assert(!y0.contains(p0[k].name@));
        assert(!str_seq_contains(r0, p0[k].name@));
        assert(r0[r0.len() - 1]@ == rn);
        if str_seq_contains(rr, p[a].name@) {
            let b = choose|b: int| 0 <= b < rr.len() && rr[b]@ == p[a].name@;
            assert(false);
        }
    }
    // every mentioned name is placed
    assert forall|n: Seq<char>| #[trigger]
        mentions(g, n) implies has_node(p, n) || str_seq_contains(rr, n) || y1.contains(n) by {
        if has_node(p0, n) {
            let k = choose|k: int| 0 <= k < p0.len() && p0[k].name@ == n;
            assert(has_node(p, p0[k].name@) || str_seq_contains(rr, p0[k].name@));
        } else if str_seq_contains(r0, n) {
            let a = choose|a: int| 0 <= a < r0.len() && r0[a]@ == n;
            if a == r0.len() - 1 {
                assert(y1.contains(n));
            } else {
                assert(rr[a]@ == n);
            }
        }
    }
    assert(post.wf());
}

/// A nonempty family of nodes, each declaring at least one dependency that
/// is again a member of the family, certifies a cycle.
proof fn lemma_stuck_core(g: Seq<GraphEntry>, p: Seq<GraphEntry>)
    requires
        p.len() > 0,
        forall|i: int| 0 <= i < p.len() ==> has_node(g, #[trigger] p[i].name@),
        forall|i: int| 0 <= i < p.len() ==> (#[trigger] p[i].deps@).len() > 0,
        forall|i: int, d: Seq<char>|
            #![trigger str_seq_contains(p[i].deps@, d)]
            0 <= i < p.len() && str_seq_contains(p[i].deps@, d) ==> has_edge(g, p[i].name@, d)
                && has_node(p, d),
    ensures
        contains_cycle(g),
{
    assert forall|i: int| 0 <= i < p.len() implies stuck_member(g, p, i) by {
        let d0 = p[i].deps@[0]@;
        assert(str_seq_contains(p[i].deps@, d0));
        assert(has_edge(g, p[i].name@, d0) && has_node(p, d0));
    }
    assert(is_stuck_family(g, p));
}

/// When nothing is ready but unresolved nodes remain, those nodes form a
/// stuck family: each still waits on a dependency that is itself
/// unresolved.
proof fn lemma_stuck_pending(it: SimpleTopoSortIter)
    requires
        it.wf(),
        it.ready@.len() == 0,
        it.pending@.len() > 0,
    ensures
        contains_cycle(it.graph@),
        has_node(it.graph@, it.pending@[0].name@),
        !it.emitted@.contains(it.pending@[0].name@),
{
    let g = it.graph@;
    let p = it.pending@;
    let r0 = it.ready@;
    let y0 = it.emitted@;
    assert forall|i: int, d: Seq<char>|
        #![trigger str_seq_contains(p[i].deps@, d)]
        0 <= i < p.len() && str_seq_contains(p[i].deps@, d) implies has_edge(g, p[i].name@, d)
            && has_node(p, d) by {
        assert(has_edge(g, p[i].name@, d) && !y0.contains(d));
        assert(mentions(g, d)) by {
            let k = choose|k: int|
                0 <= k < g.len() && g[k].name@ == p[i].name@ && str_seq_contains(g[k].deps@, d);
            assert(str_seq_contains(g[k].deps@, d));
        }
        assert(has_node(p, d) || str_seq_contains(r0, d) || y0.contains(d));
        assert(has_node(p, d));
    }
    lemma_stuck_core(g, p);
    assert(!y0.contains(p[0].name@));
}

/// Two graphs with the same nodes and the same edges contain the same
/// cycles.
pub proof fn lemma_cycle_transfer(g1: Seq<GraphEntry>, g2: Seq<GraphEntry>)
    requires
        forall|n: Seq<char>| #[trigger] has_node(g1, n) <==> has_node(g2, n),
        forall|n: Seq<char>, d: Seq<char>| #[trigger]
            has_edge(g1, n, d) <==> has_edge(g2, n, d),
    ensures
        contains_cycle(g1) <==> contains_cycle(g2),
{
    if contains_cycle(g1) {
        let p = choose|p: Seq<GraphEntry>| is_stuck_family(g1, p);
        assert forall|i: int| 0 <= i < p.len() implies stuck_member(g2, p, i) by {
            assert(stuck_member(g1, p, i));
            let d = choose|d: Seq<char>| has_edge(g1, p[i].name@, d) && has_node(p, d);
            assert(has_edge(g2, p[i].name@, d) && has_node(p, d));
        }
        assert(is_stuck_family(g2, p));
    }
    if contains_cycle(g2) {
        let p = choose|p: Seq<GraphEntry>| is_stuck_family(g2, p);
        assert forall|i: int| 0 <= i < p.len() implies stuck_member(g1, p, i) by {
            assert(stuck_member(g2, p, i));
            let d = choose|d: Seq<char>| has_edge(g2, p[i].name@, d) && has_node(p, d);
            assert(has_edge(g1, p[i].name@, d) && has_node(p, d));
        }
        assert(is_stuck_family(g1, p));
    }
}

/// The number of dependency names declared by the entries of `g` before
/// position (`k`, `l`): all of rows `0..k` plus the first `l` of row `k`.
pub open spec fn partial_dep_count(g: Seq<GraphEntry>, k: int, l: int) -> nat
    decreases k,
{
    if k <= 0 {
        l as nat
    } else {
        partial_dep_count(g, k - 1, 0) + g[k - 1].deps@.len() + l as nat
    }
}

/// The number of dependency names declared in all of `g`.
pub open spec fn total_dep_count(g: Seq<GraphEntry>) -> nat {
    partial_dep_count(g, g.len() as int, 0)
}

proof fn lemma_partial_dep_count_step(g: Seq<GraphEntry>, k: int, l: int)
    requires
        0 <= k < g.len(),
        0 <= l,
    ensures
        partial_dep_count(g, k, l) + 1 == partial_dep_count(g, k, l + 1),
{
}

proof fn lemma_partial_dep_count_row(g: Seq<GraphEntry>, k: int)
    requires
        0 <= k < g.len(),
    ensures
        partial_dep_count(g, k, g[k].deps@.len() as int) == partial_dep_count(g, k + 1, 0),
{
    assert(partial_dep_count(g, k + 1, 0) == partial_dep_count(g, k, 0) + g[k].deps@.len());
    if k > 0 {
        assert(partial_dep_count(g, k, g[k].deps@.len() as int) == partial_dep_count(g, k - 1, 0)
            + g[k - 1].deps@.len() + g[k].deps@.len());
        assert(partial_dep_count(g, k, 0) == partial_dep_count(g, k - 1, 0)
            + g[k - 1].deps@.len());
    }
}

} // verus!

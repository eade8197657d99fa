use vstd::prelude::*;

use crate::descriptor::decode_file_descriptor;
use crate::descriptor::decode_file_descriptor_set;
use crate::descriptor::decoded_file;
use crate::descriptor::decoded_file_set;
use crate::descriptor::FileUnitModel;
use crate::errors::ResolveError;
use crate::registry::seq_contains_name;
use crate::registry::FileSchemaUnit;
use crate::registry::SchemaRegistry;
use crate::topo::contains_cycle;
use crate::topo::has_edge;
use crate::topo::has_node;
use crate::topo::mentions;
use crate::topo::str_seq_contains;
use crate::topo::GraphEntry;
use crate::topo::SimpleTopoSort;
use crate::topo::SimpleTopoSortIter;
use crate::transport::FetchAction;
use crate::transport::FetchEvent;

verus! {

/// `u` carries the same name, dependency names and content as one of the
/// decoded file models `ms`.
pub open spec fn unit_matches_model(
    u: FileSchemaUnit,
    ms: Seq<crate::descriptor::FileUnitModel>,
) -> bool {
    exists|i: int|
        0 <= i < ms.len() && u.name@ == ms[i].name && u.dependency.deep_view()
            == ms[i].dependencies && u.content@ == ms[i].content
}

/// The dependency graph induced by a batch of units: one node per unit,
/// carrying the unit's declared dependency names.
pub open spec fn batch_graph(us: Seq<FileSchemaUnit>) -> Seq<GraphEntry> {
    us.map_values(|u: FileSchemaUnit| GraphEntry { name: u.name, deps: u.dependency })
}

proof fn lemma_batch_graph_equiv(us: Seq<FileSchemaUnit>)
    ensures
        forall|n: Seq<char>| #[trigger]
            has_node(batch_graph(us), n) <==> seq_contains_name(us, n),
        forall|n: Seq<char>, d: Seq<char>| #[trigger]
            has_edge(batch_graph(us), n, d) <==> exists|i: int|
                0 <= i < us.len() && us[i].name@ == n && str_seq_contains(
                    #[trigger] us[i].dependency@,
                    d,
                ),
{
    let bg = batch_graph(us);
    assert forall|n: Seq<char>| #[trigger]
        has_node(bg, n) <==> seq_contains_name(us, n) by {
        if has_node(bg, n) {
            let i = choose|i: int| 0 <= i < bg.len() && bg[i].name@ == n;
            assert(us[i].name@ == n);
        }
        if seq_contains_name(us, n) {
            let i = choose|i: int| 0 <= i < us.len() && us[i].name@ == n;
            assert(bg[i].name@ == n);
        }
    }
    assert forall|n: Seq<char>, d: Seq<char>| #[trigger]
        has_edge(bg, n, d) <==> exists|i: int|
            0 <= i < us.len() && us[i].name@ == n && str_seq_contains(
                #[trigger] us[i].dependency@,
                d,
            ) by {
        if has_edge(bg, n, d) {
            let i = choose|i: int|
                0 <= i < bg.len() && bg[i].name@ == n && str_seq_contains(bg[i].deps@, d);
            assert(us[i].name@ == n && str_seq_contains(us[i].dependency@, d));
        }
        if exists|i: int|
            0 <= i < us.len() && us[i].name@ == n && str_seq_contains(
                #[trigger] us[i].dependency@,
                d,
            ) {
            let i = choose|i: int|
                0 <= i < us.len() && us[i].name@ == n && str_seq_contains(us[i].dependency@, d);
            assert(bg[i].name@ == n && str_seq_contains(bg[i].deps@, d));
        }
    }
}

fn clone_names(v: &Vec<String>) -> (r: Vec<String>)
    ensures
        r@ =~= v@,
{
    let mut r: Vec<String> = Vec::new();
    let mut i: usize = 0;
    while i < v.len()
        invariant
            0 <= i <= v@.len(),
            r@ =~= v@.subrange(0, i as int),
        decreases v@.len() - i,
    {
        r.push(v[i].clone());
        proof {
            assert(r@ =~= v@.subrange(0, i + 1));
        }
        i += 1;
    }
    proof {
        assert(v@.subrange(0, v@.len() as int) =~= v@);
    }
    r
}

/// The index of the first unit named `name`, if any.
fn find_unit(units: &Vec<FileSchemaUnit>, name: &String) -> (r: Option<usize>)
    ensures
        match r {
            Some(idx) => idx < units@.len() && units@[idx as int].name@ == name@,
            None => !seq_contains_name(units@, name@),
        },
{
    let mut i: usize = 0;
    while i < units.len()
        invariant
            0 <= i <= units@.len(),
            forall|k: int| 0 <= k < i ==> units@[k].name@ != name@,
        decreases units@.len() - i,
    {
        if units[i].name == *name {
            return Some(i);
        }
        i += 1;
    }
    None
}

/// Assemble a fresh registry from one dependency-complete batch of units:
/// feed every unit to a sorter, drain it, and register each drained name's
/// unit, so that the registry's dependency-present invariant holds at every
/// insertion.
///
/// For a batch without a dependency cycle in which every mentioned name is
/// a unit of the batch, the order produced by the sorter always satisfies
/// the registry's insertion precondition, and the call succeeds. Should two
/// units of one batch share a name, the first one is the one registered;
/// the graph still carries both units' dependencies.
#[verifier::loop_isolation(false)]
#[verifier::rlimit(60)]
pub fn assemble_registry(units: Vec<FileSchemaUnit>) -> (r: Result<SchemaRegistry, ResolveError>)
    ensures
        match r {
            Ok(reg) => {
                &&& reg.wf()
                &&& forall|i: int|
                    0 <= i < units@.len() ==> seq_contains_name(reg@, #[trigger] units@[i].name@)
                &&& forall|k: int| 0 <= k < reg@.len() ==> units@.contains(#[trigger] reg@[k])
                &&& !contains_cycle(batch_graph(units@))
            },
            Err(e) => match e {
                ResolveError::Cycle(nm) => contains_cycle(batch_graph(units@)) && has_node(
                    batch_graph(units@),
                    nm@,
                ),
                ResolveError::MissingDependency(d) => mentions(batch_graph(units@), d@)
                    && !has_node(batch_graph(units@), d@) && !contains_cycle(
                    batch_graph(units@),
                ),
                _ => false,
            },
        },
        !contains_cycle(batch_graph(units@)) && (forall|n: Seq<char>| #[trigger]
            mentions(batch_graph(units@), n) ==> has_node(batch_graph(units@), n)) ==> r is Ok,
{
    let ghost us = units@;
    let ghost bg = batch_graph(us);
    proof {
        lemma_batch_graph_equiv(us);
    }
    let mut ts = SimpleTopoSort::new();
    let mut i: usize = 0;
    while i < units.len()
        invariant
            0 <= i <= units@.len(),
            ts.wf(),
            forall|n: Seq<char>| #[trigger] has_node(ts@, n) <==> seq_contains_name(us.take(i as int), n),
            forall|n: Seq<char>, d: Seq<char>| #[trigger]
                has_edge(ts@, n, d) <==> exists|k: int|
                    0 <= k < i && us[k].name@ == n && str_seq_contains(
                        #[trigger] us[k].dependency@,
                        d,
                    ),
            forall|n: Seq<char>| #[trigger]
                mentions(ts@, n) <==> mentions(batch_graph(us.take(i as int)), n),
        decreases units@.len() - i,
    {
        let ghost pre = ts@;
        ts.insert(units[i].name.clone(), clone_names(&units[i].dependency));
        proof {
            lemma_batch_graph_equiv(us.take(i as int));
            lemma_batch_graph_equiv(us.take(i + 1));
            let ghost usn = us.take(i + 1);
            let ghost usi = us.take(i as int);
            assert forall|n: Seq<char>| #[trigger]
                has_node(ts@, n) <==> seq_contains_name(usn, n) by {
                if has_node(ts@, n) {
                    if has_node(pre, n) {
                        assert(seq_contains_name(usi, n));
                        let k = choose|k: int| 0 <= k < usi.len() && usi[k].name@ == n;
                        assert(usn[k].name@ == n);
                    } else {
                        assert(n == units@[i as int].name@);
                        assert(usn[i as int].name@ == n);
                    }
                    assert(seq_contains_name(usn, n));
                }
                if seq_contains_name(usn, n) {
                    let k = choose|k: int| 0 <= k < usn.len() && usn[k].name@ == n;
                    if k < i {
                        assert(usi[k].name@ == n);
                        assert(seq_contains_name(usi, n));
                        assert(has_node(pre, n));
                    } else {
                        assert(n == units@[i as int].name@);
                    }
                    assert(has_node(ts@, n));
                }
            }
            assert forall|n: Seq<char>, d: Seq<char>| #[trigger]
                has_edge(ts@, n, d) <==> exists|k: int|
                    0 <= k < i + 1 && us[k].name@ == n && str_seq_contains(
                        #[trigger] us[k].dependency@,
                        d,
                    ) by {
                if has_edge(ts@, n, d) {
                    if has_edge(pre, n, d) {
                        let k = choose|k: int|
                            0 <= k < i && us[k].name@ == n && str_seq_contains(
                                us[k].dependency@,
                                d,
                            );
                        assert(0 <= k < i + 1 && us[k].name@ == n && str_seq_contains(
                            us[k].dependency@,
                            d,
                        ));
                    } else {
                        assert(us[i as int].name@ == n && str_seq_contains(
                            us[i as int].dependency@,
                            d,
                        ));
                    }
                }
                if exists|k: int|
                    0 <= k < i + 1 && us[k].name@ == n && str_seq_contains(
                        #[trigger] us[k].dependency@,
                        d,
                    ) {
                    let k = choose|k: int|
                        0 <= k < i + 1 && us[k].name@ == n && str_seq_contains(
                            us[k].dependency@,
                            d,
                        );
                    if k < i {
                        assert(has_edge(pre, n, d));
                    }
                    assert(has_edge(ts@, n, d));
                }
            }
            assert forall|n: Seq<char>| #[trigger]
                mentions(ts@, n) <==> mentions(batch_graph(us.take(i + 1)), n) by {
                let bgp = batch_graph(us.take(i + 1));
                let bgi = batch_graph(us.take(i as int));
                if mentions(ts@, n) {
                    if mentions(bgi, n) && !has_node(bgi, n) {
                        let k = choose|k: int|
                            0 <= k < bgi.len() && str_seq_contains(#[trigger] bgi[k].deps@, n);
                        assert(str_seq_contains(bgp[k].deps@, n));
                        assert(mentions(bgp, n));
                    } else if has_node(bgi, n) {
                        assert(seq_contains_name(us.take(i as int), n));
                        let k = choose|k: int| 0 <= k < i && us.take(i as int)[k].name@ == n;
                        assert(bgp[k].name@ == n);
                        assert(mentions(bgp, n));
                    } else if n == units@[i as int].name@ {
                        assert(bgp[i as int].name@ == n);
                        assert(mentions(bgp, n));
                    } else {
                        assert(str_seq_contains(units@[i as int].dependency@, n));
                        assert(str_seq_contains(bgp[i as int].deps@, n));
                        assert(mentions(bgp, n));
                    }
                }
                if mentions(bgp, n) {
                    if has_node(bgp, n) {
                        let k = choose|k: int| 0 <= k < bgp.len() && bgp[k].name@ == n;
                        if k < i {
                            assert(bgi[k].name@ == n);
                            assert(mentions(bgi, n));
                        } else {
                            assert(n == units@[i as int].name@);
                        }
                    } else {
                        let k = choose|k: int|
                            0 <= k < bgp.len() && str_seq_contains(#[trigger] bgp[k].deps@, n);
                        if k < i {
                            assert(str_seq_contains(bgi[k].deps@, n));
                            assert(mentions(bgi, n));
                        } else {
                            assert(str_seq_contains(units@[i as int].dependency@, n));
                        }
                    }
                    assert(mentions(ts@, n));
                }
            }
        }
        i += 1;
    }
    proof {
        assert(i as int == us.len());
        assert(us.take(i as int) =~= us);
        assert forall|n: Seq<char>| #[trigger]
            has_node(ts@, n) <==> has_node(bg, n) by {
            assert(has_node(ts@, n) <==> seq_contains_name(us.take(i as int), n));
        }
        assert forall|n: Seq<char>, d: Seq<char>| #[trigger]
            has_edge(ts@, n, d) <==> has_edge(bg, n, d) by {
            if has_edge(ts@, n, d) {
                let k = choose|k: int|
                    0 <= k < i && us[k].name@ == n && str_seq_contains(us[k].dependency@, d);
                assert(0 <= k < us.len() && us[k].name@ == n && str_seq_contains(
                    us[k].dependency@,
                    d,
                ));
            }
            if has_edge(bg, n, d) {
                let k = choose|k: int|
                    0 <= k < us.len() && us[k].name@ == n && str_seq_contains(
                        us[k].dependency@,
                        d,
                    );
                assert(0 <= k < i && us[k].name@ == n && str_seq_contains(us[k].dependency@, d));
            }
        }
        assert forall|n: Seq<char>| #[trigger]
            mentions(ts@, n) <==> mentions(bg, n) by {
            assert(mentions(ts@, n) <==> mentions(batch_graph(us.take(i as int)), n));
        }
    }
    let ghost tsv = ts@;
    let order = match ts.drain() {
        Err(e) => {
            proof {
                crate::topo::lemma_cycle_transfer(tsv, bg);
            }
            return Err(ResolveError::Cycle(e.node));
        },
        Ok(order) => order,
    };
    let mut reg = SchemaRegistry::new();
    let mut pool = units;
    let mut k: usize = 0;
    while k < order.len()
        invariant
            reg.wf(),
            forall|j: int| 0 <= j < k ==> seq_contains_name(reg@, #[trigger] order@[j]@),
            forall|m: int| 0 <= m < reg@.len() ==> us.contains(#[trigger] reg@[m]),
            forall|m: int|
                0 <= m < reg@.len() ==> exists|j: int|
                    0 <= j < k && (#[trigger] reg@[m]).name@ == order@[j]@,
            forall|m: int| 0 <= m < pool@.len() ==> us.contains(#[trigger] pool@[m]),
            forall|n: Seq<char>|
                seq_contains_name(us, n) && !(exists|j: int|
                    0 <= j < k && (#[trigger] order@[j]@) == n) ==> seq_contains_name(pool@, n),
        decreases order@.len() - k,
    {
        let name = &order[k];
        match find_unit(&pool, name) {
            Some(idx) => {
                let ghost prepool = pool@;
                let unit = pool.swap_remove(idx);
                proof {
                    assert(us.contains(unit));
                    let ui = choose|ui: int| 0 <= ui < us.len() && us[ui] == unit;
                    assert forall|d: Seq<char>|
                        str_seq_contains(#[trigger] unit.dependency@, d) implies seq_contains_name(
                        reg@,
                        d,
                    ) by {
                        assert(us[ui].name@ == unit.name@ && str_seq_contains(
                            us[ui].dependency@,
                            d,
                        ));
                        assert(has_edge(bg, unit.name@, d));
                        assert(has_edge(tsv, order@[k as int]@, d));
                        let j = choose|j: int| 0 <= j < k && order@[j]@ == d;
                        assert(seq_contains_name(reg@, order@[j]@));
                    }
                    assert(crate::registry::unit_deps_present(reg@, unit));
                    assert forall|m: int|
                        0 <= m < pool@.len() implies us.contains(#[trigger] pool@[m]) by {
                        if m < pool@.len() - 1 || m != idx {
                        }
                        assert(pool@[m] == prepool[m] || pool@[m] == prepool[prepool.len() - 1]);
                    }
                    assert forall|n: Seq<char>|
                        seq_contains_name(us, n) && !(exists|j: int|
                            0 <= j < k + 1 && (#[trigger] order@[j]@) == n) implies
                        seq_contains_name(pool@, n) by {
                        assert(n != order@[k as int]@);
                        assert(seq_contains_name(prepool, n));
                        let m = choose|m: int| 0 <= m < prepool.len() && prepool[m].name@ == n;
                        if m == idx {
                            assert(prepool[idx as int].name@ == order@[k as int]@);
                            assert(false);
                        } else if m == prepool.len() - 1 {
                            if idx < prepool.len() - 1 {
                                assert(pool@[idx as int].name@ == n);
                            } else {
                                assert(false);
                            }
                        } else {
                            assert(pool@[m].name@ == n);
                        }
                    }
                }
                let ghost regpre = reg@;
                proof {
                    assert(!seq_contains_name(regpre, unit.name@)) by {
                        if seq_contains_name(regpre, unit.name@) {
                            let m = choose|m: int|
                                0 <= m < regpre.len() && regpre[m].name@ == unit.name@;
                            let j = choose|j: int|
                                0 <= j < k && regpre[m].name@ == order@[j]@;
                            assert(order@[j]@ != order@[k as int]@);
                        }
                    }
                }
                let res = reg.insert(unit);
                proof {
                    assert(reg@ == regpre.push(unit));
                    assert forall|n: Seq<char>|
                        seq_contains_name(regpre, n) implies seq_contains_name(reg@, n) by {
                        let m = choose|m: int| 0 <= m < regpre.len() && regpre[m].name@ == n;
                        assert(reg@[m].name@ == n);
                    }
                    assert(reg@[reg@.len() - 1].name@ == order@[k as int]@);
                    assert forall|m: int|
                        0 <= m < reg@.len() implies us.contains(#[trigger] reg@[m]) by {
                        if m < regpre.len() {
                            assert(reg@[m] == regpre[m]);
                        } else {
                            assert(reg@[m] == unit);
                        }
                    }
                    assert forall|m: int|
                        0 <= m < reg@.len() implies exists|j: int|
                            0 <= j < k + 1 && (#[trigger] reg@[m]).name@ == order@[j]@ by {
                        if m < regpre.len() {
                            assert(reg@[m] == regpre[m]);
                            let j = choose|j: int|
                                0 <= j < k && regpre[m].name@ == order@[j]@;
                            assert(0 <= j < k + 1 && reg@[m].name@ == order@[j]@);
                        } else {
                            assert(reg@[m].name@ == order@[k as int]@);
                        }
                    }
                }
                match res {
                    Ok(()) => {},
                    Err(e) => {
                        return Err(e);
                    },
                }
            },
            None => {
                if !reg.contains_name(name) {
                    proof {
                        assert(mentions(tsv, order@[k as int]@));
                        assert(!seq_contains_name(us, order@[k as int]@)) by {
                            if seq_contains_name(us, order@[k as int]@) {
                                if exists|j: int|
                                    0 <= j < k && (#[trigger] order@[j]@) == order@[k as int]@ {
                                    let j = choose|j: int|
                                        0 <= j < k && (#[trigger] order@[j]@)
                                            == order@[k as int]@;
                                    assert(order@[j]@ != order@[k as int]@);
                                } else {
                                    assert(seq_contains_name(pool@, order@[k as int]@));
                                }
                            }
                        }
                        assert(!has_node(bg, order@[k as int]@));
                        crate::topo::lemma_cycle_transfer(tsv, bg);
                    }
                    return Err(ResolveError::MissingDependency(name.clone()));
                }
            },
        }
        k += 1;
    }
    proof {
        assert forall|i: int|
            0 <= i < units@.len() implies seq_contains_name(reg@, #[trigger] units@[i].name@) by {
            assert(has_node(bg, units@[i].name@));
            assert(mentions(tsv, units@[i].name@));
            assert(str_seq_contains(order@, units@[i].name@));
            let j = choose|j: int| 0 <= j < order@.len() && order@[j]@ == units@[i].name@;
            assert(seq_contains_name(reg@, order@[j]@));
        }
        crate::topo::lemma_cycle_transfer(tsv, bg);
    }
    Ok(reg)
}

/// A decoded file model named `n` exists in `ms`.
pub open spec fn model_has_name(ms: Seq<FileUnitModel>, n: Seq<char>) -> bool {
    exists|i: int| 0 <= i < ms.len() && ms[i].name == n
}

/// The decoded file `n` of `ms` declares a dependency on `d`.
pub open spec fn model_has_edge(ms: Seq<FileUnitModel>, n: Seq<char>, d: Seq<char>) -> bool {
    exists|i: int| 0 <= i < ms.len() && ms[i].name == n && ms[i].dependencies.contains(d)
}

/// `n` occurs in `ms` at all, as a file name or as a dependency name.
pub open spec fn model_mentions(ms: Seq<FileUnitModel>, n: Seq<char>) -> bool {
    model_has_name(ms, n) || exists|i: int|
        0 <= i < ms.len() && (#[trigger] ms[i].dependencies).contains(n)
}

/// Member `i` of the family `f` depends on another member.
pub open spec fn model_stuck_member(ms: Seq<FileUnitModel>, f: Seq<Seq<char>>, i: int) -> bool {
    exists|d: Seq<char>| model_has_edge(ms, f[i], d) && f.contains(d)
}

/// A nonempty family of file names of `ms`, each depending on another
/// member: a dependency cycle among the decoded files.
pub open spec fn model_stuck_family(ms: Seq<FileUnitModel>, f: Seq<Seq<char>>) -> bool {
    &&& f.len() > 0
    &&& (forall|i: int| 0 <= i < f.len() ==> model_has_name(ms, #[trigger] f[i]))
    &&& (forall|i: int| 0 <= i < f.len() ==> model_stuck_member(ms, f, i))
}

/// The dependencies declared among the decoded files contain a cycle.
pub open spec fn model_contains_cycle(ms: Seq<FileUnitModel>) -> bool {
    exists|f: Seq<Seq<char>>| model_stuck_family(ms, f)
}

/// Units that carry the models' names and dependencies induce the same
/// nodes, edges, mentions and cycles as the models themselves.
proof fn lemma_model_graph_equiv(us: Seq<FileSchemaUnit>, ms: Seq<FileUnitModel>)
    requires
        us.len() == ms.len(),
        forall|i: int|
            0 <= i < us.len() ==> (#[trigger] us[i]).name@ == ms[i].name
                && us[i].dependency.deep_view() == ms[i].dependencies,
    ensures
        forall|n: Seq<char>| #[trigger] has_node(batch_graph(us), n) <==> model_has_name(ms, n),
        forall|n: Seq<char>, d: Seq<char>| #[trigger]
            has_edge(batch_graph(us), n, d) <==> model_has_edge(ms, n, d),
        forall|n: Seq<char>| #[trigger] mentions(batch_graph(us), n) <==> model_mentions(ms, n),
        contains_cycle(batch_graph(us)) <==> model_contains_cycle(ms),
{
    let bg = batch_graph(us);
    lemma_batch_graph_equiv(us);
    assert forall|n: Seq<char>| #[trigger]
        has_node(bg, n) <==> model_has_name(ms, n) by {
        if has_node(bg, n) {
            assert(seq_contains_name(us, n));
            let i = choose|i: int| 0 <= i < us.len() && us[i].name@ == n;
            assert(ms[i].name == n);
        }
        if model_has_name(ms, n) {
            let i = choose|i: int| 0 <= i < ms.len() && ms[i].name == n;
            assert(us[i].name@ == n);
            assert(seq_contains_name(us, n));
        }
    }
    assert forall|n: Seq<char>, d: Seq<char>| #[trigger]
        has_edge(bg, n, d) <==> model_has_edge(ms, n, d) by {
        if has_edge(bg, n, d) {
            let i = choose|i: int|
                0 <= i < us.len() && us[i].name@ == n && str_seq_contains(
                    #[trigger] us[i].dependency@,
                    d,
                );
            let j = choose|j: int| 0 <= j < us[i].dependency@.len() && us[i].dependency@[j]@ == d;
            assert(us[i].dependency.deep_view()[j] == d);
            assert(ms[i].dependencies.contains(d));
            assert(ms[i].name == n);
        }
        if model_has_edge(ms, n, d) {
            let i = choose|i: int|
                0 <= i < ms.len() && ms[i].name == n && ms[i].dependencies.contains(d);
            let j = choose|j: int|
                0 <= j < ms[i].dependencies.len() && ms[i].dependencies[j] == d;
            assert(us[i].dependency.deep_view()[j] == d);
            assert(us[i].dependency@[j]@ == d);
            assert(str_seq_contains(us[i].dependency@, d));
            assert(has_edge(bg, n, d));
        }
    }
    assert forall|n: Seq<char>| #[trigger]
        mentions(bg, n) <==> model_mentions(ms, n) by {
        if mentions(bg, n) && !has_node(bg, n) {
            let i = choose|i: int|
                0 <= i < bg.len() && str_seq_contains(#[trigger] bg[i].deps@, n);
            let j = choose|j: int| 0 <= j < bg[i].deps@.len() && bg[i].deps@[j]@ == n;
            assert(bg[i].deps@ == us[i].dependency@);
            assert(us[i].dependency.deep_view()[j] == n);
            assert(ms[i].dependencies.contains(n));
            assert(model_mentions(ms, n));
        }
        if model_mentions(ms, n) && !model_has_name(ms, n) {
            let i = choose|i: int|
                0 <= i < ms.len() && (#[trigger] ms[i].dependencies).contains(n);
            let j = choose|j: int|
                0 <= j < ms[i].dependencies.len() && ms[i].dependencies[j] == n;
            assert(us[i].dependency.deep_view()[j] == n);
            assert(us[i].dependency@[j]@ == n);
            assert(str_seq_contains(bg[i].deps@, n));
            assert(mentions(bg, n));
        }
    }
    if contains_cycle(bg) {
        let p = choose|p: Seq<GraphEntry>| crate::topo::is_stuck_family(bg, p);
        let f = p.map_values(|e: GraphEntry| e.name@);
        assert forall|i: int| 0 <= i < f.len() implies model_has_name(ms, #[trigger] f[i]) by {
            assert(has_node(bg, p[i].name@));
            assert(f[i] == p[i].name@);
        }
        assert forall|i: int| 0 <= i < f.len() implies model_stuck_member(ms, f, i) by {
            assert(crate::topo::stuck_member(bg, p, i));
            let d = choose|d: Seq<char>| has_edge(bg, p[i].name@, d) && has_node(p, d);
            assert(model_has_edge(ms, f[i], d));
            let k = choose|k: int| 0 <= k < p.len() && p[k].name@ == d;
            assert(f[k] == d);
            assert(f.contains(d));
        }
        assert(model_stuck_family(ms, f));
        assert(model_contains_cycle(ms));
    }
    if model_contains_cycle(ms) {
        let f = choose|f: Seq<Seq<char>>| model_stuck_family(ms, f);
        let p = Seq::new(
            f.len(),
            |i: int| bg[choose|k: int| 0 <= k < bg.len() && bg[k].name@ == f[i]],
        );
        assert forall|i: int|
            0 <= i < p.len() implies has_node(bg, #[trigger] p[i].name@) && p[i].name@ == f[
            i] by {
            assert(model_has_name(ms, f[i]));
            assert(has_node(bg, f[i]));
            let k0 = choose|k: int| 0 <= k < bg.len() && bg[k].name@ == f[i];
            assert(p[i] == bg[k0]);
        }
        assert forall|i: int|
            0 <= i < p.len() implies crate::topo::stuck_member(bg, p, i) by {
            assert(model_stuck_member(ms, f, i));
            let d = choose|d: Seq<char>| model_has_edge(ms, f[i], d) && f.contains(d);
            assert(has_edge(bg, f[i], d));
            assert(has_edge(bg, p[i].name@, d));
            let j = choose|j: int| 0 <= j < f.len() && f[j] == d;
            assert(p[j].name@ == f[j]);
            assert(has_node(p, d));
            assert(has_edge(bg, p[i].name@, d) && has_node(p, d));
        }
        assert(crate::topo::is_stuck_family(bg, p));
        assert(contains_cycle(bg));
    }
}

/// Decode a serialized descriptor set and assemble a fresh registry from
/// every file it contains, in dependency order.
///
/// A set that decodes, declares no dependency cycle, and names every
/// mentioned file among its own files is owed success; the decode, cycle
/// and missing-dependency errors come exactly from the matching defect of
/// the decoded set.
pub fn registry_from_descriptor_set(bytes: &Vec<u8>) -> (r: Result<SchemaRegistry, ResolveError>)
    ensures
        match r {
            Ok(reg) => {
                &&& reg.wf()
                &&& decoded_file_set(bytes@) matches Some(ms) && (forall|i: int|
                    0 <= i < ms.len() ==> seq_contains_name(reg@, (#[trigger] ms[i]).name))
                    && (forall|k: int|
                    0 <= k < reg@.len() ==> unit_matches_model(#[trigger] reg@[k], ms))
                    && !model_contains_cycle(ms)
            },
            Err(e) => match e {
                ResolveError::Decode(_) => decoded_file_set(bytes@) is None,
                ResolveError::Cycle(nm) => decoded_file_set(bytes@) matches Some(ms)
                    && model_contains_cycle(ms) && model_has_name(ms, nm@),
                ResolveError::MissingDependency(d) => decoded_file_set(bytes@) matches Some(ms)
                    && model_mentions(ms, d@) && !model_has_name(ms, d@)
                    && !model_contains_cycle(ms),
                _ => false,
            },
        },
        (decoded_file_set(bytes@) matches Some(ms) && !model_contains_cycle(ms) && (forall|
            n: Seq<char>,
        | #[trigger] model_mentions(ms, n) ==> model_has_name(ms, n))) ==> r is Ok,
{
    let units = match decode_file_descriptor_set(bytes) {
        Ok(units) => units,
        Err(msg) => {
            return Err(ResolveError::Decode(msg));
        },
    };
    let ghost us = units@;
    let ghost ms = decoded_file_set(bytes@)->Some_0;
    proof {
        assert forall|i: int|
            0 <= i < us.len() implies (#[trigger] us[i]).name@ == ms[i].name
                && us[i].dependency.deep_view() == ms[i].dependencies && us[i].content@
                == ms[i].content by {
            assert(units@[i].name@ == ms[i].name && units@[i].dependency.deep_view()
                == ms[i].dependencies && units@[i].content@ == ms[i].content);
        }
        lemma_model_graph_equiv(us, ms);
        if forall|n: Seq<char>| #[trigger] model_mentions(ms, n) ==> model_has_name(ms, n) {
            assert forall|n: Seq<char>| #[trigger]
                mentions(batch_graph(us), n) implies has_node(batch_graph(us), n) by {
                assert(model_mentions(ms, n));
                assert(model_has_name(ms, n));
            }
        }
    }
    let r = assemble_registry(units);
    match r {
        Ok(reg) => {
            proof {
                assert forall|i: int|
                    0 <= i < ms.len() implies seq_contains_name(reg@, (#[trigger] ms[i]).name) by {
                    assert(us[i].name@ == ms[i].name);
                    assert(seq_contains_name(reg@, us[i].name@));
                }
                assert forall|k: int|
                    0 <= k < reg@.len() implies unit_matches_model(#[trigger] reg@[k], ms) by {
                    assert(us.contains(reg@[k]));
                    let i = choose|i: int| 0 <= i < us.len() && us[i] == reg@[k];
                    assert(reg@[k].name@ == ms[i].name && reg@[k].dependency.deep_view()
                        == ms[i].dependencies && reg@[k].content@ == ms[i].content);
                }
            }
            Ok(reg)
        },
        Err(e) => Err(e),
    }
}


/// One suspended batch: a partially drained sorter together with the
/// decoded units of its batch that are not yet registered.
struct Frame {
    iter: SimpleTopoSortIter,
    units: Vec<FileSchemaUnit>,
}

/// Which answer the assembler is waiting for.
pub enum Waiting {
    /// The service enumeration; a fetch failure here aborts the assembly.
    ServiceList,
    /// The files defining one service's symbol; a fetch failure here skips
    /// just that service, the one recoverable failure.
    SymbolFiles,
    /// One file requested by name; a fetch failure here aborts the assembly
    /// with the surfaced transport error.
    NamedFile,
}

/// What one step of assembly asks of the caller: either perform the given
/// request and hand the answer back through `on_event`, or take the
/// finished registry.
pub enum AssemblyStep {
    Continue(PoolAssembler, FetchAction),
    Complete(SchemaRegistry),
}

/// Every name in `before` is still registered in `after`.
pub open spec fn registry_grows(before: Seq<FileSchemaUnit>, after: Seq<FileSchemaUnit>) -> bool {
    forall|n: Seq<char>| #[trigger] seq_contains_name(before, n) ==> seq_contains_name(after, n)
}

/// The descriptor blobs carried by an answer: a `Descriptors` answer
/// carries its blobs, any other answer none.
pub open spec fn event_blobs(e: FetchEvent) -> Seq<Seq<u8>> {
    match e {
        FetchEvent::Descriptors(bs) => bs.deep_view(),
        _ => Seq::empty(),
    }
}

/// The service names carried by an answer.
pub open spec fn event_services(e: FetchEvent) -> Seq<Seq<char>> {
    match e {
        FetchEvent::Services(l) => l.deep_view(),
        _ => Seq::empty(),
    }
}

/// The answer's shape does not match the pending request.
pub open spec fn shape_mismatch(w: Waiting, e: FetchEvent) -> bool {
    ||| e is UnexpectedResponse
    ||| (w is ServiceList && e is Descriptors)
    ||| (!(w is ServiceList) && e is Services)
}

/// The answer reports a transport failure that aborts the assembly: one
/// during service enumeration, or one on a single file requested by name.
pub open spec fn aborting_fetch_failure(w: Waiting, e: FetchEvent) -> bool {
    e is FetchFailed && (w is ServiceList || w is NamedFile)
}

/// The answer reports the one recoverable failure: one service's files
/// could not be fetched, and that service alone is skipped.
pub open spec fn skipped_fetch_failure(w: Waiting, e: FetchEvent) -> bool {
    e is FetchFailed && w is SymbolFiles
}

/// The answer hands in one batch of descriptor blobs to register.
pub open spec fn batch_answer(w: Waiting, e: FetchEvent) -> bool {
    e is Descriptors && !(w is ServiceList)
}

/// Every blob parses as a file descriptor.
pub open spec fn all_blobs_decode(blobs: Seq<Seq<u8>>) -> bool {
    forall|i: int| 0 <= i < blobs.len() ==> decoded_file(#[trigger] blobs[i]) is Some
}

/// A service name that survives enumeration: not one of the reflection
/// protocol's own well-known service names.
pub open spec fn spec_keep_service(n: Seq<char>) -> bool {
    n != "grpc.reflection.v1alpha.ServerReflection"@ && n
        != "grpc.reflection.v1.ServerReflection"@
}

/// `u` was decoded (per `decoded_file`) from one of `blobs` and keeps that
/// blob as its content.
pub open spec fn unit_from_blobs(u: FileSchemaUnit, blobs: Seq<Seq<u8>>) -> bool {
    exists|b: Seq<u8>|
        #[trigger] blobs.contains(b) && (decoded_file(b) matches Some(m) && u.name@ == m.0
            && u.dependency.deep_view() == m.1 && u.content@ == b)
}

/// Every unit of `reg` was decoded from one of `blobs`.
pub open spec fn registry_from_blobs(reg: Seq<FileSchemaUnit>, blobs: Seq<Seq<u8>>) -> bool {
    forall|m: int| 0 <= m < reg.len() ==> unit_from_blobs(#[trigger] reg[m], blobs)
}

/// What one accepted step guarantees: the new state is well-formed; the
/// registry keeps every name it had; every registered unit was decoded from
/// one of the batches handed in so far; a file is requested by name only
/// while it is absent; a service request names a non-reflection service
/// from the enumeration or the stored queue; and a further enumeration is
/// never requested.
pub open spec fn step_guarantee(
    pre: PoolAssembler,
    event: FetchEvent,
    step: AssemblyStep,
) -> bool {
    let fed = pre.batches_view() + event_blobs(event);
    match step {
        AssemblyStep::Continue(a, act) => {
            &&& a.wf()
            &&& registry_grows(pre.registry_view(), a.registry_view())
            &&& a.batches_view() == fed
            &&& registry_from_blobs(a.registry_view(), fed)
            &&& match act {
                FetchAction::ListServices => false,
                FetchAction::FileContainingSymbol(s) => spec_keep_service(s@) && (
                pre.services_view().contains(s@) || event_services(event).contains(s@)),
                FetchAction::FileByFilename(n) => !seq_contains_name(a.registry_view(), n@),
            }
        },
        AssemblyStep::Complete(reg) => {
            &&& reg.wf()
            &&& registry_grows(pre.registry_view(), reg@)
            &&& registry_from_blobs(reg@, fed)
        },
    }
}

/// Which error one step may report, and when: a wrong-shaped answer is the
/// protocol violation; an aborting transport failure carries its message
/// through; a decode error arises only on a batch with an undecodable blob;
/// the graph errors arise only while registering a fully decoded batch.
pub open spec fn step_error(pre: PoolAssembler, event: FetchEvent, e: ResolveError) -> bool {
    match e {
        ResolveError::ProtocolViolation => shape_mismatch(pre.waiting_view(), event),
        ResolveError::Transport(m) => aborting_fetch_failure(pre.waiting_view(), event) && (
        event matches FetchEvent::FetchFailed(m0) && m@ == m0@),
        ResolveError::Decode(_) => batch_answer(pre.waiting_view(), event) && !all_blobs_decode(
            event_blobs(event),
        ),
        ResolveError::Cycle(_) => batch_answer(pre.waiting_view(), event) && all_blobs_decode(
            event_blobs(event),
        ),
        ResolveError::MissingDependency(_) => batch_answer(pre.waiting_view(), event)
            && all_blobs_decode(event_blobs(event)),
    }
}

proof fn lemma_concat_contains<A>(a: Seq<A>, b: Seq<A>, x: A)
    ensures
        (a + b).contains(x) <==> a.contains(x) || b.contains(x),
{
    if a.contains(x) {
        let i = choose|i: int| 0 <= i < a.len() && a[i] == x;
        assert((a + b)[i] == x);
    }
    if b.contains(x) {
        let i = choose|i: int| 0 <= i < b.len() && b[i] == x;
        assert((a + b)[a.len() + i] == x);
    }
    if (a + b).contains(x) {
        let i = choose|i: int| 0 <= i < (a + b).len() && (a + b)[i] == x;
        if i < a.len() {
            assert(a[i] == x);
        } else {
            assert(b[i - a.len()] == x);
        }
    }
}

/// Drives registry construction to completion from a reflection endpoint,
/// one request at a time, while the caller performs the transport.
///
/// The assembler enumerates services, discards the reflection protocol's
/// own well-known service names, fetches each remaining service's files,
/// registers every batch in dependency order, and requests missing
/// dependencies by file name, never requesting a file the registry already
/// holds. A failed service fetch is skipped; a transport failure during
/// enumeration or on a named file, a decode failure, a response of the
/// wrong shape, a dependency cycle and a still-missing dependency abort the
/// assembly with a typed error.
pub struct PoolAssembler {
    registry: SchemaRegistry,
    services: Vec<String>,
    frames: Vec<Frame>,
    waiting: Waiting,
    handed: Ghost<Seq<Seq<u8>>>,
}

spec fn frames_measure(fs: Seq<Frame>) -> nat
    decreases fs.len(),
{
    if fs.len() == 0 {
        0
    } else {
        frames_measure(fs.drop_last()) + fs.last().iter.unfinished() + 1
    }
}

impl PoolAssembler {
    /// The units registered so far.
    pub closed spec fn registry_view(&self) -> Seq<FileSchemaUnit> {
        self.registry@
    }

    /// The names of the services still to be fetched, next first.
    pub closed spec fn services_view(&self) -> Seq<Seq<char>> {
        self.services.deep_view()
    }

    /// Every descriptor blob handed in so far, across all batches.
    pub closed spec fn batches_view(&self) -> Seq<Seq<u8>> {
        self.handed@
    }

    /// Which answer the assembler is waiting for.
    pub closed spec fn waiting_view(&self) -> Waiting {
        self.waiting
    }

    pub closed spec fn wf(&self) -> bool {
        &&& self.registry.wf()
        &&& registry_from_blobs(self.registry@, self.handed@)
        &&& (forall|i: int| 0 <= i < self.frames@.len() ==> (#[trigger] self.frames@[i]).iter.wf())
        &&& (forall|i: int, j: int|
            0 <= i < self.frames@.len() && 0 <= j < self.frames@[i].units@.len()
                ==> unit_from_blobs(#[trigger] self.frames@[i].units@[j], self.handed@))
        &&& (forall|i: int|
            0 <= i < self.services@.len() ==> spec_keep_service(#[trigger] self.services@[i]@))
        &&& (!(self.waiting is NamedFile) ==> self.frames@.len() == 0)
    }

    /// Begin one resolution. The first request is the service enumeration.
    pub fn begin() -> (r: (PoolAssembler, FetchAction))
        ensures
            r.0.wf(),
            r.0.registry_view() == Seq::<FileSchemaUnit>::empty(),
            r.0.services_view() == Seq::<Seq<char>>::empty(),
            r.0.batches_view() == Seq::<Seq<u8>>::empty(),
            r.0.waiting_view() is ServiceList,
            r.1 is ListServices,
    {
        let a = PoolAssembler {
            registry: SchemaRegistry::new(),
            services: Vec::new(),
            frames: Vec::new(),
            waiting: Waiting::ServiceList,
            handed: Ghost(Seq::empty()),
        };
        (a, FetchAction::ListServices)
    }

    /// Feed the answer to the last request in and advance to the next
    /// request, or to completion.
    ///
    /// An accepted answer yields `step_guarantee`; an error is one that
    /// `step_error` allows for this state and answer. A wrong-shaped answer
    /// and an aborting transport failure always error; the one failed fetch
    /// that is skipped — a service's — always succeeds and leaves the
    /// registry exactly as it was; a batch with an undecodable blob is
    /// always rejected.
    pub fn on_event(self, event: FetchEvent) -> (r: Result<AssemblyStep, ResolveError>)
        requires
            self.wf(),
        ensures
            match r {
                Ok(step) => step_guarantee(self, event, step) && !shape_mismatch(
                    self.waiting_view(),
                    event,
                ) && !aborting_fetch_failure(self.waiting_view(), event),
                Err(e) => step_error(self, event, e),
            },
            shape_mismatch(self.waiting_view(), event) ==> r is Err,
            aborting_fetch_failure(self.waiting_view(), event) ==> r is Err,
            skipped_fetch_failure(self.waiting_view(), event) ==> match r {
                Ok(step) => match step {
                    AssemblyStep::Continue(a, act) => a.registry_view() == self.registry_view()
                        && act is FileContainingSymbol,
                    AssemblyStep::Complete(reg) => reg@ == self.registry_view(),
                },
                Err(_) => false,
            },
            batch_answer(self.waiting_view(), event) && !all_blobs_decode(event_blobs(event))
                ==> r is Err,
    {
        let ghost pre = self;
        let ghost ev = event;
        let PoolAssembler { registry, services, frames, waiting, handed } = self;
        match waiting {
            Waiting::ServiceList => match event {
                FetchEvent::Services(list) => {
                    let ghost listv = list@;
                    let ghost listdeep = list.deep_view();
                    let filtered = discard_reflection_services(list);
                    proof {
                        assert(event_services(ev) == listdeep);
                        assert(event_blobs(ev) =~= Seq::<Seq<u8>>::empty());
                        assert(handed@ + event_blobs(ev) =~= handed@);
                        assert forall|s: Seq<char>|
                            filtered.deep_view().contains(s) implies event_services(ev).contains(
                            s,
                        ) by {
                            let k = choose|k: int|
                                0 <= k < filtered.deep_view().len() && filtered.deep_view()[k]
                                    == s;
                            assert(filtered@[k]@ == s);
                            assert(str_seq_contains(listv, s));
                            let j = choose|j: int| 0 <= j < listv.len() && listv[j]@ == s;
                            assert(listdeep[j] == s);
                        }
                    }
                    advance(registry, filtered, frames, Ghost(handed@))
                },
                FetchEvent::FetchFailed(msg) => Err(ResolveError::Transport(msg)),
                FetchEvent::Descriptors(_) => Err(ResolveError::ProtocolViolation),
                FetchEvent::UnexpectedResponse => Err(ResolveError::ProtocolViolation),
            },
            Waiting::SymbolFiles => match event {
                FetchEvent::FetchFailed(_) => {
                    proof {
                        assert(event_blobs(ev) =~= Seq::<Seq<u8>>::empty());
                        assert(handed@ + event_blobs(ev) =~= handed@);
                        assert(frames@.len() == 0);
                    }
                    advance(registry, services, frames, Ghost(handed@))
                },
                FetchEvent::Descriptors(blobs) => {
                    let ghost bdeep = blobs.deep_view();
                    proof {
                        assert(event_blobs(ev) == bdeep);
                    }
                    handle_batch(registry, services, frames, Ghost(handed@), blobs)
                },
                FetchEvent::Services(_) => Err(ResolveError::ProtocolViolation),
                FetchEvent::UnexpectedResponse => Err(ResolveError::ProtocolViolation),
            },
            Waiting::NamedFile => match event {
                FetchEvent::FetchFailed(msg) => Err(ResolveError::Transport(msg)),
                FetchEvent::Descriptors(blobs) => {
                    let ghost bdeep = blobs.deep_view();
                    proof {
                        assert(event_blobs(ev) == bdeep);
                    }
                    handle_batch(registry, services, frames, Ghost(handed@), blobs)
                },
                FetchEvent::Services(_) => Err(ResolveError::ProtocolViolation),
                FetchEvent::UnexpectedResponse => Err(ResolveError::ProtocolViolation),
            },
        }
    }
}

/// Decode one batch of raw blobs into units, rejecting the batch on the
/// first undecodable blob.
fn decode_batch(blobs: &Vec<Vec<u8>>) -> (r: Result<Vec<FileSchemaUnit>, ResolveError>)
    ensures
        match r {
            Ok(units) => all_blobs_decode(blobs.deep_view()) && forall|j: int|
                0 <= j < units@.len() ==> unit_from_blobs(#[trigger] units@[j], blobs.deep_view()),
            Err(e) => e matches ResolveError::Decode(_) && !all_blobs_decode(blobs.deep_view()),
        },
{
    let mut units: Vec<FileSchemaUnit> = Vec::new();
    let mut i: usize = 0;
    while i < blobs.len()
        invariant
            0 <= i <= blobs@.len(),
            forall|k: int| 0 <= k < i ==> decoded_file(#[trigger] blobs.deep_view()[k]) is Some,
            forall|j: int|
                0 <= j < units@.len() ==> unit_from_blobs(#[trigger] units@[j], blobs.deep_view()),
        decreases blobs@.len() - i,
    {
        let ghost preunits = units@;
        match decode_file_descriptor(&blobs[i]) {
            Ok(unit) => {
                proof {
                    assert(blobs.deep_view()[i as int] =~= blobs@[i as int]@);
                    assert(blobs.deep_view().contains(blobs@[i as int]@));
                    assert(unit_from_blobs(unit, blobs.deep_view()));
                }
                units.push(unit);
                proof {
                    assert forall|j: int|
                        0 <= j < units@.len() implies unit_from_blobs(
                        #[trigger] units@[j],
                        blobs.deep_view(),
                    ) by {
                        if j < preunits.len() {
                            assert(units@[j] == preunits[j]);
                        }
                    }
                }
            },
            Err(msg) => {
                proof {
                    assert(blobs.deep_view()[i as int] =~= blobs@[i as int]@);
                    assert(decoded_file(blobs.deep_view()[i as int]) is None);
                }
                return Err(ResolveError::Decode(msg));
            },
        }
        i += 1;
    }
    Ok(units)
}

/// Stack one freshly decoded batch as the innermost frame and drain.
fn handle_batch(
    registry: SchemaRegistry,
    services: Vec<String>,
    frames: Vec<Frame>,
    Ghost(handed): Ghost<Seq<Seq<u8>>>,
    blobs: Vec<Vec<u8>>,
) -> (r: Result<AssemblyStep, ResolveError>)
    requires
        registry.wf(),
        registry_from_blobs(registry@, handed),
        forall|i: int| 0 <= i < frames@.len() ==> (#[trigger] frames@[i]).iter.wf(),
        forall|i: int, j: int|
            0 <= i < frames@.len() && 0 <= j < frames@[i].units@.len() ==> unit_from_blobs(
                #[trigger] frames@[i].units@[j],
                handed,
            ),
        forall|i: int| 0 <= i < services@.len() ==> spec_keep_service(#[trigger] services@[i]@),
    ensures
        match r {
            Ok(step) => match step {
                AssemblyStep::Continue(a, act) => a.wf() && a.batches_view() == handed
                    + blobs.deep_view() && registry_grows(registry@, a.registry_view())
                    && registry_from_blobs(a.registry_view(), handed + blobs.deep_view())
                    && match act {
                    FetchAction::ListServices => false,
                    FetchAction::FileContainingSymbol(s) => spec_keep_service(s@)
                        && services.deep_view().contains(s@),
                    FetchAction::FileByFilename(n) => !seq_contains_name(a.registry_view(), n@),
                },
                AssemblyStep::Complete(reg) => reg.wf() && registry_grows(registry@, reg@)
                    && registry_from_blobs(reg@, handed + blobs.deep_view()),
            },
            Err(e) => match e {
                ResolveError::Decode(_) => !all_blobs_decode(blobs.deep_view()),
                ResolveError::Cycle(_) => all_blobs_decode(blobs.deep_view()),
                ResolveError::MissingDependency(_) => all_blobs_decode(blobs.deep_view()),
                _ => false,
            },
        },
        !all_blobs_decode(blobs.deep_view()) ==> r is Err,
{
    let units = match decode_batch(&blobs) {
        Ok(units) => units,
        Err(e) => {
            return Err(e);
        },
    };
    let ghost handed2 = handed + blobs.deep_view();
    proof {
        assert forall|u: FileSchemaUnit, bl: Seq<Seq<u8>>|
            unit_from_blobs(u, bl) && (bl == handed || bl == blobs.deep_view()) implies
            unit_from_blobs(u, handed2) by {
            let b = choose|b: Seq<u8>|
                #[trigger] bl.contains(b) && (decoded_file(b) matches Some(m) && u.name@ == m.0
                    && u.dependency.deep_view() == m.1 && u.content@ == b);
            lemma_concat_contains(handed, blobs.deep_view(), b);
            assert(handed2.contains(b));
        }
    }
    let mut ts = SimpleTopoSort::new();
    let mut i: usize = 0;
    while i < units.len()
        invariant
            ts.wf(),
        decreases units@.len() - i,
    {
        ts.insert(units[i].name.clone(), clone_names(&units[i].dependency));
        i += 1;
    }
    let iter = SimpleTopoSortIter::new(ts);
    let mut frames = frames;
    let ghost preframes = frames@;
    frames.push(Frame { iter, units });
    proof {
        assert forall|i: int|
            0 <= i < frames@.len() implies (#[trigger] frames@[i]).iter.wf() by {
            if i < preframes.len() {
                assert(frames@[i] == preframes[i]);
            }
        }
        assert forall|i: int, j: int|
            0 <= i < frames@.len() && 0 <= j < frames@[i].units@.len() implies unit_from_blobs(
            #[trigger] frames@[i].units@[j],
            handed2,
        ) by {
            if i < preframes.len() {
                assert(frames@[i] == preframes[i]);
                assert(unit_from_blobs(preframes[i].units@[j], handed));
            } else {
                assert(unit_from_blobs(frames@[i].units@[j], blobs.deep_view()));
            }
        }
        assert forall|m: int|
            0 <= m < registry@.len() implies unit_from_blobs(#[trigger] registry@[m], handed2) by {
            assert(unit_from_blobs(registry@[m], handed));
        }
    }
    advance(registry, services, frames, Ghost(handed2))
}

/// Drain stacked frames until the next outside request is known: register
/// each drained name's unit from its batch, skip names the registry already
/// holds, request a missing dependency by name, and move to the next
/// service (or to completion) when all frames are spent. With no frames
/// stacked the registry is returned or carried over exactly as it was.
#[verifier::loop_isolation(false)]
fn advance(
    registry: SchemaRegistry,
    services: Vec<String>,
    frames: Vec<Frame>,
    Ghost(handed): Ghost<Seq<Seq<u8>>>,
) -> (r: Result<AssemblyStep, ResolveError>)
    requires
        registry.wf(),
        registry_from_blobs(registry@, handed),
        forall|i: int| 0 <= i < frames@.len() ==> (#[trigger] frames@[i]).iter.wf(),
        forall|i: int, j: int|
            0 <= i < frames@.len() && 0 <= j < frames@[i].units@.len() ==> unit_from_blobs(
                #[trigger] frames@[i].units@[j],
                handed,
            ),
        forall|i: int| 0 <= i < services@.len() ==> spec_keep_service(#[trigger] services@[i]@),
    ensures
        match r {
            Ok(step) => match step {
                AssemblyStep::Continue(a, act) => a.wf() && a.batches_view() == handed
                    && registry_grows(registry@, a.registry_view()) && registry_from_blobs(
                    a.registry_view(),
                    handed,
                ) && match act {
                    FetchAction::ListServices => false,
                    FetchAction::FileContainingSymbol(s) => spec_keep_service(s@)
                        && services.deep_view().contains(s@),
                    FetchAction::FileByFilename(n) => !seq_contains_name(a.registry_view(), n@),
                },
                AssemblyStep::Complete(reg) => reg.wf() && registry_grows(registry@, reg@)
                    && registry_from_blobs(reg@, handed),
            },
            Err(e) => e is Cycle || e is MissingDependency,
        },
        frames@.len() == 0 ==> match r {
            Ok(step) => match step {
                AssemblyStep::Continue(a, act) => a.registry_view() == registry@
                    && act is FileContainingSymbol,
                AssemblyStep::Complete(reg) => reg@ == registry@,
            },
            Err(_) => false,
        },
{
    let ghost reg0 = registry@;
    let ghost frames0 = frames@;
    let ghost services0 = services@;
    let ghost servicesdv = services.deep_view();
    let mut registry = registry;
    let mut services = services;
    let mut frames = frames;
    loop
        invariant
            registry.wf(),
            registry_grows(reg0, registry@),
            registry_from_blobs(registry@, handed),
            forall|i: int| 0 <= i < frames@.len() ==> (#[trigger] frames@[i]).iter.wf(),
            forall|i: int, j: int|
                0 <= i < frames@.len() && 0 <= j < frames@[i].units@.len() ==> unit_from_blobs(
                    #[trigger] frames@[i].units@[j],
                    handed,
                ),
            services@ == services0,
            frames0.len() == 0 ==> frames@.len() == 0 && registry@ == reg0,
        decreases frames_measure(frames@) + services@.len(),
    {
        if frames.is_empty() {
            if services.is_empty() {
                return Ok(AssemblyStep::Complete(registry));
            }
            let svc = services.remove(0);
            proof {
                assert(svc == services0[0]);
                assert(spec_keep_service(svc@));
                assert(servicesdv[0] == services0[0]@);
                assert(servicesdv.contains(svc@));
                assert forall|i: int|
                    0 <= i < services@.len() implies spec_keep_service(
                    #[trigger] services@[i]@,
                ) by {
                    assert(services@[i] == services0[i + 1]);
                }
            }
            let a = PoolAssembler {
                registry,
                services,
                frames,
                waiting: Waiting::SymbolFiles,
                handed: Ghost(handed),
            };
            return Ok(AssemblyStep::Continue(a, FetchAction::FileContainingSymbol(svc)));
        }
        let ghost prefames = frames@;
        let mut frame = frames.pop().unwrap();
        proof {
            assert(frame == prefames.last());
            assert(frames@ =~= prefames.drop_last());
            assert(frames_measure(prefames) == frames_measure(prefames.drop_last())
                + prefames.last().iter.unfinished() + 1);
        }
        match frame.iter.next() {
            None => {},
            Some(Err(cy)) => {
                return Err(ResolveError::Cycle(cy.node));
            },
            Some(Ok(name)) => {
                let found = find_unit(&frame.units, &name);
                match found {
                    Some(idx) => {
                        let ghost preunits = frame.units@;
                        let unit = frame.units.swap_remove(idx);
                        proof {
                            assert(unit == preunits[idx as int]);
                            assert(unit_from_blobs(unit, handed)) by {
                                assert(unit_from_blobs(prefames.last().units@[idx as int], handed));
                            }
                            assert forall|j: int|
                                0 <= j < frame.units@.len() implies unit_from_blobs(
                                #[trigger] frame.units@[j],
                                handed,
                            ) by {
                                assert(frame.units@[j] == preunits[j] || frame.units@[j]
                                    == preunits[preunits.len() - 1]);
                            }
                        }
                        let ghost preframes2 = frames@;
                        let ghost fu = frame.iter.unfinished();
                        frames.push(frame);
                        proof {
                            assert forall|i: int|
                                0 <= i < frames@.len() implies (#[trigger] frames@[i]).iter.wf()
                                by {
                                if i < preframes2.len() {
                                    assert(frames@[i] == preframes2[i]);
                                }
                            }
                            assert forall|i: int, j: int|
                                0 <= i < frames@.len() && 0 <= j < frames@[i].units@.len() implies
                                unit_from_blobs(#[trigger] frames@[i].units@[j], handed) by {
                                if i < preframes2.len() {
                                    assert(frames@[i] == preframes2[i]);
                                    assert(unit_from_blobs(preframes2[i].units@[j], handed));
                                }
                            }
                            assert(frames@.drop_last() =~= preframes2);
                            assert(frames_measure(frames@) == frames_measure(preframes2) + fu
                                + 1);
                        }
                        let ghost regpre = registry@;
                        let res = registry.insert(unit);
                        proof {
                            assert forall|n: Seq<char>|
                                seq_contains_name(regpre, n) implies seq_contains_name(
                                registry@,
                                n,
                            ) by {
                                let m = choose|m: int|
                                    0 <= m < regpre.len() && regpre[m].name@ == n;
                                assert(registry@[m].name@ == n);
                            }
                            assert forall|m: int|
                                0 <= m < registry@.len() implies unit_from_blobs(
                                #[trigger] registry@[m],
                                handed,
                            ) by {
                                if m < regpre.len() && registry@ != regpre {
                                    assert(registry@[m] == regpre[m]);
                                }
                            }
                        }
                        match res {
                            Ok(()) => {},
                            Err(e) => {
                                return Err(e);
                            },
                        }
                    },
                    None => {
                        let present = registry.contains_name(&name);
                        let ghost preframes2 = frames@;
                        let ghost fu = frame.iter.unfinished();
                        frames.push(frame);
                        proof {
                            assert forall|i: int|
                                0 <= i < frames@.len() implies (#[trigger] frames@[i]).iter.wf()
                                by {
                                if i < preframes2.len() {
                                    assert(frames@[i] == preframes2[i]);
                                }
                            }
                            assert forall|i: int, j: int|
                                0 <= i < frames@.len() && 0 <= j < frames@[i].units@.len() implies
                                unit_from_blobs(#[trigger] frames@[i].units@[j], handed) by {
                                if i < preframes2.len() {
                                    assert(frames@[i] == preframes2[i]);
                                    assert(unit_from_blobs(preframes2[i].units@[j], handed));
                                } else {
                                    assert(frames@[i] == frames@[frames@.len() - 1]);
                                    assert(unit_from_blobs(prefames.last().units@[j], handed));
                                }
                            }
                            assert(frames@.drop_last() =~= preframes2);
                            assert(frames_measure(frames@) == frames_measure(preframes2) + fu
                                + 1);
                        }
                        if !present {
                            let a = PoolAssembler {
                                registry,
                                services,
                                frames,
                                waiting: Waiting::NamedFile,
                                handed: Ghost(handed),
                            };
                            return Ok(
                                AssemblyStep::Continue(a, FetchAction::FileByFilename(name)),
                            );
                        }
                    },
                }
            },
        }
    }
}

/// The reflection protocol's own service names, a legacy and a current one,
/// describe the protocol itself rather than application schemas and are
/// discarded from the enumeration. What comes back is exactly the
/// non-reflection names, drawn from the list handed in.
fn discard_reflection_services(list: Vec<String>) -> (r: Vec<String>)
    ensures
        forall|i: int|
            0 <= i < r@.len() ==> spec_keep_service(#[trigger] r@[i]@) && str_seq_contains(
                list@,
                r@[i]@,
            ),
        forall|i: int|
            0 <= i < list@.len() && spec_keep_service(#[trigger] list@[i]@) ==> str_seq_contains(
                r@,
                list@[i]@,
            ),
{
    let legacy = "grpc.reflection.v1alpha.ServerReflection".to_owned();
    let current = "grpc.reflection.v1.ServerReflection".to_owned();
    let mut r: Vec<String> = Vec::new();
    let mut i: usize = 0;
    while i < list.len()
        invariant
            0 <= i <= list@.len(),
            legacy@ == "grpc.reflection.v1alpha.ServerReflection"@,
            current@ == "grpc.reflection.v1.ServerReflection"@,
            forall|k: int|
                0 <= k < r@.len() ==> spec_keep_service(#[trigger] r@[k]@) && str_seq_contains(
                    list@,
                    r@[k]@,
                ),
            forall|k: int|
                0 <= k < i && spec_keep_service(#[trigger] list@[k]@) ==> str_seq_contains(
                    r@,
                    list@[k]@,
                ),
        decreases list@.len() - i,
    {
        let keep = !(list[i] == legacy) && !(list[i] == current);
        let ghost pre = r@;
        if keep {
            r.push(list[i].clone());
        }
        proof {
            if keep {
                assert(r@[r@.len() - 1]@ == list@[i as int]@);
                assert(str_seq_contains(list@, r@[r@.len() - 1]@)) by {
                    assert(list@[i as int]@ == r@[r@.len() - 1]@);
                }
            }
            assert forall|k: int|
                0 <= k < i + 1 && spec_keep_service(#[trigger] list@[k]@) implies str_seq_contains(
                r@,
                list@[k]@,
            ) by {
                if k < i {
                    let m = choose|m: int| 0 <= m < pre.len() && pre[m]@ == list@[k]@;
                    assert(r@[m]@ == list@[k]@);
                } else {
                    assert(str_seq_contains(r@, list@[i as int]@));
                }
            }
        }
        i += 1;
    }
    r
}

} // verus!

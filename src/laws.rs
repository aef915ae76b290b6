//! What holds of every resolution, stated over the contracts of the provider.
use vstd::prelude::*;

use crate::container::Kind;
use crate::container::ElemView;
use crate::service_provider::{
    answer, dep_scope, deps_wiring, find_last, lookup, wiring, NodeView, ServiceProvider,
};
use crate::ServiceId;

verus! {

/// Two resolutions of a transient service, one after the other, yield two
/// distinct objects, the second one new.
pub proof fn lemma_transient_fresh<V>(
    a: ServiceProvider<V>,
    b: ServiceProvider<V>,
    c: ServiceProvider<V>,
    node: int,
    s: ServiceId,
    id1: usize,
    id2: usize,
)
    requires
        a.wf(),
        answer(a.registry(), node, s) matches Some(e) && e.lifetime == Kind::Transient,
        b.resolves_to(a, None, node, s, id1),
        c.resolves_to(b, None, node, s, id2),
    ensures
        id1 != id2,
        id1 < b.objects().len() <= id2,
{
}

/// Once a singleton has been resolved, every later resolution of it, from any
/// registry whose lookup finds the same registration, yields the same object.
pub proof fn lemma_singleton_shared<V>(
    a: ServiceProvider<V>,
    b: ServiceProvider<V>,
    c: ServiceProvider<V>,
    n1: int,
    n2: int,
    s: ServiceId,
    id1: usize,
    id2: usize,
)
    requires
        a.wf(),
        lookup(a.registry(), n1, s) == lookup(a.registry(), n2, s),
        answer(a.registry(), n1, s) matches Some(e) && e.lifetime == Kind::Singleton && e.source is None,
        b.resolves_to(a, None, n1, s, id1),
        c.resolves_to(b, None, n2, s, id2),
    ensures
        id1 == id2,
{
    let (n, i) = lookup(a.registry(), n1, s).unwrap();
    crate::service_provider::lemma_lookup_bounds(a.registry(), n1, s);
    a.lemma_view_at(n);
}

/// An instance resolves, from any registry whose lookup finds it, to the
/// object supplied when it was registered, unchanged.
pub proof fn lemma_instance_supplied<V>(
    a: ServiceProvider<V>,
    b: ServiceProvider<V>,
    node: int,
    s: ServiceId,
    id: usize,
)
    requires
        a.wf(),
        answer(a.registry(), node, s) matches Some(e) && e.lifetime == Kind::Instance && e.source is None,
        b.resolves_to(a, None, node, s, id),
    ensures
        id == answer(a.registry(), node, s).unwrap().object,
        id < a.objects().len(),
        b.objects()[id as int] == a.objects()[id as int],
{
    let (n, i) = lookup(a.registry(), node, s).unwrap();
    crate::service_provider::lemma_lookup_bounds(a.registry(), node, s);
    a.lemma_view_at(n);
    assert(a.elem_ok(a.nodes()[n].containers@[i]));
}

/// Within one scope a scoped service resolves twice to the same object.
pub proof fn lemma_scoped_shared_in_scope<V>(
    a: ServiceProvider<V>,
    b: ServiceProvider<V>,
    c: ServiceProvider<V>,
    k: usize,
    s: ServiceId,
    id1: usize,
    id2: usize,
)
    requires
        a.wf(),
        k < a.scopes().len(),
        answer(a.registry(), a.scopes()[k as int].provider as int, s) matches Some(e)
            && e.lifetime == Kind::Scoped && e.source is None,
        b.resolves_to(a, Some(k), a.scopes()[k as int].provider as int, s, id1),
        c.resolves_to(b, Some(k), b.scopes()[k as int].provider as int, s, id2),
    ensures
        id1 == id2,
{
    let ms_a = a.scopes()[k as int].memos@.map_values(|m: crate::service_provider::ScopedContainerElem| m.service);
    let ms_b = b.scopes()[k as int].memos@.map_values(|m: crate::service_provider::ScopedContainerElem| m.service);
    crate::service_provider::lemma_find_first_bounds(ms_a, s);
    crate::service_provider::lemma_find_first_bounds(ms_b, s);
    if a.scope_memo(k as int, s) is Some {
        let f = crate::service_provider::find_first(ms_a, s);
        assert(ms_b[f] == s);
        assert(ms_b.contains(s));
        // the first `s` in scope `k` is the one already there
        if crate::service_provider::find_first(ms_b, s) < f {
            let g = crate::service_provider::find_first(ms_b, s);
            assert(ms_a[g] == ms_b[g]);
            assert(ms_a.contains(s));
            lemma_first_is_least(ms_a, s, g);
        } else if crate::service_provider::find_first(ms_b, s) > f {
            lemma_first_is_least(ms_b, s, f);
        }
    }
}

/// No `s` comes before the first one.
pub proof fn lemma_first_is_least(seq: Seq<ServiceId>, s: ServiceId, j: int)
    requires
        0 <= j < seq.len(),
        seq[j] == s,
    ensures
        0 <= crate::service_provider::find_first(seq, s) <= j,
    decreases seq.len(),
{
    if seq[0] != s {
        assert(seq.drop_first()[j - 1] == s);
        lemma_first_is_least(seq.drop_first(), s, j - 1);
    }
}

/// Two scopes each build their own object of a scoped service: resolving it in
/// a scope that has built nothing yields a new object, distinct from the one
/// another scope built.
pub proof fn lemma_scoped_distinct_across_scopes<V>(
    a: ServiceProvider<V>,
    b: ServiceProvider<V>,
    c: ServiceProvider<V>,
    k1: usize,
    k2: usize,
    s: ServiceId,
    id1: usize,
    id2: usize,
)
    requires
        a.wf(),
        k1 < a.scopes().len(),
        k2 < a.scopes().len(),
        k1 != k2,
        a.scope_memo(k2 as int, s) is None,
        answer(a.registry(), a.scopes()[k2 as int].provider as int, s) matches Some(e)
            && e.lifetime == Kind::Scoped && e.source is None,
        b.resolves_to(a, Some(k1), a.scopes()[k1 as int].provider as int, s, id1),
        c.resolves_to(b, Some(k2), b.scopes()[k2 as int].provider as int, s, id2),
    ensures
        id1 != id2,
{
    assert(b.scopes()[k2 as int] == a.scopes()[k2 as int]);
}

/// A registry reaches `anc` through its parents without passing one that
/// registers `s`.
pub open spec fn reaches_without(reg: Seq<NodeView>, node: int, anc: int, s: ServiceId) -> bool
    decreases node,
{
    if node == anc {
        true
    } else if 0 <= node < reg.len() && find_last(reg[node].elems, s) < 0 {
        match reg[node].parent {
            Some(p) => p < node && reaches_without(reg, p as int, anc, s),
            None => false,
        }
    } else {
        false
    }
}

/// Forking hides nothing: from a fork, or a fork of a fork, that does not
/// register `s` itself, `s` is looked up, and answered, as from the registry
/// it was forked from.
pub proof fn lemma_fork_transparent(reg: Seq<NodeView>, node: int, anc: int, s: ServiceId)
    requires
        reaches_without(reg, node, anc, s),
    ensures
        lookup(reg, node, s) == lookup(reg, anc, s),
        answer(reg, node, s) == answer(reg, anc, s),
    decreases node,
{
    if node != anc {
        let p = reg[node].parent.unwrap();
        lemma_fork_transparent(reg, p as int, anc, s);
    }
}

/// Wiring reads a registry only through what its lookups answer: two
/// registries that answer alike are wired alike.
pub proof fn lemma_wiring_by_answers(
    reg1: Seq<NodeView>,
    n1: int,
    reg2: Seq<NodeView>,
    n2: int,
    sc: Option<Seq<ServiceId>>,
    s: ServiceId,
    path: Seq<ServiceId>,
    bound: nat,
)
    requires
        forall|t: ServiceId| #[trigger] answer(reg1, n1, t) == answer(reg2, n2, t),
    ensures
        wiring(reg1, sc, n1, s, path, bound) == wiring(reg2, sc, n2, s, path, bound),
    decreases bound - path.len(), 0nat,
{
    assert(answer(reg1, n1, s) == answer(reg2, n2, s));
    if !path.contains(s) {
        if let Some(e) = answer(reg1, n1, s) {
            if path.len() < bound {
                lemma_deps_wiring_by_answers(
                    reg1,
                    n1,
                    reg2,
                    n2,
                    dep_scope(e.lifetime, sc),
                    e.deps,
                    0,
                    path.push(s),
                    bound,
                );
            }
        }
    }
}

/// The dependency lists of two registries that answer alike are wired alike.
pub proof fn lemma_deps_wiring_by_answers(
    reg1: Seq<NodeView>,
    n1: int,
    reg2: Seq<NodeView>,
    n2: int,
    sc: Option<Seq<ServiceId>>,
    deps: Seq<ServiceId>,
    i: int,
    path: Seq<ServiceId>,
    bound: nat,
)
    requires
        forall|t: ServiceId| #[trigger] answer(reg1, n1, t) == answer(reg2, n2, t),
    ensures
        deps_wiring(reg1, sc, n1, deps, i, path, bound) == deps_wiring(reg2, sc, n2, deps, i, path, bound),
    decreases bound - path.len(), deps.len() - i,
{
    if 0 <= i < deps.len() {
        lemma_wiring_by_answers(reg1, n1, reg2, n2, sc, deps[i], path, bound);
        lemma_deps_wiring_by_answers(reg1, n1, reg2, n2, sc, deps, i + 1, path, bound);
    }
}

/// The newest registration for `t` among `elems`, if any.
pub open spec fn newest(elems: Seq<ElemView>, t: ServiceId) -> Option<ElemView> {
    if find_last(elems, t) < 0 {
        None
    } else {
        Some(elems[find_last(elems, t)])
    }
}

/// `elems` with registrations `p` and `p + 1` in the other order.
pub open spec fn swapped(elems: Seq<ElemView>, p: int) -> Seq<ElemView> {
    elems.update(p, elems[p + 1]).update(p + 1, elems[p])
}

/// Two neighbouring registrations of different services can trade places
/// without changing which registration is newest for any service.
pub proof fn lemma_newest_swap(elems: Seq<ElemView>, p: int, t: ServiceId)
    requires
        0 <= p,
        p + 1 < elems.len(),
        elems[p].service != elems[p + 1].service,
    ensures
        newest(swapped(elems, p), t) == newest(elems, t),
        find_last(swapped(elems, p), t) < 0 <==> find_last(elems, t) < 0,
    decreases elems.len(),
{
    let e2 = swapped(elems, p);
    crate::service_provider::lemma_find_last_bounds(elems, t);
    crate::service_provider::lemma_find_last_bounds(e2, t);
    if p + 1 < elems.len() - 1 {
        assert(e2.drop_last() =~= swapped(elems.drop_last(), p));
        if elems.last().service != t {
            lemma_newest_swap(elems.drop_last(), p, t);
            crate::service_provider::lemma_find_last_bounds(elems.drop_last(), t);
            crate::service_provider::lemma_find_last_bounds(e2.drop_last(), t);
        }
    } else {
        let d1 = elems.drop_last();
        let d2 = e2.drop_last();
        crate::service_provider::lemma_find_last_bounds(d1, t);
        crate::service_provider::lemma_find_last_bounds(d2, t);
        assert(d1.drop_last() =~= d2.drop_last());
        crate::service_provider::lemma_find_last_bounds(d1.drop_last(), t);
    }
}

/// Registration order does not matter: trading the places of two
/// neighbouring registrations of different services in one registry changes
/// no answer of any registry, and so no wiring.
pub proof fn lemma_order_irrelevant(
    reg: Seq<NodeView>,
    m: int,
    p: int,
    node: int,
    t: ServiceId,
)
    requires
        0 <= m < reg.len(),
        0 <= p,
        p + 1 < reg[m].elems.len(),
        reg[m].elems[p].service != reg[m].elems[p + 1].service,
    ensures
        answer(reg.update(m, NodeView { parent: reg[m].parent, elems: swapped(reg[m].elems, p) }), node, t)
            == answer(reg, node, t),
    decreases node,
{
    let reg2 = reg.update(m, NodeView { parent: reg[m].parent, elems: swapped(reg[m].elems, p) });
    if 0 <= node < reg.len() {
        crate::service_provider::lemma_find_last_bounds(reg[node].elems, t);
        crate::service_provider::lemma_find_last_bounds(reg2[node].elems, t);
        if node == m {
            lemma_newest_swap(reg[m].elems, p, t);
        }
        if find_last(reg[node].elems, t) < 0 {
            if let Some(q) = reg[node].parent {
                if q < node {
                    lemma_order_irrelevant(reg, m, p, q as int, t);
                }
            }
        }
    }
}

/// A singleton registered in registry `anc` is one object for every fork
/// below it that does not register the service itself, whichever fork
/// resolves it first.
pub proof fn lemma_singleton_shared_by_forks<V>(
    a: ServiceProvider<V>,
    b: ServiceProvider<V>,
    c: ServiceProvider<V>,
    anc: int,
    f1: int,
    f2: int,
    s: ServiceId,
    id1: usize,
    id2: usize,
)
    requires
        a.wf(),
        reaches_without(a.registry(), f1, anc, s),
        reaches_without(a.registry(), f2, anc, s),
        answer(a.registry(), anc, s) matches Some(e) && e.lifetime == Kind::Singleton && e.source is None,
        b.resolves_to(a, None, f1, s, id1),
        c.resolves_to(b, None, f2, s, id2),
    ensures
        id1 == id2,
{
    lemma_fork_transparent(a.registry(), f1, anc, s);
    lemma_fork_transparent(a.registry(), f2, anc, s);
    lemma_singleton_shared(a, b, c, f1, f2, s, id1, id2);
}

/// Registration order does not matter to wiring: trading the places of two
/// neighbouring registrations of different services leaves every wiring
/// fault, and the absence of one, as it was.
pub proof fn lemma_order_irrelevant_wiring(
    reg: Seq<NodeView>,
    m: int,
    p: int,
    sc: Option<Seq<ServiceId>>,
    node: int,
    s: ServiceId,
    bound: nat,
)
    requires
        0 <= m < reg.len(),
        0 <= p,
        p + 1 < reg[m].elems.len(),
        reg[m].elems[p].service != reg[m].elems[p + 1].service,
    ensures
        wiring(
            reg.update(m, NodeView { parent: reg[m].parent, elems: swapped(reg[m].elems, p) }),
            sc,
            node,
            s,
            Seq::empty(),
            bound,
        ) == wiring(reg, sc, node, s, Seq::empty(), bound),
{
    let reg2 = reg.update(m, NodeView { parent: reg[m].parent, elems: swapped(reg[m].elems, p) });
    assert forall|t: ServiceId| #[trigger] answer(reg2, node, t) == answer(reg, node, t) by {
        lemma_order_irrelevant(reg, m, p, node, t);
    }
    lemma_wiring_by_answers(reg2, node, reg, node, sc, s, Seq::empty(), bound);
}

/// Two transients that depend on one singleton, resolved one after the
/// other, hold the same object: the one the singleton keeps.
pub proof fn lemma_singleton_dependency_shared<V>(
    a: ServiceProvider<V>,
    b: ServiceProvider<V>,
    c: ServiceProvider<V>,
    node: int,
    d1: ServiceId,
    d2: ServiceId,
    j1: int,
    j2: int,
    s: ServiceId,
    id1: usize,
    id2: usize,
)
    requires
        a.wf(),
        answer(a.registry(), node, d1) matches Some(e) && e.lifetime == Kind::Transient && e.source is None
            && 0 <= j1 < e.deps.len() && e.deps[j1] == s,
        answer(a.registry(), node, d2) matches Some(e) && e.lifetime == Kind::Transient && e.source is None
            && 0 <= j2 < e.deps.len() && e.deps[j2] == s,
        answer(a.registry(), node, s) matches Some(e) && e.lifetime == Kind::Singleton && e.source is None,
        b.resolves_to(a, None, node, d1, id1),
        c.resolves_to(b, None, node, d2, id2),
    ensures
        c.objects()[id1 as int].deps@[j1] == c.objects()[id2 as int].deps@[j2],
{
    let regs = a.registrations();
    let e1 = answer(a.registry(), node, d1).unwrap();
    let e2 = answer(a.registry(), node, d2).unwrap();
    ServiceProvider::<V>::lemma_deps_yield_at(b, a, None, node, id1, e1.deps, 0, j1, seq![d1], regs);
    ServiceProvider::<V>::lemma_deps_yield_at(c, b, None, node, id2, e2.deps, 0, j2, seq![d2], regs);
    assert(Seq::<ServiceId>::empty().push(d1) =~= seq![d1]);
    assert(Seq::<ServiceId>::empty().push(d2) =~= seq![d2]);
    let (n, i) = lookup(a.registry(), node, s).unwrap();
    crate::service_provider::lemma_lookup_bounds(a.registry(), node, s);
    b.lemma_view_at(n);
    assert(c.objects()[id1 as int] == b.objects()[id1 as int]);
}

/// A transient that depends on a registered instance holds that instance:
/// the object supplied when it was registered.
pub proof fn lemma_instance_dependency<V>(
    a: ServiceProvider<V>,
    b: ServiceProvider<V>,
    node: int,
    d: ServiceId,
    j: int,
    s: ServiceId,
    id: usize,
)
    requires
        a.wf(),
        answer(a.registry(), node, d) matches Some(e) && e.lifetime == Kind::Transient && e.source is None
            && 0 <= j < e.deps.len() && e.deps[j] == s,
        answer(a.registry(), node, s) matches Some(e) && e.lifetime == Kind::Instance && e.source is None,
        b.resolves_to(a, None, node, d, id),
    ensures
        b.objects()[id as int].deps@[j] == answer(a.registry(), node, s).unwrap().object,
{
    let e = answer(a.registry(), node, d).unwrap();
    ServiceProvider::<V>::lemma_deps_yield_at(b, a, None, node, id, e.deps, 0, j, seq![d], a.registrations());
    assert(Seq::<ServiceId>::empty().push(d) =~= seq![d]);
}

/// In a scope, a transient that depends on a value the scope is supplied
/// holds that value: the object made of it when the scope was opened.
pub proof fn lemma_scoped_instance_dependency<V>(
    a: ServiceProvider<V>,
    b: ServiceProvider<V>,
    k: usize,
    d: ServiceId,
    j: int,
    s: ServiceId,
    id: usize,
)
    requires
        a.wf(),
        k < a.scopes().len(),
        answer(a.registry(), a.scopes()[k as int].provider as int, d) matches Some(e)
            && e.lifetime == Kind::Transient && e.source is None && 0 <= j < e.deps.len() && e.deps[j] == s,
        answer(a.registry(), a.scopes()[k as int].provider as int, s) matches Some(e)
            && e.lifetime == Kind::ScopedInstance && e.source is None,
        b.resolves_to(a, Some(k), a.scopes()[k as int].provider as int, d, id),
    ensures
        Some(b.objects()[id as int].deps@[j]) == a.scope_instance(k as int, s),
{
    let node = a.scopes()[k as int].provider as int;
    let e = answer(a.registry(), node, d).unwrap();
    ServiceProvider::<V>::lemma_deps_yield_at(b, a, Some(k), node, id, e.deps, 0, j, seq![d], a.registrations());
    assert(Seq::<ServiceId>::empty().push(d) =~= seq![d]);
    assert(b.scopes()[k as int].instances == a.scopes()[k as int].instances);
}

/// Resolving a service whose registration has its object ready (an
/// instance, a value the scope was supplied, an object a singleton or the
/// scope already keeps) builds nothing: the objects stay as they were.
pub proof fn lemma_ready_builds_nothing<V>(
    a: ServiceProvider<V>,
    b: ServiceProvider<V>,
    scope: Option<usize>,
    node: int,
    s: ServiceId,
    id: usize,
)
    requires
        a.wf(),
        lookup(a.registry(), node, s) matches Some((n, i)) && a.keeps_ready(scope, n, i, s)
            && a.registry()[n].elems[i].source is None,
        b.resolves_to(a, scope, node, s, id),
    ensures
        b.objects() == a.objects(),
{
}

} // verus!

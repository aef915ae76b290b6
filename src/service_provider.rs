//! The provider: a tree of registries (a root and its forks), the objects
//! built so far, and the scopes opened on it.
use vstd::prelude::*;

use crate::container::{
    Lifetime, Singleton, ContainerElem, AnyContainer, Container, Init, SingletonContainer, Registration, ConvertContainer, ElemView, InstanceContainer, Kind,
    ScopedContainer, Slot, TransientContainer,
};
use crate::ServiceId;

verus! {

/// An object built or supplied by a provider. Its index among the provider's
/// objects is its identity.
pub struct Object<V> {
    /// The service it was built for.
    pub service: ServiceId,
    /// The objects it was built from, one per entry of its dependency list.
    pub deps: Vec<usize>,
    /// The value supplied for it, or made for it by `Dependency::init`.
    pub value: V,
}

/// The construction of services: what the value of a new object is, made of
/// the objects its dependencies resolved to. The value type of a provider
/// implements it for every service it builds.
pub trait Dependency: Sized {
    /// The value of a new object of `service` made of `deps`, in order: the
    /// positions in `objects` of what its dependencies resolved to. For a
    /// converting registration, `service` is the one converted to and `deps`
    /// holds the one object converted.
    fn init(service: ServiceId, deps: &Vec<usize>, objects: &Vec<Object<Self>>) -> Self;
}

/// Services whose values carry nothing: the object graph is all there is.
impl Dependency for () {
    fn init(service: ServiceId, deps: &Vec<usize>, objects: &Vec<Object<()>>) -> Self {
    }
}

/// One registry of the provider tree: its own registrations, newest last, and
/// the registry it was forked from.
pub struct Node {
    pub parent: Option<usize>,
    pub containers: Vec<Registration>,
}

/// What lookup and wiring read of a registry.
pub struct NodeView {
    pub parent: Option<nat>,
    pub elems: Seq<ElemView>,
}

/// A value supplied for a scope when it was opened.
pub struct ScopedInstanceContainer {
    pub service: ServiceId,
    pub object: usize,
}

/// The write-once cell in which a scope keeps the object it built for a
/// scoped service.
pub struct ScopedContainerElem {
    pub service: ServiceId,
    pub lifetime: Singleton,
}

impl ContainerElem for ScopedInstanceContainer {
    open spec fn answers(&self) -> ServiceId {
        self.service
    }

    fn service_id(&self) -> (r: ServiceId) {
        self.service
    }
}

impl ContainerElem for ScopedContainerElem {
    open spec fn answers(&self) -> ServiceId {
        self.service
    }

    fn service_id(&self) -> (r: ServiceId) {
        self.service
    }
}

/// A scope opened on one registry: its supplied values, and what it has built.
pub struct Scope {
    pub provider: usize,
    pub instances: Vec<ScopedInstanceContainer>,
    pub memos: Vec<ScopedContainerElem>,
}

/// Why a service cannot be resolved.
#[derive(PartialEq, Eq, Structural, Clone, Copy, Debug)]
pub enum ResolveError {
    /// No registration answers for this service.
    Missing(ServiceId),
    /// This service depends, through its dependencies, on itself.
    Cycle(ServiceId),
    /// A scoped service was asked for outside a scope.
    OutOfScope(ServiceId),
}

/// Why a scope cannot be opened.
#[derive(PartialEq, Eq, Structural, Clone, Copy, Debug)]
pub enum ScopeError {
    /// The number of values supplied differs from the number declared.
    Arity { declared: usize, supplied: usize },
}

/// A provider of services: registries that form a tree by forking, the objects
/// built so far, and the scopes opened.
pub struct ServiceProvider<V> {
    nodes: Vec<Node>,
    objects: Vec<Object<V>>,
    scopes: Vec<Scope>,
    registrations: usize,
}

/// The root registry of every provider.
pub const ROOT: usize = 0;

/// The index of the newest registration for `s` in `elems`, or -1.
pub open spec fn find_last(elems: Seq<ElemView>, s: ServiceId) -> int
    decreases elems.len(),
{
    if elems.len() == 0 {
        -1
    } else if elems.last().service == s {
        elems.len() - 1
    } else {
        find_last(elems.drop_last(), s)
    }
}

/// The registration that answers for `s` in registry `node`: its own newest
/// one, else the one its parent finds.
pub open spec fn lookup(reg: Seq<NodeView>, node: int, s: ServiceId) -> Option<(int, int)>
    decreases node,
{
    if node < 0 || node >= reg.len() {
        None
    } else if find_last(reg[node].elems, s) >= 0 {
        Some((node, find_last(reg[node].elems, s)))
    } else {
        match reg[node].parent {
            Some(p) => if p < node {
                lookup(reg, p as int, s)
            } else {
                None
            },
            None => None,
        }
    }
}

/// The registration that answers for `s` in registry `node`, if any.
pub open spec fn answer(reg: Seq<NodeView>, node: int, s: ServiceId) -> Option<ElemView> {
    match lookup(reg, node, s) {
        Some((n, i)) => Some(reg[n].elems[i]),
        None => None,
    }
}

/// The first wiring fault met when resolving `s` from registry `node` with
/// `path` as the services being built around it, depth first; `None` when
/// there is none. `sc` lists the services that the scope supplies, if the
/// resolution runs in a scope. `bound`, the number of registrations made,
/// bounds the depth of the search; a provider never reaches it, since a
/// path of distinct registered services is shorter (`lemma_path_fits`).
pub open spec fn wiring(
    reg: Seq<NodeView>,
    sc: Option<Seq<ServiceId>>,
    node: int,
    s: ServiceId,
    path: Seq<ServiceId>,
    bound: nat,
) -> Option<ResolveError>
    decreases bound - path.len(), 0nat,
{
    if path.contains(s) {
        Some(ResolveError::Cycle(s))
    } else {
        match answer(reg, node, s) {
            None => Some(ResolveError::Missing(s)),
            Some(e) => {
                match e.lifetime {
                    Kind::Instance => None,
                    Kind::ScopedInstance => match sc {
                        None => Some(ResolveError::OutOfScope(s)),
                        Some(l) => if l.contains(s) {
                            None
                        } else {
                            Some(ResolveError::Missing(s))
                        },
                    },
                    _ => if e.lifetime == Kind::Scoped && sc is None {
                        Some(ResolveError::OutOfScope(s))
                    } else if path.len() >= bound {
                        Some(ResolveError::Cycle(s))
                    } else {
                        deps_wiring(reg, dep_scope(e.lifetime, sc), node, e.deps, 0, path.push(s), bound)
                    },
                }
            },
        }
    }
}

/// What the dependencies of a registration of lifetime `kind` are resolved
/// in: a singleton is shared beyond any scope, so its dependencies are
/// resolved outside one; the others in the scope of the resolution.
pub open spec fn dep_scope<T>(kind: Kind, scope: Option<T>) -> Option<T> {
    if kind == Kind::Singleton {
        None
    } else {
        scope
    }
}

/// The first wiring fault among `deps[i..]`, each resolved with `path`.
pub open spec fn deps_wiring(
    reg: Seq<NodeView>,
    sc: Option<Seq<ServiceId>>,
    node: int,
    deps: Seq<ServiceId>,
    i: int,
    path: Seq<ServiceId>,
    bound: nat,
) -> Option<ResolveError>
    decreases bound - path.len(), deps.len() - i,
{
    if i < 0 || i >= deps.len() {
        None
    } else {
        match wiring(reg, sc, node, deps[i], path, bound) {
            Some(err) => Some(err),
            None => deps_wiring(reg, sc, node, deps, i + 1, path, bound),
        }
    }
}

/// The services some registry of `reg` registers.
pub open spec fn services_of(reg: Seq<NodeView>) -> Set<ServiceId> {
    Set::new(
        |t: ServiceId|
            exists|n: int, i: int|
                0 <= n < reg.len() && 0 <= i < reg[n].elems.len() && #[trigger] reg[n].elems[i].service == t,
    )
}

/// A service that some lookup answers for is registered.
pub proof fn lemma_answer_registered(reg: Seq<NodeView>, node: int, t: ServiceId)
    requires
        answer(reg, node, t) is Some,
    ensures
        services_of(reg).contains(t),
{
    lemma_lookup_bounds(reg, node, t);
    let (n, i) = lookup(reg, node, t).unwrap();
    assert(reg[n].elems[i].service == t);
}

/// A path of distinct registered services, with one more registered service
/// off it, is shorter than any bound on the number of registered services.
pub proof fn lemma_path_fits(reg: Seq<NodeView>, path: Seq<ServiceId>, s: ServiceId, bound: nat)
    requires
        services_of(reg).finite(),
        services_of(reg).len() <= bound,
        path.no_duplicates(),
        forall|j: int| 0 <= j < path.len() ==> services_of(reg).contains(#[trigger] path[j]),
        services_of(reg).contains(s),
        !path.contains(s),
    ensures
        path.len() < bound,
{
    let q = path.push(s);
    assert forall|i: int, j: int| 0 <= i < q.len() && 0 <= j < q.len() && i != j implies q[i] != q[j] by {
        if i == path.len() {
            assert(q[j] == path[j]);
        } else if j == path.len() {
            assert(q[i] == path[i]);
        } else {
            assert(q[i] == path[i] && q[j] == path[j]);
        }
    }
    assert(q.no_duplicates());
    q.unique_seq_to_set();
    assert forall|t: ServiceId| q.to_set().contains(t) implies services_of(reg).contains(t) by {
        let j = choose|j: int| 0 <= j < q.len() && q[j] == t;
        if j < path.len() {
            assert(q[j] == path[j]);
        }
    }
    vstd::set_lib::lemma_len_subset(q.to_set(), services_of(reg));
}

/// `reg` with `ev` registered, as newest, in registry `node`.
pub open spec fn with_elem(reg: Seq<NodeView>, node: int, ev: ElemView) -> Seq<NodeView> {
    reg.update(node, NodeView { parent: reg[node].parent, elems: reg[node].elems.push(ev) })
}

/// The index of the first `s` in `seq`, or -1.
pub open spec fn find_first(seq: Seq<ServiceId>, s: ServiceId) -> int
    decreases seq.len(),
{
    if seq.len() == 0 {
        -1
    } else if seq[0] == s {
        0
    } else if find_first(seq.drop_first(), s) < 0 {
        -1
    } else {
        find_first(seq.drop_first(), s) + 1
    }
}

pub proof fn lemma_find_last_bounds(elems: Seq<ElemView>, s: ServiceId)
    ensures
        -1 <= find_last(elems, s) < elems.len(),
        find_last(elems, s) >= 0 ==> elems[find_last(elems, s)].service == s,
    decreases elems.len(),
{
    if elems.len() > 0 && elems.last().service != s {
        lemma_find_last_bounds(elems.drop_last(), s);
    }
}

/// The registration that lookup finds exists and answers for `s`.
pub proof fn lemma_lookup_bounds(reg: Seq<NodeView>, node: int, s: ServiceId)
    ensures
        lookup(reg, node, s) matches Some((n, i)) ==> 0 <= n < reg.len() && 0 <= i < reg[n].elems.len()
            && reg[n].elems[i].service == s,
    decreases node,
{
    if 0 <= node < reg.len() {
        lemma_find_last_bounds(reg[node].elems, s);
        if find_last(reg[node].elems, s) < 0 {
            if let Some(p) = reg[node].parent {
                if p < node {
                    lemma_lookup_bounds(reg, p as int, s);
                }
            }
        }
    }
}

pub proof fn lemma_find_first_bounds(seq: Seq<ServiceId>, s: ServiceId)
    ensures
        -1 <= find_first(seq, s) < seq.len(),
        find_first(seq, s) >= 0 ==> seq[find_first(seq, s)] == s,
        find_first(seq, s) < 0 ==> !seq.contains(s),
        seq.contains(s) ==> find_first(seq, s) >= 0,
    decreases seq.len(),
{
    if seq.len() > 0 && seq[0] != s {
        lemma_find_first_bounds(seq.drop_first(), s);
        if seq.contains(s) {
            let j = choose|j: int| 0 <= j < seq.len() && seq[j] == s;
            assert(seq.drop_first()[j - 1] == s);
        }
    }
}

/// After a push of `s`, the first `s` is the old first one, if there was one,
/// else the new last one.
pub proof fn lemma_find_first_push(seq: Seq<ServiceId>, s: ServiceId)
    ensures
        find_first(seq, s) >= 0 ==> find_first(seq.push(s), s) == find_first(seq, s),
        find_first(seq, s) < 0 ==> find_first(seq.push(s), s) == seq.len(),
    decreases seq.len(),
{
    if seq.len() > 0 {
        assert(seq.push(s).drop_first() =~= seq.drop_first().push(s));
        if seq[0] != s {
            lemma_find_first_push(seq.drop_first(), s);
        }
    } else {
        assert(seq.push(s)[0] == s);
    }
}

/// The services declared, newest first, as supplied to each scope among `elems`.
pub open spec fn scoped_decls(elems: Seq<ElemView>) -> Seq<ServiceId>
    decreases elems.len(),
{
    if elems.len() == 0 {
        Seq::empty()
    } else if elems.last().lifetime == Kind::ScopedInstance {
        seq![elems.last().service] + scoped_decls(elems.drop_last())
    } else {
        scoped_decls(elems.drop_last())
    }
}

/// The values a scope opened on registry `node` is supplied: those that
/// `node` declares, newest first, then those its parent's scopes would be.
pub open spec fn declared_instances(reg: Seq<NodeView>, node: int) -> Seq<ServiceId>
    decreases node,
{
    if node < 0 || node >= reg.len() {
        Seq::empty()
    } else {
        scoped_decls(reg[node].elems) + match reg[node].parent {
            Some(p) => if p < node {
                declared_instances(reg, p as int)
            } else {
                Seq::empty()
            },
            None => Seq::empty(),
        }
    }
}

/// Extending a sequence keeps its first `s`, if it had one.
pub proof fn lemma_find_first_prefix(a: Seq<ServiceId>, b: Seq<ServiceId>, s: ServiceId)
    requires
        a.len() <= b.len(),
        forall|j: int| 0 <= j < a.len() ==> b[j] == a[j],
        find_first(a, s) >= 0,
    ensures
        find_first(b, s) == find_first(a, s),
    decreases a.len(),
{
    if a[0] != s {
        assert(b[0] == a[0]);
        assert forall|j: int| 0 <= j < a.drop_first().len() implies b.drop_first()[j] == a.drop_first()[j] by {
            assert(b[j + 1] == a[j + 1]);
        }
        lemma_find_first_prefix(a.drop_first(), b.drop_first(), s);
    }
}

impl Node {
    pub open spec fn view(&self) -> NodeView {
        NodeView {
            parent: match self.parent {
                Some(p) => Some(p as nat),
                None => None,
            },
            elems: self.containers@.map_values(|e: Registration| e.view()),
        }
    }
}

impl<V> ServiceProvider<V> {
    /// The registries, without memo cells.
    pub closed spec fn registry(&self) -> Seq<NodeView> {
        self.nodes@.map_values(|n: Node| n.view())
    }

    pub closed spec fn nodes(&self) -> Seq<Node> {
        self.nodes@
    }

    pub closed spec fn objects(&self) -> Seq<Object<V>> {
        self.objects@
    }

    pub closed spec fn scopes(&self) -> Seq<Scope> {
        self.scopes@
    }

    /// How many registrations were made, over all registries.
    pub closed spec fn registrations(&self) -> nat {
        self.registrations as nat
    }

    /// Registry `n` of the view is registry `n` of the provider, seen without memo cells.
    pub proof fn lemma_view_at(&self, n: int)
        requires
            0 <= n < self.nodes().len(),
        ensures
            self.registry().len() == self.nodes().len(),
            self.registry()[n].elems.len() == self.nodes()[n].containers@.len(),
            self.registry()[n].parent == (match self.nodes()[n].parent {
                Some(p) => Some(p as nat),
                None => None::<nat>,
            }),
            forall|i: int| 0 <= i < self.nodes()[n].containers@.len()
                ==> #[trigger] self.registry()[n].elems[i] == self.nodes()[n].containers@[i].view(),
    {
    }

    /// The container behind registration `i` of registry `n`.
    pub open spec fn container_at(&self, n: int, i: int) -> &AnyContainer {
        self.nodes()[n].containers@[i].slot.container()
    }

    /// The object the singleton at registration `i` of registry `n` has built.
    pub open spec fn memo_at(&self, n: int, i: int) -> Option<usize> {
        self.container_at(n, i).memo()
    }

    /// Every parent precedes its child, and every object index held anywhere
    /// names an object.
    pub open spec fn wf(&self) -> bool {
        &&& self.nodes().len() >= 1
        &&& self.registry().len() == self.nodes().len()
        &&& services_of(self.registry()).finite()
        &&& services_of(self.registry()).len() <= self.registrations()
        &&& forall|n: int| 0 <= n < self.nodes().len()
            ==> ((#[trigger] self.nodes()[n]).parent matches Some(p) ==> p < n)
        &&& forall|n: int, i: int|
            0 <= n < self.nodes().len() && 0 <= i < self.nodes()[n].containers@.len()
            ==> self.elem_ok(#[trigger] self.nodes()[n].containers@[i])
        &&& forall|k: int| 0 <= k < self.scopes().len() ==> self.scope_wf(#[trigger] self.scopes()[k])
        &&& forall|x: int, t: int| 0 <= x < self.objects().len() && 0 <= t < self.objects()[x].deps@.len()
            ==> #[trigger] self.objects()[x].deps@[t] < x
    }

    pub open spec fn scope_wf(&self, sc: Scope) -> bool {
        &&& sc.provider < self.nodes().len()
        &&& forall|j: int| 0 <= j < sc.instances@.len()
            ==> self.holds((#[trigger] sc.instances@[j]).object as nat, sc.instances@[j].service)
        &&& forall|j: int| 0 <= j < sc.memos@.len()
            ==> ((#[trigger] sc.memos@[j]).lifetime.kept() matches Some(x)
                && self.holds(x as nat, sc.memos@[j].service))
    }

    /// Object `x` exists and was made for service `t`.
    pub open spec fn holds(&self, x: nat, t: ServiceId) -> bool {
        x < self.objects().len() && self.objects()[x as int].service == t
    }

    /// The service of the objects that a registration holds: the one it
    /// converts from, if it converts.
    pub open spec fn target(e: Registration) -> ServiceId {
        match e.slot.source() {
            Some(src) => src,
            None => e.service,
        }
    }

    /// The objects a registration holds exist and are of its target service.
    pub open spec fn elem_ok(&self, e: Registration) -> bool {
        &&& e.slot.source() is Some ==> e.slot.container().lifetime() != Kind::Scoped
            && e.slot.container().lifetime() != Kind::ScopedInstance
        &&& e.slot.container().lifetime() == Kind::Instance
            ==> self.holds(e.slot.container().object(), Self::target(e))
        &&& e.slot.container().memo() matches Some(m) ==> self.holds(m as nat, Self::target(e))
    }

    /// A provider with one empty registry, the root.
    pub fn new() -> (r: Self)
        ensures
            r.wf(),
            r.registry() == seq![NodeView { parent: None, elems: Seq::empty() }],
            r.objects().len() == 0,
            r.scopes().len() == 0,
            r.registrations() == 0,
    {
        let mut nodes: Vec<Node> = Vec::new();
        nodes.push(Node { parent: None, containers: Vec::new() });
        let r = ServiceProvider { nodes, objects: Vec::new(), scopes: Vec::new(), registrations: 0 };
        assert(r.nodes@[0].view().elems =~= Seq::<ElemView>::empty());
        assert(r.registry() =~= seq![NodeView { parent: None, elems: Seq::empty() }]);
        assert(services_of(r.registry()) =~= Set::<ServiceId>::empty());
        r
    }

    /// The object with identity `id`.
    pub fn object(&self, id: usize) -> (r: &Object<V>)
        requires
            id < self.objects().len(),
        ensures
            *r == self.objects()[id as int],
    {
        &self.objects[id]
    }

    /// The number of objects built or supplied so far.
    pub fn object_count(&self) -> (r: usize)
        ensures
            r == self.objects().len(),
    {
        self.objects.len()
    }
}


impl<V> ServiceProvider<V> {
    /// Appends `elem` to the registrations of registry `node`.
    fn push_elem(&mut self, node: usize, elem: Registration)
        requires
            old(self).wf(),
            node < old(self).nodes().len(),
            old(self).registrations() < usize::MAX,
            old(self).elem_ok(elem),
        ensures
            final(self).wf(),
            final(self).registry() == with_elem(old(self).registry(), node as int, elem.view()),
            final(self).nodes()[node as int].containers@ == old(self).nodes()[node as int].containers@.push(elem),
            final(self).objects() == old(self).objects(),
            final(self).scopes() == old(self).scopes(),
            final(self).registrations() == old(self).registrations() + 1,
            forall|n: int, i: int|
                0 <= n < old(self).nodes().len() && 0 <= i < old(self).nodes()[n].containers@.len()
                ==> #[trigger] final(self).memo_at(n, i) == old(self).memo_at(n, i),
    {
        let ghost ev = elem.view();
        let ghost e0 = elem;
        self.nodes[node].containers.push(elem);
        self.registrations = self.registrations + 1;
        proof {
            let nv = NodeView {
                parent: old(self).registry()[node as int].parent,
                elems: old(self).registry()[node as int].elems.push(ev),
            };
            assert(self.nodes@[node as int].view().elems =~= nv.elems);
            assert(self.registry() =~= old(self).registry().update(node as int, nv));
            let reg0 = old(self).registry();
            let reg1 = self.registry();
            assert(services_of(reg1) =~= services_of(reg0).insert(ev.service)) by {
                assert forall|t: ServiceId| services_of(reg1).contains(t)
                    implies #[trigger] services_of(reg0).insert(ev.service).contains(t) by {
                    let (n, i) = choose|n: int, i: int|
                        0 <= n < reg1.len() && 0 <= i < reg1[n].elems.len() && #[trigger] reg1[n].elems[i].service == t;
                    if t != ev.service {
                        assert(reg0[n].elems[i].service == t);
                    }
                }
                assert forall|t: ServiceId| services_of(reg0).insert(ev.service).contains(t)
                    implies #[trigger] services_of(reg1).contains(t) by {
                    if t == ev.service {
                        let i = reg0[node as int].elems.len() as int;
                        assert(reg1[node as int].elems[i].service == t);
                    } else {
                        let (n, i) = choose|n: int, i: int|
                            0 <= n < reg0.len() && 0 <= i < reg0[n].elems.len() && #[trigger] reg0[n].elems[i].service == t;
                        assert(reg1[n].elems[i].service == t);
                    }
                }
            }
            assert forall|n: int, i: int|
                0 <= n < self.nodes().len() && 0 <= i < self.nodes()[n].containers@.len()
                implies self.elem_ok(#[trigger] self.nodes()[n].containers@[i]) by {
                if n != node || i < old(self).nodes()[n].containers@.len() {
                    assert(self.nodes()[n].containers@[i] == old(self).nodes()[n].containers@[i]);
                } else {
                    assert(self.nodes()[n].containers@[i] == e0);
                }
            }
            assert forall|n: int| 0 <= n < self.nodes().len()
                implies (#[trigger] self.nodes()[n]).parent == old(self).nodes()[n].parent by {}
            assert forall|n: int, i: int|
                0 <= n < old(self).nodes().len() && 0 <= i < old(self).nodes()[n].containers@.len()
                implies #[trigger] self.memo_at(n, i) == old(self).memo_at(n, i) by {
                assert(self.container_at(n, i) == old(self).container_at(n, i));
            }
            assert forall|k: int| 0 <= k < self.scopes().len()
                implies self.scope_wf(#[trigger] self.scopes()[k]) by {
                assert(old(self).scope_wf(old(self).scopes()[k]));
            }
            assert(self.objects() == old(self).objects());
            assert forall|x: int, t: int| 0 <= x < self.objects().len() && 0 <= t < self.objects()[x].deps@.len()
                implies #[trigger] self.objects()[x].deps@[t] < x by {
                assert(old(self).objects()[x].deps@[t] < x);
            }
        }
    }

    /// Registers `service` as transient in registry `node`, built from `deps`.
    pub fn add_transient(self, node: usize, service: ServiceId, deps: Vec<ServiceId>) -> (r: Self)
        requires
            self.wf(),
            node < self.nodes().len(),
            self.registrations() < usize::MAX,
        ensures
            r.wf(),
            r.registry() == with_elem(
                self.registry(),
                node as int,
                ElemView { service, lifetime: Kind::Transient, deps: deps@, object: 0, source: None },
            ),
            r.objects() == self.objects(),
            r.scopes() == self.scopes(),
            r.registrations() == self.registrations() + 1,
    {
        let mut sp = self;
        let c = AnyContainer::Transient(TransientContainer::init(deps));
        sp.push_elem(node, Registration { service, slot: Slot::Direct(c) });
        sp
    }

    /// Registers `service` as a singleton in registry `node`, built from `deps`
    /// on first resolution.
    pub fn add_singleton(self, node: usize, service: ServiceId, deps: Vec<ServiceId>) -> (r: Self)
        requires
            self.wf(),
            node < self.nodes().len(),
            self.registrations() < usize::MAX,
        ensures
            r.wf(),
            r.registry() == with_elem(
                self.registry(),
                node as int,
                ElemView { service, lifetime: Kind::Singleton, deps: deps@, object: 0, source: None },
            ),
            r.memo_at(node as int, self.registry()[node as int].elems.len() as int) is None,
            r.objects() == self.objects(),
            r.scopes() == self.scopes(),
            r.registrations() == self.registrations() + 1,
    {
        let mut sp = self;
        let c = AnyContainer::Singleton(SingletonContainer::init(deps));
        sp.push_elem(node, Registration { service, slot: Slot::Direct(c) });
        sp
    }

    /// Registers `service` as scoped in registry `node`: built from `deps`
    /// once in each scope.
    pub fn add_scoped(self, node: usize, service: ServiceId, deps: Vec<ServiceId>) -> (r: Self)
        requires
            self.wf(),
            node < self.nodes().len(),
            self.registrations() < usize::MAX,
        ensures
            r.wf(),
            r.registry() == with_elem(
                self.registry(),
                node as int,
                ElemView { service, lifetime: Kind::Scoped, deps: deps@, object: 0, source: None },
            ),
            r.objects() == self.objects(),
            r.scopes() == self.scopes(),
            r.registrations() == self.registrations() + 1,
    {
        let mut sp = self;
        let c = AnyContainer::Scoped(ScopedContainer::init(deps));
        sp.push_elem(node, Registration { service, slot: Slot::Direct(c) });
        sp
    }

    /// Declares in registry `node` that each scope supplies a value for `service`.
    pub fn add_scoped_i(self, node: usize, service: ServiceId) -> (r: Self)
        requires
            self.wf(),
            node < self.nodes().len(),
            self.registrations() < usize::MAX,
        ensures
            r.wf(),
            r.registry() == with_elem(
                self.registry(),
                node as int,
                ElemView {
                    service,
                    lifetime: Kind::ScopedInstance,
                    deps: Seq::empty(),
                    object: 0,
                    source: None,
                },
            ),
            r.objects() == self.objects(),
            r.scopes() == self.scopes(),
            r.registrations() == self.registrations() + 1,
    {
        let mut sp = self;
        sp.push_elem(node, Registration { service, slot: Slot::Direct(AnyContainer::ScopedInstance) });
        sp
    }

    /// Stores a supplied value as a new object of `service`.
    fn push_instance(&mut self, service: ServiceId, value: V) -> (id: usize)
        requires
            old(self).wf(),
        ensures
            final(self).wf(),
            id == old(self).objects().len(),
            final(self).objects().len() == id + 1,
            final(self).objects().drop_last() == old(self).objects(),
            final(self).objects()[id as int].service == service,
            final(self).objects()[id as int].deps@.len() == 0,
            final(self).objects()[id as int].value == value,
            final(self).nodes() == old(self).nodes(),
            final(self).scopes() == old(self).scopes(),
            final(self).registrations() == old(self).registrations(),
    {
        let id = self.objects.len();
        self.objects.push(Object { service, deps: Vec::new(), value });
        proof {
            assert(self.objects().drop_last() =~= old(self).objects());
            self.lemma_more_objects(*old(self));
        }
        id
    }

    /// The object bounds of `wf` survive when only objects are added.
    proof fn lemma_more_objects(&self, prev: Self)
        requires
            prev.wf(),
            self.nodes() == prev.nodes(),
            self.scopes() == prev.scopes(),
            self.registrations() == prev.registrations(),
            self.objects().len() >= prev.objects().len(),
            forall|j: int| 0 <= j < prev.objects().len() ==> self.objects()[j] == prev.objects()[j],
            forall|x: int, t: int|
                prev.objects().len() <= x < self.objects().len() && 0 <= t < self.objects()[x].deps@.len()
                ==> #[trigger] self.objects()[x].deps@[t] < x,
        ensures
            self.wf(),
    {
        assert forall|n: int, i: int|
            0 <= n < self.nodes().len() && 0 <= i < self.nodes()[n].containers@.len()
            implies self.elem_ok(#[trigger] self.nodes()[n].containers@[i]) by {
            assert(prev.elem_ok(prev.nodes()[n].containers@[i]));
        }
        assert forall|k: int| 0 <= k < self.scopes().len()
            implies self.scope_wf(#[trigger] self.scopes()[k]) by {
            assert(prev.scope_wf(prev.scopes()[k]));
        }
    }

    /// Registers `value` as the instance of `service` in registry `node`.
    pub fn add_instance(self, node: usize, service: ServiceId, value: V) -> (r: Self)
        requires
            self.wf(),
            node < self.nodes().len(),
            self.registrations() < usize::MAX,
        ensures
            r.wf(),
            r.registry() == with_elem(
                self.registry(),
                node as int,
                ElemView {
                    service,
                    lifetime: Kind::Instance,
                    deps: Seq::empty(),
                    object: self.objects().len(),
                    source: None,
                },
            ),
            r.objects().len() == self.objects().len() + 1,
            r.objects().drop_last() == self.objects(),
            r.objects().last().service == service,
            r.objects().last().deps@.len() == 0,
            r.objects().last().value == value,
            r.scopes() == self.scopes(),
            r.registrations() == self.registrations() + 1,
    {
        let mut sp = self;
        let id = sp.push_instance(service, value);
        let c = AnyContainer::Instance(InstanceContainer::init(id));
        sp.push_elem(node, Registration { service, slot: Slot::Direct(c) });
        sp
    }

    /// Registers `service` in registry `node` as a transient `source` built
    /// from `deps` and converted on every resolution.
    pub fn add_transient_c(
        self,
        node: usize,
        service: ServiceId,
        source: ServiceId,
        deps: Vec<ServiceId>,
    ) -> (r: Self)
        requires
            self.wf(),
            node < self.nodes().len(),
            self.registrations() < usize::MAX,
        ensures
            r.wf(),
            r.registry() == with_elem(
                self.registry(),
                node as int,
                ElemView {
                    service,
                    lifetime: Kind::Transient,
                    deps: deps@,
                    object: 0,
                    source: Some(source),
                },
            ),
            r.objects() == self.objects(),
            r.scopes() == self.scopes(),
            r.registrations() == self.registrations() + 1,
    {
        let mut sp = self;
        let c = ConvertContainer { source, inner: AnyContainer::Transient(TransientContainer::init(deps)) };
        sp.push_elem(node, Registration { service, slot: Slot::Convert(c) });
        sp
    }

    /// Registers `service` in registry `node` as a singleton `source` built
    /// from `deps` once, and converted on every resolution.
    pub fn add_singleton_c(
        self,
        node: usize,
        service: ServiceId,
        source: ServiceId,
        deps: Vec<ServiceId>,
    ) -> (r: Self)
        requires
            self.wf(),
            node < self.nodes().len(),
            self.registrations() < usize::MAX,
        ensures
            r.wf(),
            r.registry() == with_elem(
                self.registry(),
                node as int,
                ElemView {
                    service,
                    lifetime: Kind::Singleton,
                    deps: deps@,
                    object: 0,
                    source: Some(source),
                },
            ),
            r.memo_at(node as int, self.registry()[node as int].elems.len() as int) is None,
            r.objects() == self.objects(),
            r.scopes() == self.scopes(),
            r.registrations() == self.registrations() + 1,
    {
        let mut sp = self;
        let c = ConvertContainer { source, inner: AnyContainer::Singleton(SingletonContainer::init(deps)) };
        sp.push_elem(node, Registration { service, slot: Slot::Convert(c) });
        sp
    }

    /// Registers `value` in registry `node` as an instance of `source`, handed
    /// out converted to `service` on every resolution.
    pub fn add_instance_c(self, node: usize, service: ServiceId, source: ServiceId, value: V) -> (r: Self)
        requires
            self.wf(),
            node < self.nodes().len(),
            self.registrations() < usize::MAX,
        ensures
            r.wf(),
            r.registry() == with_elem(
                self.registry(),
                node as int,
                ElemView {
                    service,
                    lifetime: Kind::Instance,
                    deps: Seq::empty(),
                    object: self.objects().len(),
                    source: Some(source),
                },
            ),
            r.objects().len() == self.objects().len() + 1,
            r.objects().drop_last() == self.objects(),
            r.objects().last().service == source,
            r.objects().last().deps@.len() == 0,
            r.objects().last().value == value,
            r.scopes() == self.scopes(),
            r.registrations() == self.registrations() + 1,
    {
        let mut sp = self;
        let id = sp.push_instance(source, value);
        let c = ConvertContainer { source, inner: AnyContainer::Instance(InstanceContainer::init(id)) };
        sp.push_elem(node, Registration { service, slot: Slot::Convert(c) });
        sp
    }

    /// Opens a new, empty registry whose lookups fall through to `node`.
    pub fn fork(&mut self, node: usize) -> (r: usize)
        requires
            old(self).wf(),
            node < old(self).nodes().len(),
        ensures
            final(self).wf(),
            r == old(self).nodes().len(),
            final(self).registry() == old(self).registry().push(
                NodeView { parent: Some(node as nat), elems: Seq::empty() },
            ),
            final(self).objects() == old(self).objects(),
            final(self).scopes() == old(self).scopes(),
            final(self).registrations() == old(self).registrations(),
            forall|n: int, i: int|
                0 <= n < old(self).nodes().len() && 0 <= i < old(self).nodes()[n].containers@.len()
                ==> #[trigger] final(self).memo_at(n, i) == old(self).memo_at(n, i),
    {
        let r = self.nodes.len();
        self.nodes.push(Node { parent: Some(node), containers: Vec::new() });
        proof {
            assert(self.nodes@[r as int].view().elems =~= Seq::<ElemView>::empty());
            assert(self.registry() =~= old(self).registry().push(
                NodeView { parent: Some(node as nat), elems: Seq::empty() },
            ));
            let reg0 = old(self).registry();
            let reg1 = self.registry();
            assert(services_of(reg1) =~= services_of(reg0)) by {
                assert forall|t: ServiceId| services_of(reg1).contains(t)
                    implies #[trigger] services_of(reg0).contains(t) by {
                    let (n, i) = choose|n: int, i: int|
                        0 <= n < reg1.len() && 0 <= i < reg1[n].elems.len() && #[trigger] reg1[n].elems[i].service == t;
                    assert(reg0[n].elems[i].service == t);
                }
                assert forall|t: ServiceId| services_of(reg0).contains(t)
                    implies #[trigger] services_of(reg1).contains(t) by {
                    let (n, i) = choose|n: int, i: int|
                        0 <= n < reg0.len() && 0 <= i < reg0[n].elems.len() && #[trigger] reg0[n].elems[i].service == t;
                    assert(reg1[n].elems[i].service == t);
                }
            }
            assert forall|n: int, i: int|
                0 <= n < self.nodes().len() && 0 <= i < self.nodes()[n].containers@.len()
                implies self.elem_ok(#[trigger] self.nodes()[n].containers@[i]) by {
                assert(self.nodes()[n].containers@[i] == old(self).nodes()[n].containers@[i]);
            }
            assert forall|n: int, i: int|
                0 <= n < old(self).nodes().len() && 0 <= i < old(self).nodes()[n].containers@.len()
                implies #[trigger] self.memo_at(n, i) == old(self).memo_at(n, i) by {
                assert(self.container_at(n, i) == old(self).container_at(n, i));
            }
            assert forall|k: int| 0 <= k < self.scopes().len()
                implies self.scope_wf(#[trigger] self.scopes()[k]) by {
                assert(old(self).scope_wf(old(self).scopes()[k]));
            }
            assert(self.objects() == old(self).objects());
            assert forall|x: int, t: int| 0 <= x < self.objects().len() && 0 <= t < self.objects()[x].deps@.len()
                implies #[trigger] self.objects()[x].deps@[t] < x by {
                assert(old(self).objects()[x].deps@[t] < x);
            }
        }
        r
    }
}


/// The position of the newest registration for `s` in `elems`.
fn find_last_exec(elems: &Vec<Registration>, s: ServiceId) -> (r: Option<usize>)
    ensures
        match r {
            Some(i) => i as int == find_last(elems@.map_values(|e: Registration| e.view()), s),
            None => find_last(elems@.map_values(|e: Registration| e.view()), s) == -1,
        },
{
    let ghost ev = elems@.map_values(|e: Registration| e.view());
    let mut i: usize = elems.len();
    assert(ev.subrange(0, i as int) =~= ev);
    while i > 0
        invariant
            i <= elems@.len(),
            ev == elems@.map_values(|e: Registration| e.view()),
            find_last(ev, s) == find_last(ev.subrange(0, i as int), s),
        decreases i,
    {
        if elems[i - 1].service_id() == s {
            return Some(i - 1);
        }
        assert(ev.subrange(0, i as int).drop_last() =~= ev.subrange(0, i - 1));
        i = i - 1;
    }
    None
}

/// Finds, by service, the registration that answers for it: in a registry
/// itself, newest first, else through its parents.
pub trait SelectContainer {
    /// The registries, without memo cells.
    spec fn registries(&self) -> Seq<NodeView>;

    /// Lookups may start from registry `node`.
    spec fn has_registry(&self, node: int) -> bool;

    fn get(&self, node: usize, s: ServiceId) -> (r: Option<(usize, usize)>)
        requires
            self.has_registry(node as int),
        ensures
            match r {
                Some((n, i)) => lookup(self.registries(), node as int, s) == Some((n as int, i as int))
                    && n < self.registries().len() && i < self.registries()[n as int].elems.len(),
                None => lookup(self.registries(), node as int, s) is None,
            },
    ;
}

/// Resolves services from the registries of a provider.
pub trait Resolver: Sized {
    /// Resolution may start from registry `node`.
    spec fn can_resolve_from(&self, node: int) -> bool;

    /// The fault that keeps `s` from being resolved from `node`, if any.
    spec fn fault(&self, node: int, s: ServiceId) -> Option<ResolveError>;

    /// `self` is what resolving `s` from `node` leaves of `prev`, and `id`
    /// is the object that resolution yields.
    spec fn outcome(&self, prev: Self, node: int, s: ServiceId, id: usize) -> bool;

    /// Resolves `s` from registry `node`; nothing changes on a fault.
    fn resolve(&mut self, node: usize, s: ServiceId) -> (r: Result<usize, ResolveError>)
        requires
            old(self).can_resolve_from(node as int),
        ensures
            match old(self).fault(node as int, s) {
                Some(e) => r == Err::<usize, ResolveError>(e) && *final(self) == *old(self),
                None => r matches Ok(id) && final(self).outcome(*old(self), node as int, s, id),
            },
    ;
}

/// The position of the first element of `v` that answers for `s`.
fn find_first_elem<T: ContainerElem>(v: &Vec<T>, s: ServiceId) -> (r: Option<usize>)
    ensures
        match r {
            Some(i) => i as int == find_first(v@.map_values(|e: T| e.answers()), s)
                && i < v@.len(),
            None => find_first(v@.map_values(|e: T| e.answers()), s) == -1,
        },
{
    let ghost ms = v@.map_values(|e: T| e.answers());
    let mut i: usize = 0;
    assert(ms.subrange(0, ms.len() as int) =~= ms);
    while i < v.len()
        invariant
            ms == v@.map_values(|e: T| e.answers()),
            i <= ms.len(),
            find_first(ms, s) == (if find_first(ms.subrange(i as int, ms.len() as int), s) < 0 {
                -1
            } else {
                i + find_first(ms.subrange(i as int, ms.len() as int), s)
            }),
        decreases ms.len() - i,
    {
        if v[i].service_id() == s {
            return Some(i);
        }
        assert(ms.subrange(i as int, ms.len() as int).drop_first() =~= ms.subrange(i + 1, ms.len() as int));
        i = i + 1;
    }
    None
}

impl<V> SelectContainer for ServiceProvider<V> {
    open spec fn registries(&self) -> Seq<NodeView> {
        self.registry()
    }

    open spec fn has_registry(&self, node: int) -> bool {
        self.wf() && 0 <= node < self.nodes().len()
    }

    fn get(&self, node: usize, s: ServiceId) -> (r: Option<(usize, usize)>)
    {
        proof {
            lemma_lookup_bounds(self.registry(), node as int, s);
        }
        let mut cur = node;
        loop
            invariant
                self.wf(),
                cur < self.nodes().len(),
                lookup(self.registry(), node as int, s) == lookup(self.registry(), cur as int, s),
            decreases cur,
        {
            let found = find_last_exec(&self.nodes[cur].containers, s);
            assert(self.registry()[cur as int].elems
                == self.nodes@[cur as int].containers@.map_values(|e: Registration| e.view()));
            match found {
                Some(i) => {
                    proof {
                        lemma_find_last_bounds(self.registry()[cur as int].elems, s);
                    }
                    return Some((cur, i));
                },
                None => {
                    assert(self.nodes()[cur as int].parent matches Some(p) ==> p < cur);
                    match self.nodes[cur].parent {
                        Some(p) => {
                            cur = p;
                        },
                        None => {
                            return None;
                        },
                    }
                },
            }
        }
    }
}

impl<V> ServiceProvider<V> {
    /// The services supplied to scope `scope`, in the order they were declared;
    /// `None` outside a scope.
    pub open spec fn scope_services(&self, scope: Option<usize>) -> Option<Seq<ServiceId>> {
        match scope {
            Some(k) => Some(self.scopes()[k as int].instances@.map_values(
                |x: ScopedInstanceContainer| x.service,
            )),
            None => None,
        }
    }

    pub open spec fn scope_ok(&self, scope: Option<usize>) -> bool {
        scope matches Some(k) ==> k < self.scopes().len()
    }

    /// Whether `path` holds `s`.
    fn on_path(path: &Vec<ServiceId>, s: ServiceId) -> (r: bool)
        ensures
            r == path@.contains(s),
    {
        let mut j: usize = 0;
        while j < path.len()
            invariant
                j <= path@.len(),
                forall|t: int| 0 <= t < j ==> path@[t] != s,
            decreases path@.len() - j,
        {
            if path[j] == s {
                return true;
            }
            j = j + 1;
        }
        false
    }

    /// The first wiring fault met when resolving `s` from registry `node`,
    /// with the services on `path` being built around it.
    fn check(&self, scope: Option<usize>, node: usize, s: ServiceId, path: &mut Vec<ServiceId>) -> (r:
        Option<ResolveError>)
        requires
            self.wf(),
            node < self.nodes().len(),
            self.scope_ok(scope),
            old(path)@.no_duplicates(),
            forall|j: int| 0 <= j < old(path)@.len()
                ==> services_of(self.registry()).contains(#[trigger] old(path)@[j]),
        ensures
            r == wiring(
                self.registry(),
                self.scope_services(scope),
                node as int,
                s,
                old(path)@,
                self.registrations(),
            ),
            final(path)@ == old(path)@,
        decreases self.registrations() - old(path)@.len(), 0nat,
    {
        if Self::on_path(path, s) {
            return Some(ResolveError::Cycle(s));
        }
        let (n, i) = match self.get(node, s) {
            Some(found) => found,
            None => {
                return Some(ResolveError::Missing(s));
            },
        };
        proof {
            self.lemma_view_at(n as int);
        }
        let c = self.nodes[n].containers[i].slot.get();
        assert(self.registry()[n as int].elems[i as int] == self.nodes()[n as int].containers@[i as int].view());
        match c.kind() {
            Kind::Instance => {
                return None;
            },
            Kind::ScopedInstance => {
                match scope {
                    None => {
                        return Some(ResolveError::OutOfScope(s));
                    },
                    Some(k) => {
                        let ghost l = self.scopes()[k as int].instances@.map_values(
                            |x: ScopedInstanceContainer| x.service,
                        );
                        assert(wiring(
                            self.registry(),
                            self.scope_services(scope),
                            node as int,
                            s,
                            old(path)@,
                            self.registrations(),
                        ) == (if l.contains(s) {
                            None
                        } else {
                            Some(ResolveError::Missing(s))
                        }));
                        let mut j: usize = 0;
                        while j < self.scopes[k].instances.len()
                            invariant
                                wiring(
                                    self.registry(),
                                    self.scope_services(scope),
                                    node as int,
                                    s,
                                    old(path)@,
                                    self.registrations(),
                                ) == (if l.contains(s) {
                                    None
                                } else {
                                    Some(ResolveError::Missing(s))
                                }),
                                path@ == old(path)@,
                                self.scope_ok(scope),
                                scope == Some(k),
                                k < self.scopes().len(),
                                j <= l.len(),
                                l.len() == self.scopes()[k as int].instances@.len(),
                                l == self.scopes()[k as int].instances@.map_values(
                                    |x: ScopedInstanceContainer| x.service,
                                ),
                                forall|t: int| 0 <= t < j ==> l[t] != s,
                            decreases l.len() - j,
                        {
                            if self.scopes[k].instances[j].service == s {
                                assert(l[j as int] == s);
                                assert(l.contains(s));
                                assert(self.scope_services(scope) == Some(l));
                                return None;
                            }
                            j = j + 1;
                        }
                        return Some(ResolveError::Missing(s));
                    },
                }
            },
            Kind::Scoped => {
                if scope.is_none() {
                    return Some(ResolveError::OutOfScope(s));
                }
            },
            _ => {},
        }
        proof {
            lemma_answer_registered(self.registry(), node as int, s);
            lemma_path_fits(self.registry(), path@, s, self.registrations());
        }
        let dscope = if c.kind() == Kind::Singleton {
            None
        } else {
            scope
        };
        assert(self.scope_services(dscope) == dep_scope(c.lifetime(), self.scope_services(scope)));
        path.push(s);
        let ghost p1 = path@;
        let ghost whole = wiring(
            self.registry(),
            self.scope_services(scope),
            node as int,
            s,
            old(path)@,
            self.registrations(),
        );
        assert(whole == deps_wiring(self.registry(), self.scope_services(dscope), node as int, c.deps(), 0,
            p1, self.registrations()));
        let mut j: usize = 0;
        while j < c.dep_count()
            invariant
                self.wf(),
                node < self.nodes().len(),
                self.scope_ok(scope),
                self.scope_ok(dscope),
                p1 == old(path)@.push(s),
                path@ == p1,
                p1.len() <= self.registrations(),
                p1.no_duplicates(),
                forall|t: int| 0 <= t < p1.len() ==> services_of(self.registry()).contains(#[trigger] p1[t]),
                c == self.container_at(n as int, i as int),
                j <= c.deps().len(),
                whole == wiring(
                    self.registry(),
                    self.scope_services(scope),
                    node as int,
                    s,
                    old(path)@,
                    self.registrations(),
                ),
                whole
                    == deps_wiring(self.registry(), self.scope_services(dscope), node as int, c.deps(),
                    j as int, p1, self.registrations()),
            decreases c.deps().len() - j,
        {
            let d = c.dep(j);
            let r = self.check(dscope, node, d, path);
            if r.is_some() {
                path.pop();
                assert(path@ =~= old(path)@);
                return r;
            }
            j = j + 1;
        }
        path.pop();
        assert(path@ =~= old(path)@);
        None
    }
}


impl<V> ServiceProvider<V> {
    /// `self` is `prev` after some building: the same registries, objects and
    /// scope memos only added, memo cells only filled.
    pub open spec fn grows_from(&self, prev: Self) -> bool {
        &&& self.registry() == prev.registry()
        &&& self.registrations() == prev.registrations()
        &&& self.nodes().len() == prev.nodes().len()
        &&& forall|n: int| 0 <= n < prev.nodes().len()
            ==> (#[trigger] self.nodes()[n]).containers@.len() == prev.nodes()[n].containers@.len()
        &&& self.objects().len() >= prev.objects().len()
        &&& forall|j: int| 0 <= j < prev.objects().len() ==> #[trigger] self.objects()[j] == prev.objects()[j]
        &&& self.scopes().len() == prev.scopes().len()
        &&& forall|k: int| 0 <= k < prev.scopes().len()
            ==> (#[trigger] self.scopes()[k]).provider == prev.scopes()[k].provider
            && self.scopes()[k].instances == prev.scopes()[k].instances
            && self.scopes()[k].memos@.len() >= prev.scopes()[k].memos@.len()
        &&& forall|k: int, j: int| 0 <= k < prev.scopes().len() && 0 <= j < prev.scopes()[k].memos@.len()
            ==> #[trigger] self.scopes()[k].memos@[j] == prev.scopes()[k].memos@[j]
        &&& forall|n: int, i: int|
            0 <= n < prev.nodes().len() && 0 <= i < prev.nodes()[n].containers@.len()
            && prev.memo_at(n, i) is Some ==> #[trigger] self.memo_at(n, i) == prev.memo_at(n, i)
    }

    /// `self` is what resolving `s` from registry `node`, in scope `scope` if
    /// any, leaves of `prev`, and `id` is the object that resolution yields.
    pub open spec fn resolves_to(&self, prev: Self, scope: Option<usize>, node: int, s: ServiceId, id: usize) -> bool {
        &&& self.wf()
        &&& self.grows_from(prev)
        &&& self.scopes_kept(prev, scope)
        &&& self.holds(id as nat, s)
        &&& self.resolved(prev, scope, node, s, id, Seq::empty(), prev.registrations())
        &&& self.yields(prev, scope, node, s, id, Seq::empty(), prev.registrations())
        &&& self.appends_only_for(prev, id)
    }

    /// Every scope but `scope` is as in `prev`.
    pub open spec fn scopes_kept(&self, prev: Self, scope: Option<usize>) -> bool {
        forall|q: int| 0 <= q < prev.scopes().len() && scope != Some(q as usize)
            ==> #[trigger] self.scopes()[q] == prev.scopes()[q]
    }

    /// Every memo filled since `prev`, in a cell or in a scope, is for a
    /// service off `path`.
    pub open spec fn fills_only(&self, prev: Self, path: Seq<ServiceId>) -> bool {
        &&& forall|n: int, i: int|
            0 <= n < prev.nodes().len() && 0 <= i < prev.nodes()[n].containers@.len()
            && #[trigger] self.memo_at(n, i) != prev.memo_at(n, i)
            ==> !path.contains(prev.registry()[n].elems[i].service)
        &&& forall|k: int, j: int|
            0 <= k < prev.scopes().len() && prev.scopes()[k].memos@.len() <= j < self.scopes()[k].memos@.len()
            ==> !path.contains(#[trigger] self.scopes()[k].memos@[j].service)
    }

    /// The object scope `k` has built for `s`, if any.
    pub open spec fn scope_memo(&self, k: int, s: ServiceId) -> Option<usize> {
        let f = find_first(self.scopes()[k].memos@.map_values(|m: ScopedContainerElem| m.service), s);
        if f < 0 {
            None
        } else {
            self.scopes()[k].memos@[f].lifetime.kept()
        }
    }

    /// The object supplied to scope `k` for `s`, if any.
    pub open spec fn scope_instance(&self, k: int, s: ServiceId) -> Option<usize> {
        let f = find_first(self.scopes()[k].instances@.map_values(|m: ScopedInstanceContainer| m.service), s);
        if f < 0 {
            None
        } else {
            Some(self.scopes()[k].instances@[f].object)
        }
    }

    /// Object `x` is made of one object per entry of `deps`, in order, each
    /// an object of that service.
    pub open spec fn made_of(&self, x: usize, deps: Seq<ServiceId>) -> bool {
        &&& self.objects()[x as int].deps@.len() == deps.len()
        &&& forall|j: int| 0 <= j < deps.len()
            ==> self.holds((#[trigger] self.objects()[x as int].deps@[j]) as nat, deps[j])
    }

    /// `y` is what resolving `s` from registry `node` gives in `self`, with
    /// the services on `path` being built around it, since `prev`: what the
    /// registration that answers for `s` gives, or, for a converting one, a
    /// new object made of that.
    pub open spec fn yields(
        &self,
        prev: Self,
        scope: Option<usize>,
        node: int,
        s: ServiceId,
        y: usize,
        path: Seq<ServiceId>,
        bound: nat,
    ) -> bool
        decreases bound - path.len(), 1nat, 0int,
    {
        y < self.objects().len() && match lookup(prev.registry(), node, s) {
            None => false,
            Some((n, i)) => match prev.registry()[n].elems[i].source {
                None => self.gives(prev, scope, node, n, i, s, y, path, bound),
                Some(_) => y >= prev.objects().len() && self.objects()[y as int].deps@.len() == 1
                    && self.gives(prev, scope, node, n, i, s, self.objects()[y as int].deps@[0], path, bound),
            },
        }
    }

    /// `y` is what registration `i` of registry `n`, answering for `s`, gives
    /// by its lifetime: the supplied instance, the value supplied to the
    /// scope, the object the singleton keeps, the object the scope keeps, or
    /// a new transient made, in order, of what its dependencies yield.
    pub open spec fn gives(
        &self,
        prev: Self,
        scope: Option<usize>,
        node: int,
        n: int,
        i: int,
        s: ServiceId,
        y: usize,
        path: Seq<ServiceId>,
        bound: nat,
    ) -> bool
        decreases bound - path.len(), 0nat, 0int,
    {
        let e = prev.registry()[n].elems[i];
        y < self.objects().len() && match e.lifetime {
            Kind::Instance => y == e.object,
            Kind::ScopedInstance => match scope {
                Some(k) => k < self.scopes().len() && self.scope_instance(k as int, s) == Some(y),
                None => false,
            },
            Kind::Singleton => self.memo_at(n, i) == Some(y),
            Kind::Scoped => match scope {
                Some(k) => k < self.scopes().len() && self.scope_memo(k as int, s) == Some(y),
                None => false,
            },
            Kind::Transient => y >= prev.objects().len() && path.len() < bound && self.made_of(y, e.deps)
                && self.deps_yield(prev, scope, node, y, e.deps, 0, path.push(s), bound),
        }
    }

    /// Dependency `j` onwards of object `x`, listed as `deps`, are what
    /// resolving each of `deps` yields.
    pub open spec fn deps_yield(
        &self,
        prev: Self,
        scope: Option<usize>,
        node: int,
        x: usize,
        deps: Seq<ServiceId>,
        j: int,
        path: Seq<ServiceId>,
        bound: nat,
    ) -> bool
        decreases bound - path.len(), 2nat, deps.len() - j,
    {
        if j < 0 || j >= deps.len() {
            true
        } else {
            self.yields(prev, scope, node, deps[j], self.objects()[x as int].deps@[j], path, bound)
                && self.deps_yield(prev, scope, node, x, deps, j + 1, path, bound)
        }
    }

    /// `x` is what registration `i` of registry `n` produces for `s` in
    /// `self`, built from `prev`: what it gives, and, where a singleton or a
    /// scope had kept nothing yet, a new object made of what its
    /// dependencies yield; else the object already kept.
    pub open spec fn produced(
        &self,
        prev: Self,
        scope: Option<usize>,
        node: int,
        n: int,
        i: int,
        s: ServiceId,
        x: usize,
        path: Seq<ServiceId>,
        bound: nat,
    ) -> bool {
        let e = prev.registry()[n].elems[i];
        let built = x >= prev.objects().len() && path.len() < bound && self.made_of(x, e.deps)
            && self.deps_yield(prev, dep_scope(e.lifetime, scope), node, x, e.deps, 0, path.push(s), bound);
        self.gives(prev, scope, node, n, i, s, x, path, bound) && match e.lifetime {
            Kind::Singleton => match prev.memo_at(n, i) {
                Some(m) => x == m,
                None => built,
            },
            Kind::Scoped => match scope {
                Some(k) => match prev.scope_memo(k as int, s) {
                    Some(m) => x == m,
                    None => built,
                },
                None => false,
            },
            _ => true,
        }
    }

    /// Object `m` is a dependency of a later object.
    pub open spec fn referenced(&self, m: int) -> bool {
        exists|x: int, q: int|
            m < x < self.objects().len() && 0 <= q < self.objects()[x].deps@.len()
                && #[trigger] self.objects()[x].deps@[q] == m
    }

    /// Of the objects appended since `prev`, the last is `id` and every other
    /// one is a dependency of a later one: nothing is built but `id` and what
    /// `id` is made of.
    pub open spec fn appends_only_for(&self, prev: Self, id: usize) -> bool {
        &&& self.objects().len() > prev.objects().len() ==> id == self.objects().len() - 1
        &&& forall|j: int| prev.objects().len() <= j < self.objects().len() - 1 ==> #[trigger] self.referenced(j)
    }

    /// Registration `i` of registry `n`, answering for `s`, has its object
    /// ready in `self`: an instance, a value the scope was supplied, or an
    /// object the singleton or the scope already keeps.
    pub open spec fn keeps_ready(&self, scope: Option<usize>, n: int, i: int, s: ServiceId) -> bool {
        match self.registry()[n].elems[i].lifetime {
            Kind::Instance => true,
            Kind::ScopedInstance => true,
            Kind::Singleton => self.memo_at(n, i) is Some,
            Kind::Scoped => match scope {
                Some(k) => self.scope_memo(k as int, s) is Some,
                None => false,
            },
            Kind::Transient => false,
        }
    }

    /// `id` is what resolving `s` from registry `node` yields in `self`, built
    /// from `prev`: what the registration that lookup finds produces, or, for
    /// a converting one, a new object made of that. Where that registration
    /// has its object ready, nothing is built, but for the converted object.
    pub open spec fn resolved(
        &self,
        prev: Self,
        scope: Option<usize>,
        node: int,
        s: ServiceId,
        id: usize,
        path: Seq<ServiceId>,
        bound: nat,
    ) -> bool {
        match lookup(prev.registry(), node, s) {
            None => false,
            Some((n, i)) => match prev.registry()[n].elems[i].source {
                None => self.produced(prev, scope, node, n, i, s, id, path, bound)
                    && (prev.keeps_ready(scope, n, i, s) ==> self.objects() == prev.objects()),
                Some(src) => {
                    &&& prev.keeps_ready(scope, n, i, s) ==> self.objects().len() == prev.objects().len() + 1
                    &&& id >= prev.objects().len()
                    &&& self.objects()[id as int].deps@.len() == 1
                    &&& self.holds(self.objects()[id as int].deps@[0] as nat, src)
                    &&& self.produced(prev, scope, node, n, i, s, self.objects()[id as int].deps@[0], path, bound)
                },
            },
        }
    }

    /// Stores a new object of `service` built from the objects `deps`, with value `value`.
    fn push_built(&mut self, service: ServiceId, deps: Vec<usize>, value: V) -> (x: usize)
        requires
            old(self).wf(),
            forall|t: int| 0 <= t < deps@.len() ==> #[trigger] deps@[t] < old(self).objects().len(),
        ensures
            final(self).wf(),
            final(self).grows_from(*old(self)),
            x == old(self).objects().len(),
            final(self).objects().len() == x + 1,
            final(self).objects()[x as int].service == service,
            final(self).objects()[x as int].deps == deps,
            final(self).objects()[x as int].value == value,
            final(self).scopes() == old(self).scopes(),
            forall|n: int, i: int| #[trigger] final(self).memo_at(n, i) == old(self).memo_at(n, i),
    {
        let x = self.objects.len();
        self.objects.push(Object { service, deps, value });
        proof {
            self.lemma_more_objects(*old(self));
        }
        x
    }

    /// Fills the memo cell of the empty singleton at registration `i` of registry `n`.
    fn set_memo(&mut self, n: usize, i: usize, x: usize)
        requires
            old(self).wf(),
            n < old(self).nodes().len(),
            i < old(self).nodes()[n as int].containers@.len(),
            old(self).container_at(n as int, i as int).lifetime() == Kind::Singleton,
            old(self).memo_at(n as int, i as int) is None,
            old(self).holds(x as nat, Self::target(old(self).nodes()[n as int].containers@[i as int])),
        ensures
            final(self).wf(),
            final(self).grows_from(*old(self)),
            final(self).objects() == old(self).objects(),
            final(self).scopes() == old(self).scopes(),
            final(self).memo_at(n as int, i as int) == Some(x),
            forall|m: int, j: int|
                0 <= m < old(self).nodes().len() && 0 <= j < old(self).nodes()[m].containers@.len()
                && (m != n || j != i) ==> #[trigger] final(self).memo_at(m, j) == old(self).memo_at(m, j),
    {
        let ghost e0 = self.nodes@[n as int].containers@[i as int];
        self.nodes[n].containers[i].slot.remember(x);
        proof {
            let e1 = self.nodes@[n as int].containers@[i as int];
            assert(e1.view() == e0.view());
            assert(self.nodes@[n as int].containers@ =~= old(self).nodes@[n as int].containers@.update(i as int, e1));
            assert(self.nodes@[n as int].parent == old(self).nodes@[n as int].parent);
            assert(self.nodes@[n as int].view().elems =~= old(self).nodes@[n as int].view().elems);
            assert(self.nodes@[n as int].view() == old(self).nodes@[n as int].view());
            assert(self.registry() =~= old(self).registry());
            assert forall|m: int| 0 <= m < self.nodes().len()
                implies (#[trigger] self.nodes()[m]).parent == old(self).nodes()[m].parent by {}
            assert forall|m: int, j: int|
                0 <= m < self.nodes().len() && 0 <= j < self.nodes()[m].containers@.len()
                implies self.elem_ok(#[trigger] self.nodes()[m].containers@[j]) by {
                if m != n || j != i {
                    assert(self.nodes()[m].containers@[j] == old(self).nodes()[m].containers@[j]);
                }
            }
            assert forall|m: int, j: int|
                0 <= m < old(self).nodes().len() && 0 <= j < old(self).nodes()[m].containers@.len()
                && (m != n || j != i) implies #[trigger] self.memo_at(m, j) == old(self).memo_at(m, j) by {
                assert(self.nodes()[m].containers@[j] == old(self).nodes()[m].containers@[j]);
            }
            assert forall|k: int| 0 <= k < self.scopes().len()
                implies self.scope_wf(#[trigger] self.scopes()[k]) by {
                assert(old(self).scope_wf(old(self).scopes()[k]));
            }
            assert(self.objects() == old(self).objects());
            assert forall|x: int, t: int| 0 <= x < self.objects().len() && 0 <= t < self.objects()[x].deps@.len()
                implies #[trigger] self.objects()[x].deps@[t] < x by {
                assert(old(self).objects()[x].deps@[t] < x);
            }
        }
    }

    /// Records in scope `k` that `x` is its object of `s`.
    fn push_scope_memo(&mut self, k: usize, s: ServiceId, x: usize)
        requires
            old(self).wf(),
            k < old(self).scopes().len(),
            old(self).holds(x as nat, s),
        ensures
            final(self).wf(),
            final(self).grows_from(*old(self)),
            final(self).objects() == old(self).objects(),
            final(self).nodes() == old(self).nodes(),
            final(self).scopes()[k as int].memos@.drop_last() == old(self).scopes()[k as int].memos@,
            final(self).scopes()[k as int].memos@.len() == old(self).scopes()[k as int].memos@.len() + 1,
            final(self).scopes()[k as int].memos@.last().service == s,
            final(self).scopes()[k as int].memos@.last().lifetime.kept() == Some(x),
            forall|q: int| 0 <= q < old(self).scopes().len() && q != k
                ==> #[trigger] final(self).scopes()[q] == old(self).scopes()[q],
    {
        let mut lifetime = Singleton::new();
        lifetime.keep(x);
        self.scopes[k].memos.push(ScopedContainerElem { service: s, lifetime });
        proof {
            assert(self.scopes()[k as int].memos@.drop_last() =~= old(self).scopes()[k as int].memos@);
            assert forall|q: int| 0 <= q < self.scopes().len()
                implies self.scope_wf(#[trigger] self.scopes()[q]) by {
                assert(old(self).scope_wf(old(self).scopes()[q]));
            }
        }
    }

    /// The object scope `k` has built for `s`.
    fn find_scope_memo(&self, k: usize, s: ServiceId) -> (r: Option<usize>)
        requires
            k < self.scopes().len(),
        ensures
            r == self.scope_memo(k as int, s),
    {
        let ghost ms = self.scopes()[k as int].memos@;
        assert(ms.map_values(|m: ScopedContainerElem| m.service) =~= ms.map_values(
            |m: ScopedContainerElem| m.answers(),
        ));
        match find_first_elem(&self.scopes[k].memos, s) {
            Some(i) => {
                proof {
                    lemma_find_first_bounds(ms.map_values(|m: ScopedContainerElem| m.answers()), s);
                }
                self.scopes[k].memos[i].lifetime.get_value()
            },
            None => None,
        }
    }

    /// The object supplied to scope `k` for `s`.
    fn find_scope_instance(&self, k: usize, s: ServiceId) -> (r: Option<usize>)
        requires
            k < self.scopes().len(),
        ensures
            r == self.scope_instance(k as int, s),
    {
        let ghost ms = self.scopes()[k as int].instances@;
        assert(ms.map_values(|m: ScopedInstanceContainer| m.service) =~= ms.map_values(
            |m: ScopedInstanceContainer| m.answers(),
        ));
        match find_first_elem(&self.scopes[k].instances, s) {
            Some(i) => Some(self.scopes[k].instances[i].object),
            None => None,
        }
    }
}


impl<V: Dependency> ServiceProvider<V> {
    /// Growth composes.
    proof fn lemma_grows_trans(a: Self, b: Self, c: Self, path: Seq<ServiceId>)
        requires
            b.grows_from(a),
            c.grows_from(b),
            b.fills_only(a, path),
            c.fills_only(b, path),
        ensures
            c.grows_from(a),
            c.fills_only(a, path),
    {
        assert forall|n: int, i: int|
            0 <= n < a.nodes().len() && 0 <= i < a.nodes()[n].containers@.len()
            && #[trigger] c.memo_at(n, i) != a.memo_at(n, i)
            implies !path.contains(a.registry()[n].elems[i].service) by {
            if b.memo_at(n, i) == a.memo_at(n, i) {
                assert(c.memo_at(n, i) != b.memo_at(n, i));
            }
        }
        assert forall|k: int, j: int|
            0 <= k < a.scopes().len() && a.scopes()[k].memos@.len() <= j < c.scopes()[k].memos@.len()
            implies !path.contains(#[trigger] c.scopes()[k].memos@[j].service) by {
            if j < b.scopes()[k].memos@.len() {
                assert(c.scopes()[k].memos@[j] == b.scopes()[k].memos@[j]);
            }
        }
    }

    /// A frame for a path holds for any path whose services it holds.
    proof fn lemma_fills_push(&self, prev: Self, path: Seq<ServiceId>, s: ServiceId)
        requires
            self.fills_only(prev, path.push(s)),
        ensures
            self.fills_only(prev, path),
    {
        assert forall|x: ServiceId| path.contains(x) implies path.push(s).contains(x) by {
            let j = choose|j: int| 0 <= j < path.len() && path[j] == x;
            assert(path.push(s)[j] == x);
        }
    }

    /// Builds or fetches the object for `s` from registry `node`, resolving
    /// first, depth first and in order, the dependencies of what is built.
    /// `path` holds the services being built around this one.
    fn build(&mut self, scope: Option<usize>, node: usize, s: ServiceId, Ghost(path): Ghost<Seq<ServiceId>>) -> (id:
        usize)
        requires
            old(self).wf(),
            node < old(self).nodes().len(),
            old(self).scope_ok(scope),
            path.len() <= old(self).registrations(),
            wiring(
                old(self).registry(),
                old(self).scope_services(scope),
                node as int,
                s,
                path,
                old(self).registrations(),
            ) is None,
        ensures
            final(self).wf(),
            final(self).grows_from(*old(self)),
            final(self).holds(id as nat, s),
            final(self).resolved(*old(self), scope, node as int, s, id, path, old(self).registrations()),
            final(self).yields(*old(self), scope, node as int, s, id, path, old(self).registrations()),
            final(self).appends_only_for(*old(self), id),
            final(self).fills_only(*old(self), path),
            final(self).scopes_kept(*old(self), scope),
        decreases old(self).registrations() - path.len(), 2nat,
    {
        let (n, i) = match self.get(node, s) {
            Some(found) => found,
            None => {
                return 0;
            },
        };
        let ghost elem = self.nodes@[n as int].containers@[i as int];
        proof {
            self.lemma_view_at(n as int);
            lemma_lookup_bounds(self.registry(), node as int, s);
            assert(self.elem_ok(elem));
        }
        let source = self.nodes[n].containers[i].slot.converts_from();
        let kind = self.nodes[n].containers[i].slot.get().kind();
        let target = match source {
            Some(src) => src,
            None => s,
        };
        let ghost start = *self;
        let x = match kind {
            Kind::Instance => self.nodes[n].containers[i].slot.get().instance_object(),
            Kind::ScopedInstance => {
                let k = match scope {
                    Some(k) => k,
                    None => {
                        return 0;
                    },
                };
                match self.find_scope_instance(k, s) {
                    Some(x) => {
                        proof {
                            let ms = self.scopes()[k as int].instances@.map_values(
                                |m: ScopedInstanceContainer| m.service,
                            );
                            lemma_find_first_bounds(ms, s);
                            assert(self.scope_wf(self.scopes()[k as int]));
                        }
                        x
                    },
                    None => {
                        proof {
                            lemma_find_first_bounds(
                                self.scopes()[k as int].instances@.map_values(
                                    |m: ScopedInstanceContainer| m.service,
                                ),
                                s,
                            );
                        }
                        return 0;
                    },
                }
            },
            Kind::Singleton => {
                match self.nodes[n].containers[i].slot.get().memoised() {
                    Some(m) => m,
                    None => {
                        let x = self.construct(None, node, s, n, i, target, Ghost(path));
                        let ghost mid = *self;
                        proof {
                            assert(path.push(s)[path.len() as int] == s);
                            if mid.memo_at(n as int, i as int) != start.memo_at(n as int, i as int) {
                                assert(path.push(s).contains(s));
                            }
                            self.lemma_fills_push(start, path, s);
                            assert(mid.nodes()[n as int].containers@[i as int].view() == elem.view());
                        }
                        self.set_memo(n, i, x);
                        proof {
                            assert(self.fills_only(mid, path));
                            Self::lemma_grows_trans(start, mid, *self, path);
                            Self::lemma_deps_mono(mid, *self, start, start, None, node as int, x,
                                start.registry()[n as int].elems[i as int].deps, 0, path.push(s),
                                start.registrations());
                            assert forall|m: int| start.objects().len() <= m < self.objects().len() - 1
                                implies #[trigger] self.referenced(m) by {
                                Self::lemma_referenced_mono(mid, *self, m);
                            }
                        }
                        x
                    },
                }
            },
            Kind::Scoped => {
                let k = match scope {
                    Some(k) => k,
                    None => {
                        return 0;
                    },
                };
                match self.find_scope_memo(k, s) {
                    Some(m) => {
                        proof {
                            let ms = self.scopes()[k as int].memos@.map_values(
                                |m: ScopedContainerElem| m.service,
                            );
                            lemma_find_first_bounds(ms, s);
                            assert(self.scope_wf(self.scopes()[k as int]));
                        }
                        m
                    },
                    None => {
                        let x = self.construct(scope, node, s, n, i, target, Ghost(path));
                        let ghost mid = *self;
                        proof {
                            let ms0 = start.scopes()[k as int].memos@.map_values(|m: ScopedContainerElem| m.service);
                            let ms1 = mid.scopes()[k as int].memos@.map_values(|m: ScopedContainerElem| m.service);
                            lemma_find_first_bounds(ms0, s);
                            assert forall|j: int| 0 <= j < ms1.len() implies ms1[j] != s by {
                                if j < ms0.len() {
                                    assert(ms1[j] == ms0[j]);
                                } else {
                                    assert(path.push(s)[path.len() as int] == s);
                                    assert(path.push(s).contains(s));
                                }
                            }
                            lemma_find_first_bounds(ms1, s);
                            self.lemma_fills_push(start, path, s);
                        }
                        self.push_scope_memo(k, s, x);
                        proof {
                            let ms1 = mid.scopes()[k as int].memos@.map_values(|m: ScopedContainerElem| m.service);
                            let ms2 = self.scopes()[k as int].memos@.map_values(|m: ScopedContainerElem| m.service);
                            assert(ms2 =~= ms1.push(s));
                            lemma_find_first_push(ms1, s);
                            assert(self.fills_only(mid, path));
                            Self::lemma_grows_trans(start, mid, *self, path);
                            Self::lemma_deps_mono(mid, *self, start, start, scope, node as int, x,
                                start.registry()[n as int].elems[i as int].deps, 0, path.push(s),
                                start.registrations());
                            assert forall|m: int| start.objects().len() <= m < self.objects().len() - 1
                                implies #[trigger] self.referenced(m) by {
                                Self::lemma_referenced_mono(mid, *self, m);
                            }
                        }
                        x
                    },
                }
            },
            Kind::Transient => {
                let x = self.construct(scope, node, s, n, i, target, Ghost(path));
                proof {
                    self.lemma_fills_push(start, path, s);
                }
                x
            },
        };
        proof {
            assert(self.gives(start, scope, node as int, n as int, i as int, s, x, path, start.registrations()));
            assert(self.appends_only_for(start, x));
        }
        match source {
            None => x,
            Some(_) => {
                let ghost mid = *self;
                let mut deps: Vec<usize> = Vec::new();
                deps.push(x);
                let value = V::init(s, &deps, &self.objects);
                let id = self.push_built(s, deps, value);
                proof {
                    assert(self.fills_only(mid, path));
                    Self::lemma_grows_trans(start, mid, *self, path);
                    assert(self.objects()[id as int].deps@[0] == x);
                    assert forall|m: int| start.objects().len() <= m < self.objects().len() - 1
                        implies #[trigger] self.referenced(m) by {
                        if m == mid.objects().len() - 1 {
                            assert(self.objects()[id as int].deps@[0] == m);
                        } else {
                            Self::lemma_referenced_mono(mid, *self, m);
                        }
                    }
                    let regs = start.registrations();
                    let deps = start.registry()[n as int].elems[i as int].deps;
                    Self::lemma_gives_mono(mid, *self, start, start, scope, node as int, n as int, i as int, s, x,
                        path, regs);
                    let dsc = dep_scope(kind, scope);
                    if mid.deps_yield(start, dsc, node as int, x, deps, 0, path.push(s), regs) {
                        Self::lemma_deps_mono(mid, *self, start, start, dsc, node as int, x, deps, 0,
                            path.push(s), regs);
                    }
                }
                id
            },
        }
    }

    /// Builds a new object of `target` for registration `i` of registry `n`,
    /// which answers for `s`, from its dependencies resolved in order.
    fn construct(
        &mut self,
        scope: Option<usize>,
        node: usize,
        s: ServiceId,
        n: usize,
        i: usize,
        target: ServiceId,
        Ghost(path): Ghost<Seq<ServiceId>>,
    ) -> (x: usize)
        requires
            old(self).wf(),
            node < old(self).nodes().len(),
            old(self).scope_ok(scope),
            path.len() <= old(self).registrations(),
            !path.contains(s),
            lookup(old(self).registry(), node as int, s) == Some((n as int, i as int)),
            n < old(self).nodes().len(),
            i < old(self).nodes()[n as int].containers@.len(),
            path.len() < old(self).registrations(),
            deps_wiring(
                old(self).registry(),
                old(self).scope_services(scope),
                node as int,
                old(self).registry()[n as int].elems[i as int].deps,
                0,
                path.push(s),
                old(self).registrations(),
            ) is None,
        ensures
            final(self).wf(),
            final(self).grows_from(*old(self)),
            final(self).holds(x as nat, target),
            x >= old(self).objects().len(),
            final(self).made_of(x, old(self).registry()[n as int].elems[i as int].deps),
            final(self).appends_only_for(*old(self), x),
            final(self).deps_yield(
                *old(self),
                scope,
                node as int,
                x,
                old(self).registry()[n as int].elems[i as int].deps,
                0,
                path.push(s),
                old(self).registrations(),
            ),
            final(self).fills_only(*old(self), path.push(s)),
            final(self).scopes_kept(*old(self), scope),
        decreases old(self).registrations() - path.len(), 1nat,
    {
        let ghost deps = self.registry()[n as int].elems[i as int].deps;
        let ghost p1 = path.push(s);
        let ghost start = *self;
        proof {
            self.lemma_view_at(n as int);
        }
        let mut ids: Vec<usize> = Vec::new();
        let mut j: usize = 0;
        while j < self.nodes[n].containers[i].slot.get().dep_count()
            invariant
                self.wf(),
                self.grows_from(start),
                self.fills_only(start, p1),
                self.scopes_kept(start, scope),
                start.wf(),
                start == *old(self),
                node < self.nodes().len(),
                n < self.nodes().len(),
                i < self.nodes()[n as int].containers@.len(),
                self.scope_ok(scope),
                deps == start.registry()[n as int].elems[i as int].deps,
                deps == self.container_at(n as int, i as int).deps(),
                p1 == path.push(s),
                p1.len() <= self.registrations(),
                self.registrations() == start.registrations(),
                j <= deps.len(),
                ids@.len() == j,
                forall|t: int| 0 <= t < j ==> self.holds(#[trigger] ids@[t] as nat, deps[t]),
                forall|t: int| 0 <= t < j
                    ==> self.yields(start, scope, node as int, deps[t], #[trigger] ids@[t], p1, start.registrations()),
                forall|m: int| start.objects().len() <= m < self.objects().len()
                    ==> ids@.contains(m as usize) || #[trigger] self.referenced(m),
                deps_wiring(self.registry(), self.scope_services(scope), node as int, deps, j as int, p1,
                    self.registrations()) is None,
            decreases deps.len() - j,
        {
            let d = self.nodes[n].containers[i].slot.get().dep(j);
            let ghost before = *self;
            assert(self.registrations() - p1.len() < old(self).registrations() - path.len());
            let id = self.build(scope, node, d, Ghost(p1));
            proof {
                Self::lemma_grows_trans(start, before, *self, p1);
                Self::lemma_yields_mono(*self, *self, start, before, scope, node as int, d, id, p1,
                    start.registrations());
                assert forall|m: int| start.objects().len() <= m < self.objects().len()
                    implies ids@.push(id).contains(m as usize) || #[trigger] self.referenced(m) by {
                    if m < before.objects().len() {
                        if ids@.contains(m as usize) {
                            let t = choose|t: int| 0 <= t < ids@.len() && ids@[t] == m as usize;
                            assert(ids@.push(id)[t] == m as usize);
                        } else {
                            Self::lemma_referenced_mono(before, *self, m);
                        }
                    } else if m == self.objects().len() - 1 {
                        assert(ids@.push(id)[ids@.len() as int] == id);
                    }
                }
                assert forall|t: int| 0 <= t < j implies self.yields(start, scope, node as int, deps[t],
                    #[trigger] ids@[t], p1, start.registrations()) by {
                    Self::lemma_yields_mono(before, *self, start, start, scope, node as int, deps[t], ids@[t], p1,
                        start.registrations());
                }
                assert forall|t: int| 0 <= t < j implies self.holds(#[trigger] ids@[t] as nat, deps[t]) by {
                    assert(before.holds(ids@[t] as nat, deps[t]));
                    assert(self.objects()[ids@[t] as int] == before.objects()[ids@[t] as int]);
                }
                self.lemma_view_at(n as int);
                before.lemma_view_at(n as int);
                assert(self.scope_services(scope) == before.scope_services(scope));
            }
            ids.push(id);
            j = j + 1;
        }
        let ghost before = *self;
        let value = V::init(target, &ids, &self.objects);
        let x = self.push_built(target, ids, value);
        proof {
            assert(self.fills_only(before, p1));
            Self::lemma_grows_trans(start, before, *self, p1);
            assert forall|t: int| 0 <= t < deps.len()
                implies self.holds((#[trigger] self.objects()[x as int].deps@[t]) as nat, deps[t]) by {
                assert(self.objects()[x as int].deps@[t] == ids@[t]);
                assert(before.holds(ids@[t] as nat, deps[t]));
            }
            assert forall|t: int| 0 <= t < deps.len() implies self.yields(start, scope, node as int, deps[t],
                #[trigger] self.objects()[x as int].deps@[t], p1, start.registrations()) by {
                assert(self.objects()[x as int].deps@[t] == ids@[t]);
                Self::lemma_yields_mono(before, *self, start, start, scope, node as int, deps[t], ids@[t], p1,
                    start.registrations());
            }
            Self::lemma_deps_yield_all(*self, start, scope, node as int, x, deps, 0, p1, start.registrations());
            assert forall|m: int| start.objects().len() <= m < self.objects().len() - 1
                implies #[trigger] self.referenced(m) by {
                if ids@.contains(m as usize) {
                    let t = choose|t: int| 0 <= t < ids@.len() && ids@[t] == m as usize;
                    assert(self.objects()[x as int].deps@[t] == m);
                } else {
                    Self::lemma_referenced_mono(before, *self, m);
                }
            }
        }
        x
    }
}


impl<V: Dependency> ServiceProvider<V> {
    /// Resolves `s` in scope `k`, from the registry the scope was opened on:
    /// as `resolve` does, with the scope's values and its memos for scoped services.
    pub fn resolve_in(&mut self, k: usize, s: ServiceId) -> (r: Result<usize, ResolveError>)
        requires
            old(self).wf(),
            k < old(self).scopes().len(),
        ensures
            final(self).wf(),
            match wiring(
                old(self).registry(),
                old(self).scope_services(Some(k)),
                old(self).scopes()[k as int].provider as int,
                s,
                Seq::empty(),
                old(self).registrations(),
            ) {
                Some(e) => r == Err::<usize, ResolveError>(e) && *final(self) == *old(self),
                None => r matches Ok(id) && final(self).resolves_to(
                    *old(self),
                    Some(k),
                    old(self).scopes()[k as int].provider as int,
                    s,
                    id,
                ),
            },
    {
        let node = self.scopes[k].provider;
        proof {
            assert(self.scope_wf(self.scopes()[k as int]));
        }
        let mut path: Vec<ServiceId> = Vec::new();
        match self.check(Some(k), node, s, &mut path) {
            Some(e) => Err(e),
            None => Ok(self.build(Some(k), node, s, Ghost(Seq::empty()))),
        }
    }

    /// The services that a scope opened on registry `node` is supplied, in order.
    pub fn declared(&self, node: usize) -> (r: Vec<ServiceId>)
        requires
            self.wf(),
            node < self.nodes().len(),
        ensures
            r@ == declared_instances(self.registry(), node as int),
    {
        let mut r: Vec<ServiceId> = Vec::new();
        let mut cur = node;
        loop
            invariant
                self.wf(),
                cur < self.nodes().len(),
                declared_instances(self.registry(), node as int)
                    == r@ + declared_instances(self.registry(), cur as int),
            decreases cur,
        {
            proof {
                self.lemma_view_at(cur as int);
            }
            let ghost ev = self.registry()[cur as int].elems;
            let ghost r0 = r@;
            let mut i: usize = self.nodes[cur].containers.len();
            assert(ev.subrange(0, i as int) =~= ev);
            while i > 0
                invariant
                    self.wf(),
                    cur < self.nodes().len(),
                    ev == self.registry()[cur as int].elems,
                    ev.len() == self.nodes()[cur as int].containers@.len(),
                    forall|t: int| 0 <= t < ev.len() ==> #[trigger] ev[t] == self.nodes()[cur as int].containers@[t].view(),
                    i <= ev.len(),
                    r0 + scoped_decls(ev) == r@ + scoped_decls(ev.subrange(0, i as int)),
                decreases i,
            {
                let e = &self.nodes[cur].containers[i - 1];
                let kind = e.slot.get().kind();
                assert(ev.subrange(0, i as int).drop_last() =~= ev.subrange(0, i - 1));
                assert(ev.subrange(0, i as int).last() == ev[i - 1]);
                if kind == Kind::ScopedInstance {
                    r.push(e.service);
                    assert(r0 + scoped_decls(ev) == r@ + scoped_decls(ev.subrange(0, i - 1)));
                }
                i = i - 1;
            }
            assert(ev.subrange(0, 0) =~= Seq::<ElemView>::empty());
            assert(r@ == r0 + scoped_decls(ev));
            match self.nodes[cur].parent {
                Some(p) => {
                    assert(p < cur);
                    assert(declared_instances(self.registry(), node as int)
                        == r@ + declared_instances(self.registry(), p as int));
                    cur = p;
                },
                None => {
                    assert(r@ + Seq::<ServiceId>::empty() =~= r@);
                    return r;
                },
            }
        }
    }

    /// Opens a scope on registry `node`, supplied with `values`: one for each
    /// declared service, in the order `declared` gives. Each value becomes a
    /// new object; the scope starts with no scoped object built.
    pub fn scope(&mut self, node: usize, values: Vec<V>) -> (r: Result<usize, ScopeError>)
        requires
            old(self).wf(),
            node < old(self).nodes().len(),
        ensures
            final(self).wf(),
            ({
                let d = declared_instances(old(self).registry(), node as int);
                let base = old(self).objects().len();
                if values@.len() != d.len() {
                    &&& r == Err::<usize, ScopeError>(
                        ScopeError::Arity { declared: d.len() as usize, supplied: values@.len() as usize },
                    )
                    &&& *final(self) == *old(self)
                } else {
                    &&& r == Ok::<usize, ScopeError>(old(self).scopes().len() as usize)
                    &&& final(self).registry() == old(self).registry()
                    &&& final(self).registrations() == old(self).registrations()
                    &&& final(self).nodes() == old(self).nodes()
                    &&& final(self).scopes().len() == old(self).scopes().len() + 1
                    &&& final(self).scopes().drop_last() == old(self).scopes()
                    &&& final(self).scopes().last().provider == node
                    &&& final(self).scopes().last().memos@.len() == 0
                    &&& final(self).scopes().last().instances@.len() == d.len()
                    &&& final(self).objects().len() == base + d.len()
                    &&& final(self).objects().subrange(0, base as int) == old(self).objects()
                    &&& forall|j: int| 0 <= j < d.len() ==> {
                        &&& (#[trigger] final(self).scopes().last().instances@[j]).service == d[j]
                        &&& final(self).scopes().last().instances@[j].object == base + j
                        &&& final(self).objects()[base + j].value == values@[j]
                        &&& final(self).objects()[base + j].service == d[j]
                    }
                }
            }),
    {
        let d = self.declared(node);
        if values.len() != d.len() {
            return Err(ScopeError::Arity { declared: d.len(), supplied: values.len() });
        }
        let ghost base = self.objects().len();
        let mut vals = values;
        let mut instances: Vec<ScopedInstanceContainer> = Vec::new();
        let mut j: usize = 0;
        assert(values@.subrange(0, values@.len() as int) =~= values@);
        while j < d.len()
            invariant
                self.wf(),
                node < self.nodes().len(),
                self.nodes() == old(self).nodes(),
                self.scopes() == old(self).scopes(),
                self.registrations() == old(self).registrations(),
                d@ == declared_instances(old(self).registry(), node as int),
                d@.len() == values@.len(),
                j <= d@.len(),
                vals@ == values@.subrange(j as int, values@.len() as int),
                base == old(self).objects().len(),
                self.objects().len() == base + j,
                self.objects().subrange(0, base as int) == old(self).objects(),
                instances@.len() == j,
                forall|t: int| 0 <= t < j ==> {
                    &&& (#[trigger] instances@[t]).service == d@[t]
                    &&& instances@[t].object == base + t
                    &&& self.objects()[base + t].value == values@[t]
                    &&& self.objects()[base + t].service == d@[t]
                },
            decreases d@.len() - j,
        {
            let v = vals.remove(0);
            assert(v == values@[j as int]);
            let ghost before = self.objects();
            let id = self.push_instance(d[j], v);
            assert(self.objects().subrange(0, base as int) =~= before.subrange(0, base as int));
            assert forall|t: int| 0 <= t < j implies #[trigger] instances@[t].object == base + t
                && self.objects()[base + t] == before[base + t] by {
                assert(self.objects().drop_last()[base + t] == before[base + t]);
            }
            instances.push(ScopedInstanceContainer { service: d[j], object: id });
            assert(vals@ =~= values@.subrange(j + 1, values@.len() as int));
            j = j + 1;
        }
        let k = self.scopes.len();
        let ghost before = *self;
        self.scopes.push(Scope { provider: node, instances, memos: Vec::new() });
        proof {
            assert(self.scopes().drop_last() =~= before.scopes());
            assert forall|q: int| 0 <= q < self.scopes().len()
                implies self.scope_wf(#[trigger] self.scopes()[q]) by {
                if q < before.scopes().len() {
                    assert(before.scope_wf(before.scopes()[q]));
                    assert(self.scopes()[q] == before.scopes()[q]);
                } else {
                    let sc = self.scopes()[q];
                    assert forall|t: int| 0 <= t < sc.instances@.len()
                        implies self.holds((#[trigger] sc.instances@[t]).object as nat, sc.instances@[t].service) by {
                    }
                }
            }
            assert forall|n: int, i: int|
                0 <= n < self.nodes().len() && 0 <= i < self.nodes()[n].containers@.len()
                implies self.elem_ok(#[trigger] self.nodes()[n].containers@[i]) by {
                assert(before.elem_ok(before.nodes()[n].containers@[i]));
            }
        }
        Ok(k)
    }
}


impl<V: Dependency> Resolver for ServiceProvider<V> {
    open spec fn can_resolve_from(&self, node: int) -> bool {
        self.wf() && 0 <= node < self.nodes().len()
    }

    /// The first wiring fault, depth first, met from `node` outside any scope.
    open spec fn fault(&self, node: int, s: ServiceId) -> Option<ResolveError> {
        wiring(self.registry(), None, node, s, Seq::empty(), self.registrations())
    }

    /// The object the registration that answers for `s` produces by its
    /// lifetime, and the provider after building it.
    open spec fn outcome(&self, prev: Self, node: int, s: ServiceId, id: usize) -> bool {
        self.resolves_to(prev, None, node, s, id)
    }

    /// The wiring is checked first; then the object is built or fetched by
    /// the lifetime of the registration that answers for `s`.
    fn resolve(&mut self, node: usize, s: ServiceId) -> (r: Result<usize, ResolveError>) {
        let mut path: Vec<ServiceId> = Vec::new();
        match self.check(None, node, s, &mut path) {
            Some(e) => Err(e),
            None => Ok(self.build(None, node, s, Ghost(Seq::empty()))),
        }
    }
}


impl<V> ServiceProvider<V> {
    /// What `a` yields since `p1` it still yields in any later `b`, and since
    /// any earlier `p0`.
    pub proof fn lemma_yields_mono(
        a: Self,
        b: Self,
        p0: Self,
        p1: Self,
        scope: Option<usize>,
        node: int,
        s: ServiceId,
        y: usize,
        path: Seq<ServiceId>,
        bound: nat,
    )
        requires
            a.wf(),
            b.grows_from(a),
            a.grows_from(p1),
            p1.grows_from(p0),
            a.yields(p1, scope, node, s, y, path, bound),
        ensures
            b.yields(p0, scope, node, s, y, path, bound),
        decreases bound - path.len(), 1nat, 0int,
    {
        lemma_lookup_bounds(p1.registry(), node, s);
        let (n, i) = lookup(p1.registry(), node, s).unwrap();
        if p1.registry()[n].elems[i].source is None {
            Self::lemma_gives_mono(a, b, p0, p1, scope, node, n, i, s, y, path, bound);
        } else {
            assert(b.objects()[y as int] == a.objects()[y as int]);
            Self::lemma_gives_mono(a, b, p0, p1, scope, node, n, i, s, a.objects()[y as int].deps@[0], path, bound);
        }
    }

    /// What registration `i` of registry `n` gives in `a` it still gives in
    /// any later `b`, since any earlier `p0`.
    pub proof fn lemma_gives_mono(
        a: Self,
        b: Self,
        p0: Self,
        p1: Self,
        scope: Option<usize>,
        node: int,
        n: int,
        i: int,
        s: ServiceId,
        y: usize,
        path: Seq<ServiceId>,
        bound: nat,
    )
        requires
            a.wf(),
            b.grows_from(a),
            a.grows_from(p1),
            p1.grows_from(p0),
            0 <= n < p1.registry().len(),
            0 <= i < p1.registry()[n].elems.len(),
            a.gives(p1, scope, node, n, i, s, y, path, bound),
        ensures
            b.gives(p0, scope, node, n, i, s, y, path, bound),
        decreases bound - path.len(), 0nat, 0int,
    {
        let e = p1.registry()[n].elems[i];
        a.lemma_view_at(n);
        match e.lifetime {
            Kind::Singleton => {},
            Kind::Scoped => {
                let k = scope.unwrap() as int;
                let ma = a.scopes()[k].memos@.map_values(|m: ScopedContainerElem| m.service);
                let mb = b.scopes()[k].memos@.map_values(|m: ScopedContainerElem| m.service);
                assert forall|j: int| 0 <= j < ma.len() implies mb[j] == ma[j] by {
                    assert(b.scopes()[k].memos@[j] == a.scopes()[k].memos@[j]);
                }
                lemma_find_first_bounds(ma, s);
                lemma_find_first_prefix(ma, mb, s);
                let f = find_first(ma, s);
                assert(b.scopes()[k].memos@[f] == a.scopes()[k].memos@[f]);
            },
            Kind::ScopedInstance => {
                let k = scope.unwrap() as int;
                assert(b.scopes()[k].instances == a.scopes()[k].instances);
            },
            Kind::Transient => {
                assert(b.objects()[y as int] == a.objects()[y as int]);
                assert forall|j: int| 0 <= j < e.deps.len()
                    implies b.holds((#[trigger] b.objects()[y as int].deps@[j]) as nat, e.deps[j]) by {
                    assert(a.holds(a.objects()[y as int].deps@[j] as nat, e.deps[j]));
                    assert(b.objects()[a.objects()[y as int].deps@[j] as int]
                        == a.objects()[a.objects()[y as int].deps@[j] as int]);
                }
                Self::lemma_deps_mono(a, b, p0, p1, scope, node, y, e.deps, 0, path.push(s), bound);
            },
            Kind::Instance => {},
        }
    }

    /// The dependencies that yield in `a` still yield in any later `b`, since
    /// any earlier `p0`.
    pub proof fn lemma_deps_mono(
        a: Self,
        b: Self,
        p0: Self,
        p1: Self,
        scope: Option<usize>,
        node: int,
        x: usize,
        deps: Seq<ServiceId>,
        j: int,
        path: Seq<ServiceId>,
        bound: nat,
    )
        requires
            a.wf(),
            b.grows_from(a),
            a.grows_from(p1),
            p1.grows_from(p0),
            x < a.objects().len(),
            a.deps_yield(p1, scope, node, x, deps, j, path, bound),
        ensures
            b.deps_yield(p0, scope, node, x, deps, j, path, bound),
        decreases bound - path.len(), 2nat, deps.len() - j,
    {
        if 0 <= j < deps.len() {
            assert(b.objects()[x as int] == a.objects()[x as int]);
            Self::lemma_yields_mono(a, b, p0, p1, scope, node, deps[j], a.objects()[x as int].deps@[j], path, bound);
            Self::lemma_deps_mono(a, b, p0, p1, scope, node, x, deps, j + 1, path, bound);
        }
    }

    /// A dependency of a later object stays one as objects are appended.
    pub proof fn lemma_referenced_mono(a: Self, b: Self, m: int)
        requires
            a.objects().len() <= b.objects().len(),
            forall|j: int| 0 <= j < a.objects().len() ==> b.objects()[j] == a.objects()[j],
            a.referenced(m),
        ensures
            b.referenced(m),
    {
        let (x, q) = choose|x: int, q: int|
            m < x < a.objects().len() && 0 <= q < a.objects()[x].deps@.len() && #[trigger] a.objects()[x].deps@[q]
                == m;
        assert(b.objects()[x] == a.objects()[x]);
        assert(b.objects()[x].deps@[q] == m);
    }

    /// Dependency `t` of a list that yields from `j` on yields.
    pub proof fn lemma_deps_yield_at(
        st: Self,
        prev: Self,
        scope: Option<usize>,
        node: int,
        x: usize,
        deps: Seq<ServiceId>,
        j: int,
        t: int,
        path: Seq<ServiceId>,
        bound: nat,
    )
        requires
            0 <= j <= t < deps.len(),
            st.deps_yield(prev, scope, node, x, deps, j, path, bound),
        ensures
            st.yields(prev, scope, node, deps[t], st.objects()[x as int].deps@[t], path, bound),
        decreases t - j,
    {
        if j < t {
            Self::lemma_deps_yield_at(st, prev, scope, node, x, deps, j + 1, t, path, bound);
        }
    }

    /// Dependencies that each yield, from `j` on, yield as a list.
    pub proof fn lemma_deps_yield_all(
        st: Self,
        prev: Self,
        scope: Option<usize>,
        node: int,
        x: usize,
        deps: Seq<ServiceId>,
        j: int,
        path: Seq<ServiceId>,
        bound: nat,
    )
        requires
            0 <= j <= deps.len(),
            forall|t: int| j <= t < deps.len()
                ==> st.yields(prev, scope, node, deps[t], #[trigger] st.objects()[x as int].deps@[t], path, bound),
        ensures
            st.deps_yield(prev, scope, node, x, deps, j, path, bound),
        decreases deps.len() - j,
    {
        if j < deps.len() {
            Self::lemma_deps_yield_all(st, prev, scope, node, x, deps, j + 1, path, bound);
        }
    }
}

} // verus!

//! The slots a provider registers: one per service, each with a lifetime policy.
use vstd::prelude::*;

use crate::memo::{cell_get, cell_set, cell_value, new_cell};
use crate::ServiceId;

verus! {

/// How often a service is built, and who shares the result.
#[derive(PartialEq, Eq, Structural, Clone, Copy, Debug)]
pub enum Kind {
    /// Built anew on every resolution.
    Transient,
    /// Built once, on first resolution, and shared by the provider and its forks.
    Singleton,
    /// Supplied when registered; never built.
    Instance,
    /// Built once per scope.
    Scoped,
    /// Supplied when a scope is opened; never built.
    ScopedInstance,
}

/// Where a policy keeps the object built for a slot, if anywhere.
pub trait Lifetime: Sized {
    /// The object kept, if any.
    spec fn kept(&self) -> Option<usize>;

    /// Whether this policy keeps what it is handed.
    spec fn keeps() -> bool;

    /// A policy that keeps nothing yet.
    fn new() -> (r: Self)
        ensures
            r.kept() is None,
    ;

    /// The object kept, if any.
    fn get_value(&self) -> (r: Option<usize>)
        ensures
            r == self.kept(),
    ;

    /// Hands `x` to a policy that keeps nothing yet.
    fn keep(&mut self, x: usize)
        requires
            old(self).kept() is None,
        ensures
            final(self).kept() == (if Self::keeps() {
                Some(x)
            } else {
                None
            }),
    ;
}

/// The policy that keeps nothing: each resolution builds anew.
pub struct Transient;

/// The policy that keeps the first object built, in a write-once cell.
pub struct Singleton {
    pub cell: once_cell::sync::OnceCell<usize>,
}

impl Lifetime for Transient {
    open spec fn kept(&self) -> Option<usize> {
        None
    }

    open spec fn keeps() -> bool {
        false
    }

    fn new() -> (r: Self) {
        Transient
    }

    fn get_value(&self) -> (r: Option<usize>) {
        None
    }

    fn keep(&mut self, x: usize) {
    }
}

impl Lifetime for Singleton {
    open spec fn kept(&self) -> Option<usize> {
        cell_value(self.cell)
    }

    open spec fn keeps() -> bool {
        true
    }

    fn new() -> (r: Self) {
        Singleton { cell: new_cell() }
    }

    fn get_value(&self) -> (r: Option<usize>) {
        cell_get(&self.cell)
    }

    fn keep(&mut self, x: usize) {
        let _ = cell_set(&mut self.cell, x);
    }
}

/// A slot kind: what it needs to build the object of its service.
pub trait Container {
    /// The services the object is built from, in order.
    spec fn dependencies(&self) -> Seq<ServiceId>;

    fn dep_count(&self) -> (r: usize)
        ensures
            r == self.dependencies().len(),
    ;

    fn dep(&self, j: usize) -> (r: ServiceId)
        requires
            j < self.dependencies().len(),
        ensures
            r == self.dependencies()[j as int],
    ;
}

/// A slot kind made from data given when it is registered.
pub trait Init: Sized {
    type Data;

    /// `self` is what `init` makes of `data`.
    spec fn made_from(&self, data: Self::Data) -> bool;

    fn init(data: Self::Data) -> (r: Self)
        ensures
            r.made_from(data),
    ;
}

/// A slot that keeps no state: its service is built from its dependencies each time.
pub struct TransientContainer {
    pub deps: Vec<ServiceId>,
    pub lifetime: Transient,
}

/// A slot that builds its service once and keeps the object it built.
pub struct SingletonContainer {
    pub deps: Vec<ServiceId>,
    pub lifetime: Singleton,
}

/// A slot whose object was supplied when it was registered.
pub struct InstanceContainer {
    object: usize,
}

/// A slot built once per scope; the object is kept by the scope.
pub struct ScopedContainer {
    pub deps: Vec<ServiceId>,
}

impl Container for TransientContainer {
    open spec fn dependencies(&self) -> Seq<ServiceId> {
        self.deps@
    }

    fn dep_count(&self) -> (r: usize) {
        self.deps.len()
    }

    fn dep(&self, j: usize) -> (r: ServiceId) {
        self.deps[j]
    }
}

impl Container for SingletonContainer {
    open spec fn dependencies(&self) -> Seq<ServiceId> {
        self.deps@
    }

    fn dep_count(&self) -> (r: usize) {
        self.deps.len()
    }

    fn dep(&self, j: usize) -> (r: ServiceId) {
        self.deps[j]
    }
}

impl Container for ScopedContainer {
    open spec fn dependencies(&self) -> Seq<ServiceId> {
        self.deps@
    }

    fn dep_count(&self) -> (r: usize) {
        self.deps.len()
    }

    fn dep(&self, j: usize) -> (r: ServiceId) {
        self.deps[j]
    }
}

impl Container for InstanceContainer {
    open spec fn dependencies(&self) -> Seq<ServiceId> {
        Seq::empty()
    }

    fn dep_count(&self) -> (r: usize) {
        0
    }

    fn dep(&self, j: usize) -> (r: ServiceId) {
        0
    }
}

impl Init for TransientContainer {
    type Data = Vec<ServiceId>;

    open spec fn made_from(&self, data: Vec<ServiceId>) -> bool {
        self.deps@ == data@
    }

    fn init(data: Vec<ServiceId>) -> (r: Self) {
        TransientContainer { deps: data, lifetime: Transient::new() }
    }
}

impl Init for SingletonContainer {
    type Data = Vec<ServiceId>;

    open spec fn made_from(&self, data: Vec<ServiceId>) -> bool {
        self.deps@ == data@ && self.lifetime.kept() is None
    }

    fn init(data: Vec<ServiceId>) -> (r: Self) {
        SingletonContainer { deps: data, lifetime: Singleton::new() }
    }
}

impl Init for ScopedContainer {
    type Data = Vec<ServiceId>;

    open spec fn made_from(&self, data: Vec<ServiceId>) -> bool {
        self.deps@ == data@
    }

    fn init(data: Vec<ServiceId>) -> (r: Self) {
        ScopedContainer { deps: data }
    }
}

impl Init for InstanceContainer {
    type Data = usize;

    open spec fn made_from(&self, data: usize) -> bool {
        self.object_spec() == data
    }

    fn init(data: usize) -> (r: Self) {
        InstanceContainer { object: data }
    }
}

/// The policy of a slot, with the data that policy needs.
pub enum AnyContainer {
    Transient(TransientContainer),
    Singleton(SingletonContainer),
    Instance(InstanceContainer),
    Scoped(ScopedContainer),
    /// Declares a value that each scope supplies when it is opened.
    ScopedInstance,
}

/// A slot that builds or fetches an object of service `source` through `inner`
/// and hands it out converted to the service it is registered for.
pub struct ConvertContainer {
    pub source: ServiceId,
    pub inner: AnyContainer,
}

/// A slot as registered: directly, or through a conversion.
pub enum Slot {
    Direct(AnyContainer),
    Convert(ConvertContainer),
}

/// An element of a list searched by service: it answers for one service.
pub trait ContainerElem {
    /// The service this element answers for.
    spec fn answers(&self) -> ServiceId;

    fn service_id(&self) -> (r: ServiceId)
        ensures
            r == self.answers(),
    ;
}

/// One registration of a provider: the service it answers for and its slot.
pub struct Registration {
    pub service: ServiceId,
    pub slot: Slot,
}

/// What wiring and resolution read of a registration; memo cells are left out.
pub struct ElemView {
    pub service: ServiceId,
    pub lifetime: Kind,
    pub deps: Seq<ServiceId>,
    pub object: nat,
    pub source: Option<ServiceId>,
}

impl InstanceContainer {
    pub closed spec fn object_spec(&self) -> nat {
        self.object as nat
    }

    /// The object that was supplied for this slot.
    pub fn get(&self) -> (r: usize)
        ensures
            r == self.object_spec(),
    {
        self.object
    }
}

impl AnyContainer {
    pub open spec fn lifetime(&self) -> Kind {
        match self {
            AnyContainer::Transient(_) => Kind::Transient,
            AnyContainer::Singleton(_) => Kind::Singleton,
            AnyContainer::Instance(_) => Kind::Instance,
            AnyContainer::Scoped(_) => Kind::Scoped,
            AnyContainer::ScopedInstance => Kind::ScopedInstance,
        }
    }

    /// The dependency list of the service this container builds.
    pub open spec fn deps(&self) -> Seq<ServiceId> {
        match self {
            AnyContainer::Transient(c) => c.deps@,
            AnyContainer::Singleton(c) => c.deps@,
            AnyContainer::Scoped(c) => c.deps@,
            _ => Seq::empty(),
        }
    }

    pub open spec fn object(&self) -> nat {
        match self {
            AnyContainer::Instance(c) => c.object_spec(),
            _ => 0,
        }
    }

    /// The object a singleton container has built, if any.
    pub open spec fn memo(&self) -> Option<usize> {
        match self {
            AnyContainer::Singleton(c) => c.lifetime.kept(),
            _ => None,
        }
    }

    /// The object memoised by a singleton container, read from its cell.
    pub fn memoised(&self) -> (r: Option<usize>)
        ensures
            r == self.memo(),
    {
        match self {
            AnyContainer::Singleton(c) => c.lifetime.get_value(),
            _ => None,
        }
    }
}

impl Container for AnyContainer {
    open spec fn dependencies(&self) -> Seq<ServiceId> {
        self.deps()
    }

    fn dep_count(&self) -> (r: usize) {
        match self {
            AnyContainer::Transient(c) => c.dep_count(),
            AnyContainer::Singleton(c) => c.dep_count(),
            AnyContainer::Instance(c) => c.dep_count(),
            AnyContainer::Scoped(c) => c.dep_count(),
            AnyContainer::ScopedInstance => 0,
        }
    }

    fn dep(&self, j: usize) -> (r: ServiceId) {
        match self {
            AnyContainer::Transient(c) => c.dep(j),
            AnyContainer::Singleton(c) => c.dep(j),
            AnyContainer::Instance(c) => c.dep(j),
            AnyContainer::Scoped(c) => c.dep(j),
            AnyContainer::ScopedInstance => 0,
        }
    }
}

impl AnyContainer {
    /// The object of an instance container.
    pub fn instance_object(&self) -> (r: usize)
        requires
            self.lifetime() == Kind::Instance,
        ensures
            r == self.object(),
    {
        match self {
            AnyContainer::Instance(c) => c.get(),
            _ => 0,
        }
    }

    pub fn kind(&self) -> (r: Kind)
        ensures
            r == self.lifetime(),
    {
        match self {
            AnyContainer::Transient(_) => Kind::Transient,
            AnyContainer::Singleton(_) => Kind::Singleton,
            AnyContainer::Instance(_) => Kind::Instance,
            AnyContainer::Scoped(_) => Kind::Scoped,
            AnyContainer::ScopedInstance => Kind::ScopedInstance,
        }
    }
}

impl ConvertContainer {
    /// The container that builds or fetches the unconverted object.
    pub fn get(&self) -> (r: &AnyContainer)
        ensures
            r == &self.inner,
    {
        &self.inner
    }
}

impl Slot {
    pub open spec fn container(&self) -> &AnyContainer {
        match self {
            Slot::Direct(c) => c,
            Slot::Convert(c) => &c.inner,
        }
    }

    pub open spec fn source(&self) -> Option<ServiceId> {
        match self {
            Slot::Direct(_) => None,
            Slot::Convert(c) => Some(c.source),
        }
    }

    pub fn get(&self) -> (r: &AnyContainer)
        ensures
            r == self.container(),
    {
        match self {
            Slot::Direct(c) => c,
            Slot::Convert(c) => c.get(),
        }
    }

    /// Stores `x` in the memo cell of an empty singleton slot.
    pub fn remember(&mut self, x: usize)
        requires
            old(self).container().lifetime() == Kind::Singleton,
            old(self).container().memo() is None,
        ensures
            final(self).container().lifetime() == old(self).container().lifetime(),
            final(self).container().deps() == old(self).container().deps(),
            final(self).container().object() == old(self).container().object(),
            final(self).source() == old(self).source(),
            final(self).container().memo() == Some(x),
    {
        match self {
            Slot::Direct(AnyContainer::Singleton(c)) => {
                c.lifetime.keep(x);
            },
            Slot::Convert(ConvertContainer { inner: AnyContainer::Singleton(c), .. }) => {
                c.lifetime.keep(x);
            },
            _ => {},
        }
    }

    /// The service a converting slot builds before converting, if it converts.
    pub fn converts_from(&self) -> (r: Option<ServiceId>)
        ensures
            r == self.source(),
    {
        match self {
            Slot::Direct(_) => None,
            Slot::Convert(c) => Some(c.source),
        }
    }
}

impl ContainerElem for Registration {
    open spec fn answers(&self) -> ServiceId {
        self.service
    }

    fn service_id(&self) -> (r: ServiceId) {
        self.service
    }
}

impl Registration {
    pub open spec fn view(&self) -> ElemView {
        ElemView {
            service: self.service,
            lifetime: self.slot.container().lifetime(),
            deps: self.slot.container().deps(),
            object: self.slot.container().object(),
            source: self.slot.source(),
        }
    }
}

} // verus!

//! A dependency-injection container. Services are registered in a provider
//! under a lifetime policy (transient, singleton, instance, scoped, or one
//! of these through a conversion), each with the list of services it is
//! built from. Resolving a service checks that everything it needs is
//! registered and that nothing depends on itself, then builds, depth first,
//! what the policies call for. Built objects live in the provider, and an
//! object's index is its identity. A provider can be forked: the fork sees
//! every registration of its parent, and its own registrations come first.
//! Scopes opened on a registry hold the values supplied for them and the
//! scoped objects they have built.
use vstd::prelude::*;

pub mod container;
pub mod laws;
pub mod memo;
pub mod names;
pub mod service_provider;

pub use container::{
    AnyContainer, Container, ContainerElem, ConvertContainer, Init, InstanceContainer,
    Kind, Lifetime, Registration, ScopedContainer, Singleton, SingletonContainer, Slot, Transient,
    TransientContainer,
};
pub use names::name_generator;
pub use service_provider::{
    Dependency, Node, Object, ResolveError, Resolver, Scope, ScopeError, ScopedContainerElem,
    ScopedInstanceContainer, SelectContainer, ServiceProvider, ROOT,
};

verus! {

/// Identity of a registered service type.
pub type ServiceId = usize;

} // verus!

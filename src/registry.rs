use vstd::prelude::*;

verus! {

/// How a registered type is stored in a world.
#[derive(Clone, Copy, Debug, PartialEq, Eq, Structural)]
pub enum TypeKind {
    /// Stored per entity.
    Component,
    /// Stored once, as a global singleton.
    Resource,
    /// Known to the registry, but neither captured nor restored by itself.
    Dependency,
}

/// What the registry knows of one type.
#[derive(Clone, Copy, Debug, PartialEq, Eq, Structural)]
pub struct Registration {
    pub type_id: u32,
    pub kind: TypeKind,
    /// Whether values of this type take part in the checksum.
    pub hashable: bool,
    /// Whether values of this type hold references to entities that must be remapped on restore.
    pub maps_entities: bool,
}

/// The catalog of types that capture and restore act on, built during setup.
pub struct TypeRegistry {
    pub registrations: Vec<Registration>,
}

pub open spec fn has_kind(reg: Seq<Registration>, type_id: u32, kind: TypeKind) -> bool {
    exists|i: int| 0 <= i < reg.len() && reg[i].type_id == type_id && reg[i].kind == kind
}

pub open spec fn is_component(reg: Seq<Registration>, type_id: u32) -> bool {
    has_kind(reg, type_id, TypeKind::Component)
}

pub open spec fn is_resource(reg: Seq<Registration>, type_id: u32) -> bool {
    has_kind(reg, type_id, TypeKind::Resource)
}

pub open spec fn is_hashable(reg: Seq<Registration>, type_id: u32) -> bool {
    exists|i: int| 0 <= i < reg.len() && reg[i].type_id == type_id && reg[i].hashable
}

pub open spec fn maps_entities(reg: Seq<Registration>, type_id: u32) -> bool {
    exists|i: int| 0 <= i < reg.len() && reg[i].type_id == type_id && reg[i].maps_entities
}

pub open spec fn is_registered(reg: Seq<Registration>, type_id: u32) -> bool {
    exists|i: int| 0 <= i < reg.len() && reg[i].type_id == type_id
}

impl TypeRegistry {
    /// Whether the type is known to the registry, whatever its kind.
    pub fn contains(&self, type_id: u32) -> (r: bool)
        ensures
            r == is_registered(self.registrations@, type_id),
    {
        let mut i: usize = 0;
        while i < self.registrations.len()
            invariant
                i <= self.registrations.len(),
                forall|j: int| 0 <= j < i ==> self.registrations@[j].type_id != type_id,
            decreases self.registrations.len() - i,
        {
            if self.registrations[i].type_id == type_id {
                return true;
            }
            i = i + 1;
        }
        false
    }

    pub fn new() -> (r: TypeRegistry)
        ensures
            r.registrations@ == Seq::<Registration>::empty(),
    {
        TypeRegistry { registrations: Vec::new() }
    }

    /// Adds a type to the catalog.
    pub fn register(&mut self, type_id: u32, kind: TypeKind, hashable: bool, maps_entities: bool)
        ensures
            final(self).registrations@ == old(self).registrations@.push(
                Registration { type_id, kind, hashable, maps_entities },
            ),
    {
        self.registrations.push(Registration { type_id, kind, hashable, maps_entities });
    }

    /// Registers a type of component for saving and loading during rollbacks.
    pub fn register_rollback_component(&mut self, type_id: u32, hashable: bool, maps_entities: bool)
        ensures
            final(self).registrations@ == old(self).registrations@.push(
                Registration { type_id, kind: TypeKind::Component, hashable, maps_entities },
            ),
    {
        self.register(type_id, TypeKind::Component, hashable, maps_entities);
    }

    /// Registers a type of resource for saving and loading during rollbacks.
    pub fn register_rollback_resource(&mut self, type_id: u32, hashable: bool, maps_entities: bool)
        ensures
            final(self).registrations@ == old(self).registrations@.push(
                Registration { type_id, kind: TypeKind::Resource, hashable, maps_entities },
            ),
    {
        self.register(type_id, TypeKind::Resource, hashable, maps_entities);
    }

    /// Registers a type that registered components or resources are built from.
    pub fn register_type_dependency(&mut self, type_id: u32, hashable: bool, maps_entities: bool)
        ensures
            final(self).registrations@ == old(self).registrations@.push(
                Registration { type_id, kind: TypeKind::Dependency, hashable, maps_entities },
            ),
    {
        self.register(type_id, TypeKind::Dependency, hashable, maps_entities);
    }

    pub fn component_registered(&self, type_id: u32) -> (r: bool)
        ensures
            r == is_component(self.registrations@, type_id),
    {
        self.kind_registered(type_id, TypeKind::Component)
    }

    pub fn resource_registered(&self, type_id: u32) -> (r: bool)
        ensures
            r == is_resource(self.registrations@, type_id),
    {
        self.kind_registered(type_id, TypeKind::Resource)
    }

    pub fn kind_registered(&self, type_id: u32, kind: TypeKind) -> (r: bool)
        ensures
            r == has_kind(self.registrations@, type_id, kind),
    {
        let mut i: usize = 0;
        while i < self.registrations.len()
            invariant
                i <= self.registrations.len(),
                forall|j: int|
                    0 <= j < i ==> !(self.registrations@[j].type_id == type_id
                        && self.registrations@[j].kind == kind),
            decreases self.registrations.len() - i,
        {
            let g = self.registrations[i];
            if g.type_id == type_id && g.kind == kind {
                return true;
            }
            i = i + 1;
        }
        false
    }

    pub fn hash_supported(&self, type_id: u32) -> (r: bool)
        ensures
            r == is_hashable(self.registrations@, type_id),
    {
        let mut i: usize = 0;
        while i < self.registrations.len()
            invariant
                i <= self.registrations.len(),
                forall|j: int|
                    0 <= j < i ==> !(self.registrations@[j].type_id == type_id
                        && self.registrations@[j].hashable),
            decreases self.registrations.len() - i,
        {
            let g = self.registrations[i];
            if g.type_id == type_id && g.hashable {
                return true;
            }
            i = i + 1;
        }
        false
    }

    pub fn entity_mapping(&self, type_id: u32) -> (r: bool)
        ensures
            r == maps_entities(self.registrations@, type_id),
    {
        let mut i: usize = 0;
        while i < self.registrations.len()
            invariant
                i <= self.registrations.len(),
                forall|j: int|
                    0 <= j < i ==> !(self.registrations@[j].type_id == type_id
                        && self.registrations@[j].maps_entities),
            decreases self.registrations.len() - i,
        {
            let g = self.registrations[i];
            if g.type_id == type_id && g.maps_entities {
                return true;
            }
            i = i + 1;
        }
        false
    }
}

} // verus!

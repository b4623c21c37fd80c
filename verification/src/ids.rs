//! Typed arena indices: every arena element is named by an index type of
//! its own, so indices into different arenas cannot be mixed up.

use vstd::prelude::*;

verus! {

/// An index type of an arena: a newtype around the element's position.
pub trait ArenaId: Sized + Copy {
    spec fn spec_index(self) -> nat;

    fn from_index(i: u32) -> (id: Self)
        ensures
            id.spec_index() == i as nat,
    ;

    fn index(self) -> (i: u32)
        ensures
            i as nat == self.spec_index(),
    ;
}


/// The index of an element in its arena.
#[derive(Debug, Clone, Copy, PartialEq, Eq, Hash, Structural)]
pub struct StructId(pub u32);

impl ArenaId for StructId {
    open spec fn spec_index(self) -> nat {
        self.0 as nat
    }

    fn from_index(i: u32) -> (id: Self) {
        StructId(i)
    }

    fn index(self) -> (i: u32) {
        self.0
    }
}

/// The index of an element in its arena.
#[derive(Debug, Clone, Copy, PartialEq, Eq, Hash, Structural)]
pub struct UnionId(pub u32);

impl ArenaId for UnionId {
    open spec fn spec_index(self) -> nat {
        self.0 as nat
    }

    fn from_index(i: u32) -> (id: Self) {
        UnionId(i)
    }

    fn index(self) -> (i: u32) {
        self.0
    }
}

/// The index of an element in its arena.
#[derive(Debug, Clone, Copy, PartialEq, Eq, Hash, Structural)]
pub struct ConstId(pub u32);

impl ArenaId for ConstId {
    open spec fn spec_index(self) -> nat {
        self.0 as nat
    }

    fn from_index(i: u32) -> (id: Self) {
        ConstId(i)
    }

    fn index(self) -> (i: u32) {
        self.0
    }
}

/// The index of an element in its arena.
#[derive(Debug, Clone, Copy, PartialEq, Eq, Hash, Structural)]
pub struct GlobalId(pub u32);

impl ArenaId for GlobalId {
    open spec fn spec_index(self) -> nat {
        self.0 as nat
    }

    fn from_index(i: u32) -> (id: Self) {
        GlobalId(i)
    }

    fn index(self) -> (i: u32) {
        self.0
    }
}

/// The index of an element in its arena.
#[derive(Debug, Clone, Copy, PartialEq, Eq, Hash, Structural)]
pub struct EnumId(pub u32);

impl ArenaId for EnumId {
    open spec fn spec_index(self) -> nat {
        self.0 as nat
    }

    fn from_index(i: u32) -> (id: Self) {
        EnumId(i)
    }

    fn index(self) -> (i: u32) {
        self.0
    }
}

/// The index of an element in its arena.
#[derive(Debug, Clone, Copy, PartialEq, Eq, Hash, Structural)]
pub struct OpaqueId(pub u32);

impl ArenaId for OpaqueId {
    open spec fn spec_index(self) -> nat {
        self.0 as nat
    }

    fn from_index(i: u32) -> (id: Self) {
        OpaqueId(i)
    }

    fn index(self) -> (i: u32) {
        self.0
    }
}

/// The index of an element in its arena.
#[derive(Debug, Clone, Copy, PartialEq, Eq, Hash, Structural)]
pub struct FnId(pub u32);

impl ArenaId for FnId {
    open spec fn spec_index(self) -> nat {
        self.0 as nat
    }

    fn from_index(i: u32) -> (id: Self) {
        FnId(i)
    }

    fn index(self) -> (i: u32) {
        self.0
    }
}

/// The index of an element in its arena.
#[derive(Debug, Clone, Copy, PartialEq, Eq, Hash, Structural)]
pub struct FieldId(pub u32);

impl ArenaId for FieldId {
    open spec fn spec_index(self) -> nat {
        self.0 as nat
    }

    fn from_index(i: u32) -> (id: Self) {
        FieldId(i)
    }

    fn index(self) -> (i: u32) {
        self.0
    }
}

/// The index of an element in its arena.
#[derive(Debug, Clone, Copy, PartialEq, Eq, Hash, Structural)]
pub struct ExprId(pub u32);

impl ArenaId for ExprId {
    open spec fn spec_index(self) -> nat {
        self.0 as nat
    }

    fn from_index(i: u32) -> (id: Self) {
        ExprId(i)
    }

    fn index(self) -> (i: u32) {
        self.0
    }
}

/// The index of an element in its arena.
#[derive(Debug, Clone, Copy, PartialEq, Eq, Hash, Structural)]
pub struct StmtId(pub u32);

impl ArenaId for StmtId {
    open spec fn spec_index(self) -> nat {
        self.0 as nat
    }

    fn from_index(i: u32) -> (id: Self) {
        StmtId(i)
    }

    fn index(self) -> (i: u32) {
        self.0
    }
}

/// The index of an element in its arena.
#[derive(Debug, Clone, Copy, PartialEq, Eq, Hash, Structural)]
pub struct PatId(pub u32);

impl ArenaId for PatId {
    open spec fn spec_index(self) -> nat {
        self.0 as nat
    }

    fn from_index(i: u32) -> (id: Self) {
        PatId(i)
    }

    fn index(self) -> (i: u32) {
        self.0
    }
}

/// The index of an element in its arena.
#[derive(Debug, Clone, Copy, PartialEq, Eq, Hash, Structural)]
pub struct LocalId(pub u32);

impl ArenaId for LocalId {
    open spec fn spec_index(self) -> nat {
        self.0 as nat
    }

    fn from_index(i: u32) -> (id: Self) {
        LocalId(i)
    }

    fn index(self) -> (i: u32) {
        self.0
    }
}

/// The index of an element in its arena.
#[derive(Debug, Clone, Copy, PartialEq, Eq, Hash, Structural)]
pub struct LocalConstId(pub u32);

impl ArenaId for LocalConstId {
    open spec fn spec_index(self) -> nat {
        self.0 as nat
    }

    fn from_index(i: u32) -> (id: Self) {
        LocalConstId(i)
    }

    fn index(self) -> (i: u32) {
        self.0
    }
}

/// The index of an element in its arena.
#[derive(Debug, Clone, Copy, PartialEq, Eq, Hash, Structural)]
pub struct BlockId(pub u32);

impl ArenaId for BlockId {
    open spec fn spec_index(self) -> nat {
        self.0 as nat
    }

    fn from_index(i: u32) -> (id: Self) {
        BlockId(i)
    }

    fn index(self) -> (i: u32) {
        self.0
    }
}

/// The index of an element in its arena.
#[derive(Debug, Clone, Copy, PartialEq, Eq, Hash, Structural)]
pub struct BodyId(pub u32);

impl ArenaId for BodyId {
    open spec fn spec_index(self) -> nat {
        self.0 as nat
    }

    fn from_index(i: u32) -> (id: Self) {
        BodyId(i)
    }

    fn index(self) -> (i: u32) {
        self.0
    }
}

} // verus!

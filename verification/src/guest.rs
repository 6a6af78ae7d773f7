//! What the engines that run a guest hold, as contracts speak of it.

use vstd::prelude::*;

use crate::imports::Import;
use crate::state::{HostState, HostView};

verus! {

/// A linker: the engine it belongs to, and the imports it defines, each under
/// its module and name, with its types, and answered by the host.
pub struct LinkerView {
    pub engine: int,
    pub imports: Set<Import>,
}

/// A compiled module: the engine it was compiled for, and the bytes it was
/// compiled from.
pub struct ModuleView {
    pub engine: int,
    pub wasm: Seq<u8>,
}

/// A store: the engine it belongs to, the number that tells it from every other
/// store, the host's state inside it, and what its guest keeps from one call to the
/// next: memories, tables and globals, laid out as numbers.
pub struct StoreView {
    pub engine: int,
    pub id: int,
    pub state: HostState,
    pub guest: Seq<int>,
}

impl StoreView {
    /// What the host and its guest keep.
    pub open spec fn world(self) -> World {
        World { host: self.state@, guest: self.guest }
    }
}

/// What a host and its guest keep from one call to the next.
#[verifier::ext_equal]
pub struct World {
    pub host: HostView,
    pub guest: Seq<int>,
}

/// A running module: the store it lives in, and the bytes it was compiled from.
pub struct InstanceView {
    pub store: int,
    pub wasm: Seq<u8>,
}

/// The caller of an import: the bytes of each memory that the guest exports, under its
/// name, and the host's state.
pub struct CallerView {
    pub memories: Map<Seq<char>, Seq<u8>>,
    pub state: HostState,
}

impl CallerView {
    /// The memory that the guest exports under a name, if it does.
    pub open spec fn memory(self, name: Seq<char>) -> Option<Seq<u8>> {
        if self.memories.contains_key(name) {
            Some(self.memories[name])
        } else {
            None
        }
    }
}

/// A host: the bytes of its guest, the systems that a tick runs, its state, and what
/// the guest keeps.
#[verifier::ext_equal]
pub struct GuestView {
    pub wasm: Seq<u8>,
    pub systems: Seq<Seq<char>>,
    pub state: HostView,
    pub memory: Seq<int>,
}

impl GuestView {
    /// What the host and its guest keep.
    pub open spec fn world(self) -> World {
        World { host: self.state, guest: self.memory }
    }

    /// The same guest with something else kept.
    pub open spec fn at(self, world: World) -> GuestView {
        GuestView { state: world.host, memory: world.guest, ..self }
    }

    /// The same guest with the host in another state.
    pub open spec fn with_state(self, state: HostView) -> GuestView {
        GuestView { state, ..self }
    }
}

/// The answer of a guest's function: a number, unless it was stopped.
pub open spec fn answer_of<E>(r: Result<i64, E>) -> Option<i64> {
    match r {
        Ok(x) => Some(x),
        Err(_) => None,
    }
}

} // verus!

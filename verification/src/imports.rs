//! The functions that a guest can import, and their calls.

use vstd::prelude::*;

verus! {

/// An imported function.
#[derive(Clone, Copy, Debug, PartialEq, Eq, Structural)]
pub enum Import {
    Spawn,
    Despawn,
    SetPosition,
    SetVelocity,
    GetX,
    GetY,
    CountTagged,
    QueryBegin,
    QueryNext,
    Nearest,
    MoveToward,
    Axis,
    RandomInt,
    Tick,
}

/// The type of a value that crosses between guest and host.
#[derive(Clone, Copy, Debug, PartialEq, Eq, Structural)]
pub enum Kind {
    I32,
    I64,
    F32,
}

/// A value that crosses between guest and host; a number with a fraction as its
/// bit pattern.
#[derive(Clone, Copy, Debug, PartialEq, Eq, Structural)]
pub enum Value {
    I32(i32),
    I64(i64),
    F32(u32),
}

/// A call of an imported function. Texts come as a place in the guest's memory.
#[derive(Clone, Copy, Debug, PartialEq, Eq, Structural)]
pub enum HostCall {
    Spawn { ptr: i32, len: i32 },
    Despawn { eid: i64 },
    SetPosition { eid: i64, x: u32, y: u32, z: u32 },
    SetVelocity { eid: i64, x: u32, y: u32, z: u32 },
    GetX { eid: i64 },
    GetY { eid: i64 },
    CountTagged { ptr: i32, len: i32 },
    QueryBegin { ptr: i32, len: i32 },
    QueryNext { handle: i64 },
    Nearest { ptr: i32, len: i32, x: u32, y: u32, reach: u32 },
    MoveToward { eid: i64, target: i64, speed: u32 },
    Axis { ptr: i32, len: i32 },
    RandomInt { n: i64 },
    Tick,
}

impl Kind {
    /// Whether a value is of this type.
    pub open spec fn admits(self, v: Value) -> bool {
        match self {
            Kind::I32 => v is I32,
            Kind::I64 => v is I64,
            Kind::F32 => v is F32,
        }
    }
}

/// Whether values are of the types of a signature, one by one.
pub open spec fn matches_kinds(kinds: Seq<Kind>, args: Seq<Value>) -> bool {
    &&& args.len() == kinds.len()
    &&& forall|i: int| 0 <= i < args.len() ==> (#[trigger] kinds[i]).admits(args[i])
}

impl Import {
    /// Every import that a guest can ask for.
    pub open spec fn all() -> Set<Import> {
        Import::scene().union(Import::input()).union(Import::random()).union(Import::time())
    }

    pub open spec fn scene() -> Set<Import> {
        set![
            Import::Spawn,
            Import::Despawn,
            Import::SetPosition,
            Import::SetVelocity,
            Import::GetX,
            Import::GetY,
            Import::CountTagged,
            Import::QueryBegin,
            Import::QueryNext,
            Import::Nearest,
            Import::MoveToward,
        ]
    }

    /// The imports that deal with entities.
    pub fn scene_list() -> (r: Vec<Import>)
        ensures
            r@.to_set() == Import::scene(),
            r@.no_duplicates(),
    {
        let r: Vec<Import> = vec![
            Import::Spawn,
            Import::Despawn,
            Import::SetPosition,
            Import::SetVelocity,
            Import::GetX,
            Import::GetY,
            Import::CountTagged,
            Import::QueryBegin,
            Import::QueryNext,
            Import::Nearest,
            Import::MoveToward,
        ];
        proof {
            assert(r@[0] is Spawn && r@[1] is Despawn && r@[2] is SetPosition);
            assert(r@[3] is SetVelocity && r@[4] is GetX && r@[5] is GetY);
            assert(r@[6] is CountTagged && r@[7] is QueryBegin && r@[8] is QueryNext);
            assert(r@[9] is Nearest && r@[10] is MoveToward);
            assert(r@.to_set() =~= Import::scene());
        }
        r
    }

    pub open spec fn input() -> Set<Import> {
        set![Import::Axis]
    }

    pub open spec fn random() -> Set<Import> {
        set![Import::RandomInt]
    }

    pub open spec fn time() -> Set<Import> {
        set![Import::Tick]
    }

    /// The name of the module that a guest imports the function from.
    pub open spec fn module_text(self) -> Seq<char> {
        match self {
            Import::Axis => "kami:engine/input@1.0.0"@,
            Import::RandomInt => "kami:engine/random@1.0.0"@,
            Import::Tick => "kami:engine/time@1.0.0"@,
            _ => "kami:engine/scene@1.0.0"@,
        }
    }

    /// The name of the module that a guest imports the function from.
    pub fn module(self) -> (r: &'static str)
        ensures
            r@ == self.module_text(),
    {
        match self {
            Import::Axis => "kami:engine/input@1.0.0",
            Import::RandomInt => "kami:engine/random@1.0.0",
            Import::Tick => "kami:engine/time@1.0.0",
            _ => "kami:engine/scene@1.0.0",
        }
    }

    /// The name of the function within its module.
    pub open spec fn name_text(self) -> Seq<char> {
        match self {
            Import::Spawn => "spawn"@,
            Import::Despawn => "despawn"@,
            Import::SetPosition => "set-position"@,
            Import::SetVelocity => "set-velocity"@,
            Import::GetX => "get-x"@,
            Import::GetY => "get-y"@,
            Import::CountTagged => "count-tagged"@,
            Import::QueryBegin => "query-begin"@,
            Import::QueryNext => "query-next"@,
            Import::Nearest => "nearest"@,
            Import::MoveToward => "move-toward"@,
            Import::Axis => "axis"@,
            Import::RandomInt => "int"@,
            Import::Tick => "tick"@,
        }
    }

    /// The name of the function within its module.
    pub fn name(self) -> (r: &'static str)
        ensures
            r@ == self.name_text(),
    {
        match self {
            Import::Spawn => "spawn",
            Import::Despawn => "despawn",
            Import::SetPosition => "set-position",
            Import::SetVelocity => "set-velocity",
            Import::GetX => "get-x",
            Import::GetY => "get-y",
            Import::CountTagged => "count-tagged",
            Import::QueryBegin => "query-begin",
            Import::QueryNext => "query-next",
            Import::Nearest => "nearest",
            Import::MoveToward => "move-toward",
            Import::Axis => "axis",
            Import::RandomInt => "int",
            Import::Tick => "tick",
        }
    }

    /// The types of the arguments.
    pub open spec fn param_kinds(self) -> Seq<Kind> {
        match self {
            Import::Spawn | Import::CountTagged | Import::QueryBegin | Import::Axis => seq![
                Kind::I32,
                Kind::I32,
            ],
            Import::Despawn
            | Import::GetX
            | Import::GetY
            | Import::QueryNext
            | Import::RandomInt => seq![Kind::I64],
            Import::SetPosition | Import::SetVelocity => seq![
                Kind::I64,
                Kind::F32,
                Kind::F32,
                Kind::F32,
            ],
            Import::Nearest => seq![Kind::I32, Kind::I32, Kind::F32, Kind::F32, Kind::F32],
            Import::MoveToward => seq![Kind::I64, Kind::I64, Kind::F32],
            Import::Tick => seq![],
        }
    }

    /// The types of the arguments.
    pub fn params(self) -> (r: Vec<Kind>)
        ensures
            r@ == self.param_kinds(),
    {
        match self {
            Import::Spawn | Import::CountTagged | Import::QueryBegin | Import::Axis => vec![
                Kind::I32,
                Kind::I32,
            ],
            Import::Despawn
            | Import::GetX
            | Import::GetY
            | Import::QueryNext
            | Import::RandomInt => vec![Kind::I64],
            Import::SetPosition | Import::SetVelocity => vec![
                Kind::I64,
                Kind::F32,
                Kind::F32,
                Kind::F32,
            ],
            Import::Nearest => vec![Kind::I32, Kind::I32, Kind::F32, Kind::F32, Kind::F32],
            Import::MoveToward => vec![Kind::I64, Kind::I64, Kind::F32],
            Import::Tick => vec![],
        }
    }

    /// The type of the result, if there is one.
    pub open spec fn result_kinds(self) -> Seq<Kind> {
        match self {
            Import::Despawn | Import::SetPosition | Import::SetVelocity | Import::MoveToward => seq![],
            Import::GetX | Import::GetY | Import::Axis => seq![Kind::F32],
            _ => seq![Kind::I64],
        }
    }

    /// The type of the result, if there is one.
    pub fn results(self) -> (r: Vec<Kind>)
        ensures
            r@ == self.result_kinds(),
    {
        match self {
            Import::Despawn | Import::SetPosition | Import::SetVelocity | Import::MoveToward => vec![],
            Import::GetX | Import::GetY | Import::Axis => vec![Kind::F32],
            _ => vec![Kind::I64],
        }
    }
}

/// Whether each of some functions, given by module and name, is one of some imports.
pub open spec fn all_among(names: Set<(Seq<char>, Seq<char>)>, imports: Set<Import>) -> bool {
    forall|module: Seq<char>, name: Seq<char>| #[trigger]
        names.contains((module, name)) ==> exists|import: Import|
            {
                &&& #[trigger] imports.contains(import)
                &&& import.module_text() == module
                &&& import.name_text() == name
            }
}

/// One import as a list and as a set.
pub(crate) proof fn lemma_single(import: Import, list: Seq<Import>)
    requires
        list.len() == 1,
        list[0] == import,
    ensures
        list.to_set() == set![import],
        list.no_duplicates(),
{
    assert(list.to_set() =~= set![import]);
}

/// The call that an import and arguments of its types make.
pub open spec fn call_of(import: Import, args: Seq<Value>) -> HostCall {
    match import {
        Import::Spawn => HostCall::Spawn { ptr: args[0]->I32_0, len: args[1]->I32_0 },
        Import::Despawn => HostCall::Despawn { eid: args[0]->I64_0 },
        Import::SetPosition => HostCall::SetPosition {
            eid: args[0]->I64_0,
            x: args[1]->F32_0,
            y: args[2]->F32_0,
            z: args[3]->F32_0,
        },
        Import::SetVelocity => HostCall::SetVelocity {
            eid: args[0]->I64_0,
            x: args[1]->F32_0,
            y: args[2]->F32_0,
            z: args[3]->F32_0,
        },
        Import::GetX => HostCall::GetX { eid: args[0]->I64_0 },
        Import::GetY => HostCall::GetY { eid: args[0]->I64_0 },
        Import::CountTagged => HostCall::CountTagged { ptr: args[0]->I32_0, len: args[1]->I32_0 },
        Import::QueryBegin => HostCall::QueryBegin { ptr: args[0]->I32_0, len: args[1]->I32_0 },
        Import::QueryNext => HostCall::QueryNext { handle: args[0]->I64_0 },
        Import::Nearest => HostCall::Nearest {
            ptr: args[0]->I32_0,
            len: args[1]->I32_0,
            x: args[2]->F32_0,
            y: args[3]->F32_0,
            reach: args[4]->F32_0,
        },
        Import::MoveToward => HostCall::MoveToward {
            eid: args[0]->I64_0,
            target: args[1]->I64_0,
            speed: args[2]->F32_0,
        },
        Import::Axis => HostCall::Axis { ptr: args[0]->I32_0, len: args[1]->I32_0 },
        Import::RandomInt => HostCall::RandomInt { n: args[0]->I64_0 },
        Import::Tick => HostCall::Tick,
    }
}

/// The call that an import and its arguments make, if they are of its types.
pub open spec fn decoded(import: Import, args: Seq<Value>) -> Option<HostCall> {
    if matches_kinds(import.param_kinds(), args) {
        Some(call_of(import, args))
    } else {
        None
    }
}

fn of_kind(kind: Kind, v: Value) -> (r: bool)
    ensures
        r == kind.admits(v),
{
    match (kind, v) {
        (Kind::I32, Value::I32(_)) => true,
        (Kind::I64, Value::I64(_)) => true,
        (Kind::F32, Value::F32(_)) => true,
        _ => false,
    }
}

fn int32(v: Value) -> (r: i32)
    requires
        v is I32,
    ensures
        r == v->I32_0,
{
    match v {
        Value::I32(x) => x,
        _ => 0,
    }
}

fn int64(v: Value) -> (r: i64)
    requires
        v is I64,
    ensures
        r == v->I64_0,
{
    match v {
        Value::I64(x) => x,
        _ => 0,
    }
}

fn bits(v: Value) -> (r: u32)
    requires
        v is F32,
    ensures
        r == v->F32_0,
{
    match v {
        Value::F32(x) => x,
        _ => 0,
    }
}

/// Whether values are of the types of a signature, one by one.
fn check_kinds(kinds: &Vec<Kind>, args: &[Value]) -> (r: bool)
    ensures
        r == matches_kinds(kinds@, args@),
{
    if kinds.len() != args.len() {
        return false;
    }
    let mut i: usize = 0;
    while i < args.len()
        invariant
            i <= args.len(),
            kinds.len() == args.len(),
            forall|k: int| 0 <= k < i ==> (#[trigger] kinds@[k]).admits(args@[k]),
        decreases args.len() - i,
    {
        if !of_kind(kinds[i], args[i]) {
            assert(!kinds@[i as int].admits(args@[i as int]));
            return false;
        }
        i = i + 1;
    }
    true
}

/// The call that an import and its arguments make, if they are of its types.
pub fn decode(import: Import, args: &[Value]) -> (r: Option<HostCall>)
    ensures
        r == decoded(import, args@),
{
    let kinds: Vec<Kind> = import.params();
    if !check_kinds(&kinds, args) {
        return None;
    }
    assert(forall|k: int| 0 <= k < args@.len() ==> (#[trigger] kinds@[k]).admits(args@[k]));
    assert(args@.len() > 0 ==> kinds@[0].admits(args@[0]));
    assert(args@.len() > 1 ==> kinds@[1].admits(args@[1]));
    assert(args@.len() > 2 ==> kinds@[2].admits(args@[2]));
    assert(args@.len() > 3 ==> kinds@[3].admits(args@[3]));
    assert(args@.len() > 4 ==> kinds@[4].admits(args@[4]));
    Some(
        match import {
            Import::Spawn => HostCall::Spawn { ptr: int32(args[0]), len: int32(args[1]) },
            Import::Despawn => HostCall::Despawn { eid: int64(args[0]) },
            Import::SetPosition => HostCall::SetPosition {
                eid: int64(args[0]),
                x: bits(args[1]),
                y: bits(args[2]),
                z: bits(args[3]),
            },
            Import::SetVelocity => HostCall::SetVelocity {
                eid: int64(args[0]),
                x: bits(args[1]),
                y: bits(args[2]),
                z: bits(args[3]),
            },
            Import::GetX => HostCall::GetX { eid: int64(args[0]) },
            Import::GetY => HostCall::GetY { eid: int64(args[0]) },
            Import::CountTagged => HostCall::CountTagged {
                ptr: int32(args[0]),
                len: int32(args[1]),
            },
            Import::QueryBegin => HostCall::QueryBegin { ptr: int32(args[0]), len: int32(args[1]) },
            Import::QueryNext => HostCall::QueryNext { handle: int64(args[0]) },
            Import::Nearest => HostCall::Nearest {
                ptr: int32(args[0]),
                len: int32(args[1]),
                x: bits(args[2]),
                y: bits(args[3]),
                reach: bits(args[4]),
            },
            Import::MoveToward => HostCall::MoveToward {
                eid: int64(args[0]),
                target: int64(args[1]),
                speed: bits(args[2]),
            },
            Import::Axis => HostCall::Axis { ptr: int32(args[0]), len: int32(args[1]) },
            Import::RandomInt => HostCall::RandomInt { n: int64(args[0]) },
            Import::Tick => HostCall::Tick,
        },
    )
}

/// A call as an import and its arguments.
pub open spec fn encoded(call: HostCall) -> (Import, Seq<Value>) {
    match call {
        HostCall::Spawn { ptr, len } => (Import::Spawn, seq![Value::I32(ptr), Value::I32(len)]),
        HostCall::Despawn { eid } => (Import::Despawn, seq![Value::I64(eid)]),
        HostCall::SetPosition { eid, x, y, z } => (
            Import::SetPosition,
            seq![Value::I64(eid), Value::F32(x), Value::F32(y), Value::F32(z)],
        ),
        HostCall::SetVelocity { eid, x, y, z } => (
            Import::SetVelocity,
            seq![Value::I64(eid), Value::F32(x), Value::F32(y), Value::F32(z)],
        ),
        HostCall::GetX { eid } => (Import::GetX, seq![Value::I64(eid)]),
        HostCall::GetY { eid } => (Import::GetY, seq![Value::I64(eid)]),
        HostCall::CountTagged { ptr, len } => (
            Import::CountTagged,
            seq![Value::I32(ptr), Value::I32(len)],
        ),
        HostCall::QueryBegin { ptr, len } => (
            Import::QueryBegin,
            seq![Value::I32(ptr), Value::I32(len)],
        ),
        HostCall::QueryNext { handle } => (Import::QueryNext, seq![Value::I64(handle)]),
        HostCall::Nearest { ptr, len, x, y, reach } => (
            Import::Nearest,
            seq![
                Value::I32(ptr),
                Value::I32(len),
                Value::F32(x),
                Value::F32(y),
                Value::F32(reach),
            ],
        ),
        HostCall::MoveToward { eid, target, speed } => (
            Import::MoveToward,
            seq![Value::I64(eid), Value::I64(target), Value::F32(speed)],
        ),
        HostCall::Axis { ptr, len } => (Import::Axis, seq![Value::I32(ptr), Value::I32(len)]),
        HostCall::RandomInt { n } => (Import::RandomInt, seq![Value::I64(n)]),
        HostCall::Tick => (Import::Tick, seq![]),
    }
}

/// A guest can make every call: laid out as an import and its arguments, it is read
/// back as it was.
pub proof fn law_calls_read_back(call: HostCall)
    ensures
        decoded(encoded(call).0, encoded(call).1) == Some(call),
{
}

} // verus!

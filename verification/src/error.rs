//! What can go wrong when a guest is loaded or run.

use vstd::prelude::*;

use crate::wasmi_engine;
use crate::wasmtime_engine;

verus! {

/// Why a guest could not be loaded or run.
#[derive(Debug)]
pub enum RuntimeError {
    /// `wasmtime` refused or stopped the guest.
    Backend(wasmtime::Error),
    /// `wasmi` refused or stopped the guest.
    Interpreter(wasmi::Error),
    /// The guest does not export a function that it must.
    MissingExport(String),
}

/// What is said of an export that is missing.
pub open spec fn missing_text(name: Seq<char>) -> Seq<char> {
    "missing export `"@ + name + "`"@
}

impl RuntimeError {
    /// What the error says.
    pub open spec fn text(self) -> Seq<char> {
        match self {
            RuntimeError::Backend(e) => "wasm backend error: "@ + wasmtime_engine::error_text(e),
            RuntimeError::Interpreter(e) => "wasm backend error: "@ + wasmi_engine::error_text(e),
            RuntimeError::MissingExport(name) => missing_text(name@),
        }
    }

    /// Whether the error comes of an allocation that failed in `wasmtime`.
    pub open spec fn lacks_memory(self) -> bool {
        self matches RuntimeError::Backend(e) && wasmtime_engine::is_out_of_memory(e)
    }

    /// Whether the error comes of an allocation that failed in `wasmtime`.
    pub fn is_out_of_memory(&self) -> (r: bool)
        ensures
            r == self.lacks_memory(),
    {
        match self {
            RuntimeError::Backend(e) => wasmtime_engine::ran_out_of_memory(e),
            _ => false,
        }
    }

    /// What the error says.
    pub fn message(&self) -> (r: String)
        ensures
            r@ == self.text(),
    {
        match self {
            RuntimeError::Backend(e) => join("wasm backend error: ", wasmtime_engine::describe(e)),
            RuntimeError::Interpreter(e) => join("wasm backend error: ", wasmi_engine::describe(e)),
            RuntimeError::MissingExport(name) => {
                let mut r: String = join("missing export `", name.clone());
                r.append("`");
                r
            },
        }
    }
}

fn join(head: &str, tail: String) -> (r: String)
    ensures
        r@ == head@ + tail@,
{
    let mut r: String = head.to_owned();
    r.append(tail.as_str());
    r
}

impl From<wasmtime::Error> for RuntimeError {
    fn from(e: wasmtime::Error) -> (r: RuntimeError) {
        RuntimeError::Backend(e)
    }
}

impl vstd::std_specs::convert::FromSpecImpl<wasmtime::Error> for RuntimeError {
    open spec fn obeys_from_spec() -> bool {
        true
    }

    open spec fn from_spec(e: wasmtime::Error) -> RuntimeError {
        RuntimeError::Backend(e)
    }
}

impl From<wasmi::Error> for RuntimeError {
    fn from(e: wasmi::Error) -> (r: RuntimeError) {
        RuntimeError::Interpreter(e)
    }
}

impl vstd::std_specs::convert::FromSpecImpl<wasmi::Error> for RuntimeError {
    open spec fn obeys_from_spec() -> bool {
        true
    }

    open spec fn from_spec(e: wasmi::Error) -> RuntimeError {
        RuntimeError::Interpreter(e)
    }
}

/// What `wasmtime` returned, its error made the host's.
pub fn from_wasmtime<T>(r: Result<T, wasmtime::Error>) -> (out: Result<T, RuntimeError>)
    ensures
        match r {
            Ok(x) => out == Ok::<T, RuntimeError>(x),
            Err(e) => out == Err::<T, RuntimeError>(RuntimeError::Backend(e)),
        },
{
    match r {
        Ok(x) => Ok(x),
        Err(e) => Err(RuntimeError::from(e)),
    }
}

/// What `wasmi` returned, its error made the host's.
pub fn from_wasmi<T>(r: Result<T, wasmi::Error>) -> (out: Result<T, RuntimeError>)
    ensures
        match r {
            Ok(x) => out == Ok::<T, RuntimeError>(x),
            Err(e) => out == Err::<T, RuntimeError>(RuntimeError::Interpreter(e)),
        },
{
    match r {
        Ok(x) => Ok(x),
        Err(e) => Err(RuntimeError::from(e)),
    }
}

} // verus!

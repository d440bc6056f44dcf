//! Modules, kernel launches and device buffers: which calls of the driver each
//! operation makes, with which arguments, and what comes of the replies.
//!
//! The calls themselves are the caller's. An operation of one call is a function
//! that gives the [`Call`] and one that takes the [`Reply`]; one of several calls
//! is a value that gives the next call until there is none.
pub mod buffer;
pub mod context;
pub mod event;
pub mod launch;
pub mod module;

use crate::ffi::{
    CUcontext, CUdevice, CUdeviceptr, CUevent, CUfunction, CUmodule, CUresult, CUstream,
};
pub use buffer::{
    copy_d2d, copy_dtoh, copy_htod, copy_htod_staged, DevBuf, Staged, Staging, STAGING_CHUNK,
};
pub use context::{free_vram, init, sync, vram, Device, DeviceQuery, Setup};
pub use event::Event;
pub use launch::{Arg, Args, Launch, Ready};
pub use module::Module;
use vstd::prelude::*;

verus! {

/// A call of the driver. Host memory is not part of it: the caller knows which
/// bytes are copied, and a launch comes with its arguments as a [`Ready`].
#[derive(Debug, Clone, Copy, PartialEq, Eq)]
pub enum Call {
    Init { flags: u32 },
    DeviceGet { ordinal: i32 },
    DeviceGetName { len: i32, dev: CUdevice },
    DeviceComputeCapability { dev: CUdevice },
    DeviceGetAttribute { attribute: i32, dev: CUdevice },
    DevicePrimaryCtxRetain { dev: CUdevice },
    CtxSetCurrent { ctx: CUcontext },
    CtxSetFlags { flags: u32 },
    CtxSynchronize,
    MemGetInfo,
    ModuleLoadData,
    ModuleGetFunction { module: CUmodule },
    MemAlloc { bytes: usize },
    MemsetD8 { dst: CUdeviceptr, value: u8, bytes: usize },
    MemcpyHtoD { dst: CUdeviceptr, bytes: usize },
    MemcpyDtoH { src: CUdeviceptr, bytes: usize },
    MemcpyDtoD { dst: CUdeviceptr, src: CUdeviceptr, bytes: usize },
    LaunchKernel {
        function: CUfunction,
        grid: (u32, u32, u32),
        block: (u32, u32, u32),
        shared: u32,
        stream: CUstream,
    },
    EventCreate { flags: u32 },
    EventRecord { event: CUevent, stream: CUstream },
    EventSynchronize { event: CUevent },
}

/// What a call wrote.
#[derive(Debug)]
pub enum Given {
    Nothing,
    Number(i32),
    Numbers(i32, i32),
    Handle(u64),
    Sizes(usize, usize),
    Text(String),
}

/// What came of a call.
#[derive(Debug)]
pub struct Reply {
    pub code: CUresult,
    /// The name that the driver has for the code, asked for where it is no
    /// success.
    pub name: Option<String>,
    pub given: Given,
}

impl Reply {
    /// Did the call work?
    pub open spec fn worked(self) -> bool {
        self.code == crate::ffi::CUDA_SUCCESS
    }

    /// The name of the code.
    pub open spec fn known(self) -> Option<Seq<char>> {
        match self.name {
            Some(n) => Some(n@),
            None => None,
        }
    }

    /// What is said of the call where it did not work.
    pub open spec fn failure(self, what: Seq<char>) -> Seq<char> {
        crate::ffi::failure(self.code, what, self.known())
    }

    /// The number that was written, zero where none was.
    pub open spec fn number_given(self) -> i32 {
        match self.given {
            Given::Number(n) => n,
            _ => 0,
        }
    }

    /// The two numbers that were written, zeros where none were.
    pub open spec fn numbers_given(self) -> (i32, i32) {
        match self.given {
            Given::Numbers(a, b) => (a, b),
            _ => (0, 0),
        }
    }

    /// The handle that was written, null where none was.
    pub open spec fn handle_given(self) -> u64 {
        match self.given {
            Given::Handle(h) => h,
            _ => 0,
        }
    }

    /// The sizes that were written, zeros where none were.
    pub open spec fn sizes_given(self) -> (usize, usize) {
        match self.given {
            Given::Sizes(a, b) => (a, b),
            _ => (0, 0),
        }
    }

    /// The text that was written, empty where none was.
    pub open spec fn text_given(self) -> Seq<char> {
        match self.given {
            Given::Text(t) => t@,
            _ => Seq::empty(),
        }
    }

    /// Success, or what is said of the failure.
    pub fn check(&self, what: &str) -> (r: Result<(), String>)
        ensures
            match r {
                Ok(_) => self.worked(),
                Err(e) => !self.worked() && e@ == self.failure(what@),
            },
    {
        match &self.name {
            Some(n) => crate::ffi::chk(self.code, what, Some(n.as_str())),
            None => crate::ffi::chk(self.code, what, None),
        }
    }

    /// The number that was written.
    pub fn number(&self) -> (r: i32)
        ensures
            r == self.number_given(),
    {
        match self.given {
            Given::Number(n) => n,
            _ => 0,
        }
    }

    /// The two numbers that were written.
    pub fn numbers(&self) -> (r: (i32, i32))
        ensures
            r == self.numbers_given(),
    {
        match self.given {
            Given::Numbers(a, b) => (a, b),
            _ => (0, 0),
        }
    }

    /// The handle that was written.
    pub fn handle(&self) -> (r: u64)
        ensures
            r == self.handle_given(),
    {
        match self.given {
            Given::Handle(h) => h,
            _ => 0,
        }
    }

    /// The sizes that were written.
    pub fn sizes(&self) -> (r: (usize, usize))
        ensures
            r == self.sizes_given(),
    {
        match self.given {
            Given::Sizes(a, b) => (a, b),
            _ => (0, 0),
        }
    }

    /// The text that was written.
    pub fn text(&self) -> (r: String)
        ensures
            r@ == self.text_given(),
    {
        match &self.given {
            Given::Text(t) => t.as_str().to_owned(),
            _ => String::new(),
        }
    }
}

/// A reply gives what was written, and a call worked if its code is zero.
pub proof fn replies_give_what_was_written(
    code: CUresult,
    name: Option<String>,
    n: i32,
    m: i32,
    h: u64,
    a: usize,
    b: usize,
    t: String,
)
    ensures
        (Reply { code, name, given: Given::Nothing }).worked() <==> code == 0,
        (Reply { code, name, given: Given::Number(n) }).number_given() == n,
        (Reply { code, name, given: Given::Numbers(n, m) }).numbers_given() == (n, m),
        (Reply { code, name, given: Given::Handle(h) }).handle_given() == h,
        (Reply { code, name, given: Given::Sizes(a, b) }).sizes_given() == (a, b),
        (Reply { code, name, given: Given::Text(t) }).text_given() == t@,
{
}

/// What is said of a call that did not work names the call first, and then the code, by
/// the driver's name for it if there is one and by its number if there is none.
pub proof fn failures_name_the_call(reply: Reply, what: Seq<char>)
    ensures
        crate::text::begins_with(reply.failure(what), what + " failed: "@),
        reply.failure(what).skip((what + " failed: "@).len() as int) == (match reply.name {
            Some(n) => n@,
            None => "CUresult "@ + crate::text::signed_decimal(reply.code as int),
        }),
{
    let head = what + " failed: "@;
    let rest = crate::ffi::error_text(reply.code, reply.known());
    assert(reply.failure(what) == head + rest);
    assert((head + rest).take(head.len() as int) =~= head);
    assert((head + rest).skip(head.len() as int) =~= rest);
}

} // verus!

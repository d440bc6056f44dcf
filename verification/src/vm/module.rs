//! A loaded module and the handles of its kernels.
use crate::ffi::{c_text, error_name, CUfunction, CUmodule, CUDA_ERROR_NOT_FOUND, CUDA_SUCCESS};
use crate::text::same_text;
use crate::vm::{Call, Reply};
use vstd::prelude::*;

verus! {

/// A loaded fatbin, and the handles of the kernels that were looked up in it:
/// the driver is asked for each of them once.
#[derive(Debug)]
pub struct Module {
    module: CUmodule,
    funcs: Vec<(String, CUfunction)>,
}

/// The handle of a name.
pub open spec fn find_handle(funcs: Seq<(Seq<char>, CUfunction)>, name: Seq<char>) -> Option<
    CUfunction,
>
    decreases funcs.len(),
{
    if funcs.len() == 0 {
        None
    } else if funcs.last().0 == name {
        Some(funcs.last().1)
    } else {
        find_handle(funcs.drop_last(), name)
    }
}

/// The pairs that a list stands for.
pub open spec fn handles(v: Seq<(String, CUfunction)>) -> Seq<(Seq<char>, CUfunction)> {
    Seq::new(v.len(), |i: int| (v[i].0@, v[i].1))
}

/// What the lookup of a name is called in messages.
pub open spec fn lookup_of(name: Seq<char>) -> Seq<char> {
    "cuModuleGetFunction("@ + name + ")"@
}

impl Module {
    /// The module in the driver.
    pub closed spec fn raw(&self) -> CUmodule {
        self.module
    }

    /// The handle of a name, if it has been looked up.
    pub closed spec fn known(&self, name: Seq<char>) -> Option<CUfunction> {
        find_handle(handles(self.funcs@), name)
    }

    /// The module with one more handle known.
    pub open spec fn learned(&self, after: Module, name: Seq<char>, f: CUfunction) -> bool {
        &&& after.raw() == self.raw()
        &&& forall|n: Seq<char>|
            #[trigger] after.known(n) == (if n == name {
                Some(f)
            } else {
                self.known(n)
            })
    }

    /// What comes of looking a kernel up, where `reply` is that to the lookup: a
    /// handle that is known is given without one, and a name that is no C text is
    /// not asked for.
    pub open spec fn found(&self, name: Seq<char>, reply: Reply) -> Result<CUfunction, Seq<char>> {
        match self.known(name) {
            Some(f) => Ok(f),
            None => match crate::ffi::nul_position(name) {
                Some(at) => Err(crate::ffi::nul_message(at)),
                None => if reply.worked() {
                    Ok(reply.handle_given())
                } else {
                    Err(reply.failure(lookup_of(name)))
                },
            },
        }
    }

    /// The module after a kernel was looked up: a handle that was found is known
    /// from then on, and nothing else changes.
    pub open spec fn looked_up(&self, after: Module, name: Seq<char>, reply: Reply) -> bool {
        match self.found(name, reply) {
            Ok(f) => if self.known(name) is Some {
                after == *self
            } else {
                self.learned(after, name, f)
            },
            Err(_) => after == *self,
        }
    }

    /// The call that loads an image.
    pub fn load_call() -> (r: Call)
        ensures
            r == Call::ModuleLoadData,
    {
        Call::ModuleLoadData
    }

    /// The loaded module, of which no kernel has been looked up.
    pub fn load(reply: &Reply) -> (r: Result<Module, String>)
        ensures
            match r {
                Ok(m) => reply.worked() && m.raw() == reply.handle_given() && forall|n: Seq<char>|
                    #[trigger] m.known(n) is None,
                Err(e) => !reply.worked() && e@ == reply.failure("cuModuleLoadData"@),
            },
    {
        match reply.check("cuModuleLoadData") {
            Ok(_) => Ok(Module { module: reply.handle(), funcs: Vec::new() }),
            Err(e) => Err(e),
        }
    }

    /// The handle of a name, if it has been looked up.
    fn memo(&self, name: &str) -> (r: Option<CUfunction>)
        ensures
            r == self.known(name@),
    {
        let ghost all = handles(self.funcs@);
        let mut i: usize = self.funcs.len();
        assert(all.take(i as int) =~= all);
        while i > 0
            invariant
                i <= all.len(),
                all == handles(self.funcs@),
                find_handle(all, name@) == find_handle(all.take(i as int), name@),
            decreases i,
        {
            assert(all.take(i as int).drop_last() =~= all.take(i - 1));
            i -= 1;
            if same_text(self.funcs[i].0.as_str(), name) {
                return Some(self.funcs[i].1);
            }
        }
        None
    }

    /// Keeps the handle of a name.
    fn keep(&mut self, name: &str, f: CUfunction)
        ensures
            old(self).learned(*final(self), name@, f),
    {
        let ghost before = handles(self.funcs@);
        self.funcs.push((name.to_owned(), f));
        proof {
            let after = handles(self.funcs@);
            assert(after =~= before.push((name@, f)));
            assert(after.drop_last() =~= before);
        }
    }

    /// The call that looks a name up, none where it is known or cannot be asked
    /// for.
    pub fn func_call(&self, name: &str) -> (r: Option<Call>)
        ensures
            r == (if self.known(name@) is Some || crate::ffi::nul_position(name@) is Some {
                None
            } else {
                Some(Call::ModuleGetFunction { module: self.raw() })
            }),
    {
        if self.memo(name).is_some() || c_text(name).is_err() {
            None
        } else {
            Some(Call::ModuleGetFunction { module: self.module })
        }
    }

    /// The handle of a kernel. The reply is that to the lookup, and is looked at
    /// only where there was one to make.
    pub fn func(&mut self, name: &str, reply: &Reply) -> (r: Result<CUfunction, String>)
        ensures
            match r {
                Ok(f) => old(self).found(name@, *reply) == Ok::<CUfunction, Seq<char>>(f),
                Err(e) => old(self).found(name@, *reply) == Err::<CUfunction, Seq<char>>(e@),
            },
            old(self).looked_up(*final(self), name@, *reply),
    {
        if let Some(f) = self.memo(name) {
            return Ok(f);
        }
        if let Err(e) = c_text(name) {
            return Err(e);
        }
        let mut what = "cuModuleGetFunction(".to_owned();
        what.append(name);
        what.append(")");
        match reply.check(what.as_str()) {
            Ok(_) => {
                let f: CUfunction = reply.handle();
                self.keep(name, f);
                Ok(f)
            },
            Err(e) => Err(e),
        }
    }

    /// The handle of a kernel, under the name that some callers prefer.
    pub fn get(&mut self, name: &str, reply: &Reply) -> (r: Result<CUfunction, String>)
        ensures
            match r {
                Ok(f) => old(self).found(name@, *reply) == Ok::<CUfunction, Seq<char>>(f),
                Err(e) => old(self).found(name@, *reply) == Err::<CUfunction, Seq<char>>(e@),
            },
            old(self).looked_up(*final(self), name@, *reply),
    {
        self.func(name, reply)
    }

    /// Does the module define a name? A name that is missing is told apart from
    /// any other failure of the lookup: that is the line that comes with the
    /// answer, to be printed.
    pub fn has(&mut self, name: &str, reply: &Reply) -> (r: (bool, Option<String>))
        ensures
            ({
                let asked = old(self).known(name@) is None && crate::ffi::nul_position(
                    name@,
                ) is None;
                &&& r.0 == (old(self).known(name@) is Some || (asked && reply.worked()))
                &&& asked && reply.worked() ==> old(self).learned(
                    *final(self),
                    name@,
                    reply.handle_given(),
                )
                &&& !(asked && reply.worked()) ==> *final(self) == *old(self)
                &&& crate::text::optional(r.1) == (if asked && !reply.worked() && reply.code
                    != CUDA_ERROR_NOT_FOUND {
                    Some(
                        "lightgpu: "@ + lookup_of(name@) + " probing failed: "@
                            + crate::ffi::error_text(reply.code, reply.known()),
                    )
                } else {
                    None
                })
            }),
    {
        if self.memo(name).is_some() {
            return (true, None);
        }
        if c_text(name).is_err() {
            return (false, None);
        }
        if reply.code == CUDA_SUCCESS {
            self.keep(name, reply.handle());
            return (true, None);
        }
        if reply.code == CUDA_ERROR_NOT_FOUND {
            return (false, None);
        }
        let mut what = "cuModuleGetFunction(".to_owned();
        what.append(name);
        what.append(")");
        let mut s = "lightgpu: ".to_owned();
        s.append(what.as_str());
        s.append(" probing failed: ");
        let e = match &reply.name {
            Some(n) => error_name(reply.code, Some(n.as_str())),
            None => error_name(reply.code, None),
        };
        s.append(e.as_str());
        (false, Some(s))
    }
}

/// A name that was resolved once is never asked for again, and gives the same
/// handle: learning another name leaves it as it is.
pub proof fn handles_are_kept(
    m: Module,
    after: Module,
    name: Seq<char>,
    f: CUfunction,
    other: Seq<char>,
)
    requires
        m.learned(after, name, f),
        m.known(other) is Some,
        other != name,
    ensures
        after.known(name) == Some(f),
        after.known(other) == m.known(other),
{
}

/// A kernel is looked up once: what was found is known from then on, whatever a later
/// reply says, and no other name is touched; where it was not found nothing changes.
pub proof fn a_kernel_is_looked_up_once(
    m: Module,
    after: Module,
    name: Seq<char>,
    reply: Reply,
    later: Reply,
    other: Seq<char>,
)
    requires
        m.looked_up(after, name, reply),
    ensures
        after.raw() == m.raw(),
        other != name ==> after.known(other) == m.known(other),
        match m.found(name, reply) {
            Ok(f) => after.known(name) == Some(f) && after.found(name, later) == Ok::<
                CUfunction,
                Seq<char>,
            >(f),
            Err(_) => after.known(name) == m.known(name),
        },
{
}

/// A name that is not known and is a C text is asked for: the reply's handle is the
/// kernel, and a failure names the lookup.
pub proof fn unknown_kernels_are_asked_for(m: Module, name: Seq<char>, reply: Reply)
    requires
        m.known(name) is None,
        crate::ffi::nul_position(name) is None,
    ensures
        reply.worked() ==> m.found(name, reply) == Ok::<CUfunction, Seq<char>>(
            reply.handle_given(),
        ),
        !reply.worked() ==> m.found(name, reply) == Err::<CUfunction, Seq<char>>(
            reply.failure("cuModuleGetFunction("@ + name + ")"@),
        ),
{
}

} // verus!

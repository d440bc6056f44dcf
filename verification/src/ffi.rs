//! The CUDA driver: its result codes and their messages, the constants that are
//! passed to it, and the table of its entry points with the rule by which each
//! of them is resolved. Loading the library and calling into it is the caller's.
use crate::text::{signed_decimal_string, usize_string};
use vstd::prelude::*;

verus! {

/// A result code.
pub type CUresult = i32;

/// A device.
pub type CUdevice = i32;

/// An address on the device.
pub type CUdeviceptr = u64;

/// A context, by its address.
pub type CUcontext = u64;

/// A loaded module, by its address.
pub type CUmodule = u64;

/// A kernel of a module, by its address.
pub type CUfunction = u64;

/// A stream, by its address.
pub type CUstream = u64;

/// An event, by its address.
pub type CUevent = u64;

pub const CUDA_SUCCESS: CUresult = 0;

/// `cuModuleGetFunction` on a name that the module does not define.
pub const CUDA_ERROR_NOT_FOUND: CUresult = 500;

pub const CU_EVENT_DEFAULT: u32 = 0;

pub const CU_EVENT_DISABLE_TIMING: u32 = 2;

pub const CU_MEMHOSTALLOC_DEVICEMAP: u32 = 2;

/// The null stream.
pub const CU_STREAM_DEFAULT: CUstream = 0;

/// Block on synchronisation in place of spinning.
pub const CU_CTX_SCHED_BLOCKING_SYNC: u32 = 4;

pub const CU_DEVICE_ATTRIBUTE_MAX_THREADS_PER_BLOCK: i32 = 1;

pub const CU_DEVICE_ATTRIBUTE_MAX_SHARED_MEMORY_PER_BLOCK: i32 = 8;

pub const CU_DEVICE_ATTRIBUTE_TOTAL_CONSTANT_MEMORY: i32 = 9;

pub const CU_DEVICE_ATTRIBUTE_MULTIPROCESSOR_COUNT: i32 = 16;

pub const CU_DEVICE_ATTRIBUTE_COMPUTE_CAPABILITY_MAJOR: i32 = 75;

pub const CU_DEVICE_ATTRIBUTE_COMPUTE_CAPABILITY_MINOR: i32 = 76;

pub const CU_DEVICE_ATTRIBUTE_MAX_SHARED_MEMORY_PER_MULTIPROCESSOR: i32 = 81;

/// A result code as a text: the name that the driver has for it, or its number
/// where there is no driver or the driver has no name for it.
pub open spec fn error_text(r: CUresult, known: Option<Seq<char>>) -> Seq<char> {
    match known {
        Some(name) => name,
        None => "CUresult "@ + crate::text::signed_decimal(r as int),
    }
}

/// What is said of a failed call.
pub open spec fn failure(r: CUresult, what: Seq<char>, known: Option<Seq<char>>) -> Seq<char> {
    what + " failed: "@ + error_text(r, known)
}

/// A result code as a text, `known` being the name that the driver has for it.
pub fn error_name(r: CUresult, known: Option<&str>) -> (s: String)
    ensures
        s@ == error_text(r, crate::text::optional_slice(known)),
{
    match known {
        Some(name) => name.to_owned(),
        None => {
            let mut s = "CUresult ".to_owned();
            let n = signed_decimal_string(r);
            s.append(n.as_str());
            s
        },
    }
}

/// Turns a result code into a `Result` that names the failure.
pub fn chk(r: CUresult, what: &str, known: Option<&str>) -> (res: Result<(), String>)
    ensures
        match res {
            Ok(_) => r == CUDA_SUCCESS,
            Err(e) => r != CUDA_SUCCESS && e@ == failure(r, what@, crate::text::optional_slice(known)),
        },
{
    if r == CUDA_SUCCESS {
        Ok(())
    } else {
        let mut e = what.to_owned();
        e.append(" failed: ");
        let name = error_name(r, known);
        e.append(name.as_str());
        Err(e)
    }
}

/// The library that is loaded: the one that `LA_CUDA_LIB` names, or the driver
/// by its usual name.
pub open spec fn library_of(named: Option<Seq<char>>) -> Seq<char> {
    match named {
        Some(path) => path,
        None => "libcuda.so.1"@,
    }
}

/// What is said where the library cannot be loaded, `reported` being what the
/// loader said of it.
pub open spec fn refusal_of(lib: Seq<char>, reported: Option<Seq<char>>) -> Seq<char> {
    "cannot load CUDA driver: "@ + (match reported {
        Some(why) => why,
        None => lib + " not found"@,
    }) + " (set LA_CUDA_LIB)"@
}

/// The library that is loaded: the one that `LA_CUDA_LIB` names, or the driver
/// by its usual name.
pub fn library_name(named: Option<&str>) -> (r: String)
    ensures
        r@ == library_of(crate::text::optional_slice(named)),
{
    match named {
        Some(path) => path.to_owned(),
        None => "libcuda.so.1".to_owned(),
    }
}

/// What is said where the library cannot be loaded, `reported` being what the
/// loader said of it.
pub fn load_failure(lib: &str, reported: Option<&str>) -> (r: String)
    ensures
        r@ == refusal_of(lib@, crate::text::optional_slice(reported)),
{
    let mut r = "cannot load CUDA driver: ".to_owned();
    let why = match reported {
        Some(why) => why.to_owned(),
        None => {
            let mut w = lib.to_owned();
            w.append(" not found");
            w
        },
    };
    r.append(why.as_str());
    r.append(" (set LA_CUDA_LIB)");
    r
}

/// The first position from `i` on that holds a zero byte.
pub open spec fn zero_from(bytes: Seq<u8>, i: int) -> Option<int>
    decreases bytes.len() - i,
{
    if !(0 <= i < bytes.len()) {
        None
    } else if bytes[i] == 0 {
        Some(i)
    } else {
        zero_from(bytes, i + 1)
    }
}

/// The position of the first zero byte of a text in UTF-8.
pub open spec fn nul_position(s: Seq<char>) -> Option<int> {
    zero_from(vstd::utf8::encode_utf8(s), 0)
}

/// What is said of a name that holds a NUL, which no C string can.
pub open spec fn nul_message(at: int) -> Seq<char> {
    "nul byte found in provided data at position: "@ + crate::text::decimal(at as nat)
}

/// Can the text be handed over as a C string?
pub fn c_text(s: &str) -> (r: Result<(), String>)
    ensures
        match r {
            Ok(_) => nul_position(s@) is None,
            Err(e) => nul_position(s@) matches Some(n) && e@ == nul_message(n),
        },
{
    let bytes = s.as_bytes();
    let mut i: usize = 0;
    while i < bytes.len()
        invariant
            i <= bytes@.len(),
            bytes@ == vstd::utf8::encode_utf8(s@),
            nul_position(s@) == zero_from(bytes@, i as int),
        decreases bytes@.len() - i,
    {
        if bytes[i] == 0 {
            let mut e = "nul byte found in provided data at position: ".to_owned();
            let n = usize_string(i);
            e.append(n.as_str());
            return Err(e);
        }
        i += 1;
    }
    Ok(())
}

/// How many entry points are resolved.
pub const SYMBOL_COUNT: usize = 32;

/// The entry points: the symbol that is preferred and the one that is taken
/// where the library does not have it. Where there is a second version, that is
/// the one to prefer: the first has a narrower interface, and called through the
/// wider one it misreports.
pub const SYMBOLS: [(&'static str, &'static str); 32] = [
    ("cuInit", "cuInit"),
    ("cuDeviceGet", "cuDeviceGet"),
    ("cuDeviceGetName", "cuDeviceGetName"),
    ("cuDeviceComputeCapability", "cuDeviceComputeCapability"),
    ("cuDeviceGetAttribute", "cuDeviceGetAttribute"),
    ("cuDevicePrimaryCtxRetain", "cuDevicePrimaryCtxRetain"),
    ("cuDevicePrimaryCtxRelease", "cuDevicePrimaryCtxRelease"),
    ("cuCtxSetCurrent", "cuCtxSetCurrent"),
    ("cuCtxSetFlags", "cuCtxSetFlags"),
    ("cuCtxCreate_v2", "cuCtxCreate"),
    ("cuCtxDestroy_v2", "cuCtxDestroy"),
    ("cuCtxSynchronize", "cuCtxSynchronize"),
    ("cuMemGetInfo_v2", "cuMemGetInfo"),
    ("cuModuleLoadData", "cuModuleLoadData"),
    ("cuModuleGetFunction", "cuModuleGetFunction"),
    ("cuModuleUnload", "cuModuleUnload"),
    ("cuMemAlloc_v2", "cuMemAlloc"),
    ("cuMemFree_v2", "cuMemFree"),
    ("cuMemAllocHost_v2", "cuMemAllocHost"),
    ("cuMemFreeHost_v2", "cuMemFreeHost"),
    ("cuMemcpyHtoD_v2", "cuMemcpyHtoD"),
    ("cuMemcpyDtoH_v2", "cuMemcpyDtoH"),
    ("cuMemcpyDtoD_v2", "cuMemcpyDtoD"),
    ("cuMemcpyHtoDAsync_v2", "cuMemcpyHtoDAsync"),
    ("cuMemsetD8_v2", "cuMemsetD8"),
    ("cuLaunchKernel", "cuLaunchKernel"),
    ("cuGetErrorName", "cuGetErrorName"),
    ("cuEventCreate", "cuEventCreate"),
    ("cuEventRecord", "cuEventRecord"),
    ("cuEventSynchronize", "cuEventSynchronize"),
    ("cuEventElapsedTime", "cuEventElapsedTime"),
    ("cuEventDestroy", "cuEventDestroy"),
];

/// The symbol that is preferred for an entry point.
pub open spec fn preferred(i: int) -> Seq<char> {
    SYMBOLS[i].0@
}

/// The symbol that is taken where the preferred one is missing.
pub open spec fn fallback(i: int) -> Seq<char> {
    SYMBOLS[i].1@
}

/// What is said where an entry point is missing.
pub open spec fn missing_symbol(i: int) -> Seq<char> {
    "libcuda: missing symbol "@ + fallback(i)
}

/// The entry points that are resolved so far, and whether the preferred symbol of
/// the next one was missing.
#[derive(Debug)]
pub struct Resolver {
    pub found: Vec<u64>,
    pub second: bool,
}

/// What a [`Resolver`] stands for.
pub ghost struct Progress {
    pub found: Seq<u64>,
    pub second: bool,
}

impl Progress {
    /// The symbol to look up next.
    pub open spec fn wanted(self) -> Seq<char> {
        if self.second {
            fallback(self.found.len() as int)
        } else {
            preferred(self.found.len() as int)
        }
    }

    /// What an address leads to, null standing for a symbol that is missing.
    pub open spec fn answered(self, address: u64) -> Result<Progress, Seq<char>> {
        if address != 0 {
            Ok(Progress { found: self.found.push(address), second: false })
        } else if !self.second {
            Ok(Progress { found: self.found, second: true })
        } else {
            Err(missing_symbol(self.found.len() as int))
        }
    }
}

impl Resolver {
    /// How far this is.
    pub open spec fn view(&self) -> Progress {
        Progress { found: self.found@, second: self.second }
    }

    /// There is something left to look up, or nothing is half done.
    pub open spec fn wf(&self) -> bool {
        &&& self.found@.len() <= SYMBOL_COUNT
        &&& self.found@.len() == SYMBOL_COUNT ==> !self.second
    }

    /// Nothing resolved yet.
    pub fn new() -> (r: Resolver)
        ensures
            r.wf(),
            r@ == (Progress { found: Seq::empty(), second: false }),
    {
        Resolver { found: Vec::new(), second: false }
    }

    /// The symbol to look up next, none where all entry points are resolved.
    pub fn wanted(&self) -> (r: Option<&'static str>)
        requires
            self.wf(),
        ensures
            match r {
                Some(s) => self@.found.len() < SYMBOL_COUNT && s@ == self@.wanted(),
                None => self@.found.len() == SYMBOL_COUNT,
            },
    {
        let i: usize = self.found.len();
        if i == SYMBOL_COUNT {
            None
        } else if self.second {
            Some(SYMBOLS[i].1)
        } else {
            Some(SYMBOLS[i].0)
        }
    }

    /// Takes the address of the symbol that was wanted, null where it is missing.
    pub fn answer(&mut self, address: u64) -> (r: Result<(), String>)
        requires
            old(self).wf(),
            old(self)@.found.len() < SYMBOL_COUNT,
        ensures
            final(self).wf(),
            match r {
                Ok(_) => old(self)@.answered(address) == Ok::<Progress, Seq<char>>(final(self)@),
                Err(e) => old(self)@.answered(address) == Err::<Progress, Seq<char>>(e@)
                    && final(self)@ == old(self)@,
            },
    {
        if address != 0 {
            self.found.push(address);
            self.second = false;
            Ok(())
        } else if !self.second {
            self.second = true;
            Ok(())
        } else {
            let mut e = "libcuda: missing symbol ".to_owned();
            e.append(SYMBOLS[self.found.len()].1);
            Err(e)
        }
    }
}

/// The address of an entry point in a library that has the symbols of `lookup`,
/// null standing for one that it does not have.
pub open spec fn chosen(lookup: spec_fn(Seq<char>) -> u64, i: int) -> u64 {
    if lookup(preferred(i)) != 0 {
        lookup(preferred(i))
    } else {
        lookup(fallback(i))
    }
}

/// The entry points of a library, or what is said of the first that is missing.
pub open spec fn entry_points(lookup: spec_fn(Seq<char>) -> u64, count: nat) -> Result<
    Seq<u64>,
    Seq<char>,
>
    decreases count,
{
    if count == 0 {
        Ok(Seq::empty())
    } else {
        match entry_points(lookup, (count - 1) as nat) {
            Err(e) => Err(e),
            Ok(front) => if chosen(lookup, count - 1) == 0 {
                Err(missing_symbol(count - 1))
            } else {
                Ok(front.push(chosen(lookup, count - 1)))
            },
        }
    }
}

/// Where the resolver stands on its way through a library.
pub open spec fn on_track(p: Progress, lookup: spec_fn(Seq<char>) -> u64) -> bool {
    &&& entry_points(lookup, p.found.len()) == Ok::<Seq<u64>, Seq<char>>(p.found)
    &&& p.second ==> lookup(preferred(p.found.len() as int)) == 0
}

/// One answer keeps the resolver on its way, or names the symbol that is missing
/// from the library.
pub proof fn answers_stay_on_track(p: Progress, lookup: spec_fn(Seq<char>) -> u64)
    requires
        on_track(p, lookup),
        p.found.len() < SYMBOL_COUNT,
    ensures
        match p.answered(lookup(p.wanted())) {
            Ok(next) => on_track(next, lookup),
            Err(e) => entry_points(lookup, SYMBOL_COUNT as nat) == Err::<Seq<u64>, Seq<char>>(e),
        },
{
    let n = p.found.len();
    match p.answered(lookup(p.wanted())) {
        Ok(next) => {
            if next.found.len() > n {
                assert(next.found.drop_last() =~= p.found);
            }
        },
        Err(e) => {
            assert(entry_points(lookup, n + 1) == Err::<Seq<u64>, Seq<char>>(e));
            lemma_first_missing(lookup, n + 1, SYMBOL_COUNT as nat);
        },
    }
}

proof fn lemma_first_missing(lookup: spec_fn(Seq<char>) -> u64, n: nat, m: nat)
    requires
        n <= m,
        entry_points(lookup, n) is Err,
    ensures
        entry_points(lookup, m) == entry_points(lookup, n),
    decreases m - n,
{
    if n < m {
        lemma_first_missing(lookup, n, (m - 1) as nat);
    }
}

/// What the resolver ends with, asking a library from where it stands.
pub open spec fn resolved(p: Progress, lookup: spec_fn(Seq<char>) -> u64, fuel: nat) -> Result<
    Seq<u64>,
    Seq<char>,
>
    decreases fuel,
{
    if p.found.len() >= SYMBOL_COUNT || fuel == 0 {
        Ok(p.found)
    } else {
        match p.answered(lookup(p.wanted())) {
            Ok(next) => resolved(next, lookup, (fuel - 1) as nat),
            Err(e) => Err(e),
        }
    }
}

/// How many symbols may still be looked up.
pub open spec fn lookups_left(p: Progress) -> int {
    2 * (SYMBOL_COUNT - p.found.len()) - (if p.second {
        1int
    } else {
        0
    })
}

/// Asked to the end, whatever the library has, the resolver ends with the second
/// version of every entry point that has one there and the first of the others,
/// or names the first entry point of which neither is there.
pub proof fn resolver_finds_the_entry_points(
    p: Progress,
    lookup: spec_fn(Seq<char>) -> u64,
    fuel: nat,
)
    requires
        on_track(p, lookup),
        p.found.len() <= SYMBOL_COUNT,
        p.found.len() == SYMBOL_COUNT ==> !p.second,
        fuel >= lookups_left(p),
    ensures
        resolved(p, lookup, fuel) == entry_points(lookup, SYMBOL_COUNT as nat),
    decreases fuel,
{
    if p.found.len() < SYMBOL_COUNT {
        answers_stay_on_track(p, lookup);
        if let Ok(next) = p.answered(lookup(p.wanted())) {
            resolver_finds_the_entry_points(next, lookup, (fuel - 1) as nat);
        }
    }
}

/// The preferred symbol of an entry point is its second version, or the only one.
pub proof fn second_versions_are_preferred(i: int)
    requires
        0 <= i < SYMBOL_COUNT,
    ensures
        preferred(i) == fallback(i) || preferred(i) == fallback(i) + "_v2"@,
{
    reveal_strlit("_v2");
    if i == 9 {
        reveal_strlit("cuCtxCreate_v2");
        reveal_strlit("cuCtxCreate");
        assert(preferred(i) =~= fallback(i) + "_v2"@);
    }
    if i == 10 {
        reveal_strlit("cuCtxDestroy_v2");
        reveal_strlit("cuCtxDestroy");
        assert(preferred(i) =~= fallback(i) + "_v2"@);
    }
    if i == 12 {
        reveal_strlit("cuMemGetInfo_v2");
        reveal_strlit("cuMemGetInfo");
        assert(preferred(i) =~= fallback(i) + "_v2"@);
    }
    if i == 16 {
        reveal_strlit("cuMemAlloc_v2");
        reveal_strlit("cuMemAlloc");
        assert(preferred(i) =~= fallback(i) + "_v2"@);
    }
    if i == 17 {
        reveal_strlit("cuMemFree_v2");
        reveal_strlit("cuMemFree");
        assert(preferred(i) =~= fallback(i) + "_v2"@);
    }
    if i == 18 {
        reveal_strlit("cuMemAllocHost_v2");
        reveal_strlit("cuMemAllocHost");
        assert(preferred(i) =~= fallback(i) + "_v2"@);
    }
    if i == 19 {
        reveal_strlit("cuMemFreeHost_v2");
        reveal_strlit("cuMemFreeHost");
        assert(preferred(i) =~= fallback(i) + "_v2"@);
    }
    if i == 20 {
        reveal_strlit("cuMemcpyHtoD_v2");
        reveal_strlit("cuMemcpyHtoD");
        assert(preferred(i) =~= fallback(i) + "_v2"@);
    }
    if i == 21 {
        reveal_strlit("cuMemcpyDtoH_v2");
        reveal_strlit("cuMemcpyDtoH");
        assert(preferred(i) =~= fallback(i) + "_v2"@);
    }
    if i == 22 {
        reveal_strlit("cuMemcpyDtoD_v2");
        reveal_strlit("cuMemcpyDtoD");
        assert(preferred(i) =~= fallback(i) + "_v2"@);
    }
    if i == 23 {
        reveal_strlit("cuMemcpyHtoDAsync_v2");
        reveal_strlit("cuMemcpyHtoDAsync");
        assert(preferred(i) =~= fallback(i) + "_v2"@);
    }
    if i == 24 {
        reveal_strlit("cuMemsetD8_v2");
        reveal_strlit("cuMemsetD8");
        assert(preferred(i) =~= fallback(i) + "_v2"@);
    }
}

/// What is asked for to load the driver.
#[derive(Debug)]
pub enum Wanted<'a> {
    /// The library.
    Library(&'a str),
    /// The address of a symbol.
    Symbol(&'static str),
}

/// How far the loading of the driver is.
#[derive(Debug, Clone, Copy, PartialEq, Eq, Structural)]
pub enum Phase {
    Unloaded,
    Opening,
    Resolving,
    Loaded,
    Failed,
}

/// The loading of the driver. A process has one: what comes of the first load is
/// what every later one gives.
#[derive(Debug)]
pub struct Loading {
    phase: Phase,
    lib: String,
    resolver: Resolver,
    error: String,
}

/// What a [`Loading`] stands for.
pub ghost enum LoadStage {
    /// Nothing was asked for yet.
    Unloaded,
    /// The library is being opened.
    Opening { lib: Seq<char> },
    /// The entry points are being resolved.
    Resolving { lib: Seq<char>, progress: Progress },
    Loaded { lib: Seq<char>, entry: Seq<u64> },
    Failed(Seq<char>),
}

/// What happens while the driver is loaded.
pub ghost enum LoadEvent {
    /// The driver is asked for, and this is what `LA_CUDA_LIB` holds then.
    Asked(Option<Seq<char>>),
    /// The library was opened.
    Opened,
    /// It was not, and this is what the loader said of it.
    Refused(Option<Seq<char>>),
    /// The address of a symbol, null where it is missing.
    Address(u64),
}

impl LoadStage {
    /// What an event leads to.
    pub open spec fn after(self, event: LoadEvent) -> LoadStage {
        match (self, event) {
            (LoadStage::Unloaded, LoadEvent::Asked(named)) => match nul_position(
                library_of(named),
            ) {
                Some(at) => LoadStage::Failed(nul_message(at)),
                None => LoadStage::Opening { lib: library_of(named) },
            },
            (LoadStage::Opening { lib }, LoadEvent::Opened) => LoadStage::Resolving {
                lib,
                progress: Progress { found: Seq::empty(), second: false },
            },
            (LoadStage::Opening { lib }, LoadEvent::Refused(reported)) => LoadStage::Failed(
                refusal_of(lib, reported),
            ),
            (LoadStage::Resolving { lib, progress }, LoadEvent::Address(address)) => {
                match progress.answered(address) {
                    Err(e) => LoadStage::Failed(e),
                    Ok(next) => if next.found.len() == SYMBOL_COUNT {
                        LoadStage::Loaded { lib, entry: next.found }
                    } else {
                        LoadStage::Resolving { lib, progress: next }
                    },
                }
            },
            _ => self,
        }
    }

    /// The library and its entry points, or why there are none, once that is known.
    pub open spec fn outcome(self) -> Option<Result<(Seq<char>, Seq<u64>), Seq<char>>> {
        match self {
            LoadStage::Loaded { lib, entry } => Some(Ok((lib, entry))),
            LoadStage::Failed(e) => Some(Err(e)),
            _ => None,
        }
    }
}

impl Loading {
    /// How far this is.
    pub closed spec fn view(&self) -> LoadStage {
        match self.phase {
            Phase::Unloaded => LoadStage::Unloaded,
            Phase::Opening => LoadStage::Opening { lib: self.lib@ },
            Phase::Resolving => LoadStage::Resolving {
                lib: self.lib@,
                progress: self.resolver@,
            },
            Phase::Loaded => LoadStage::Loaded { lib: self.lib@, entry: self.resolver.found@ },
            Phase::Failed => LoadStage::Failed(self.error@),
        }
    }

    /// While entry points are resolved, one is left.
    pub closed spec fn wf(&self) -> bool {
        &&& self.resolver.wf()
        &&& self.phase == Phase::Resolving ==> self.resolver.found@.len() < SYMBOL_COUNT
        &&& self.phase == Phase::Opening ==> self.resolver@ == (Progress {
            found: Seq::empty(),
            second: false,
        })
    }

    /// Nothing asked for yet.
    pub fn new() -> (r: Loading)
        ensures
            r.wf(),
            r@ == LoadStage::Unloaded,
    {
        Loading {
            phase: Phase::Unloaded,
            lib: String::new(),
            resolver: Resolver::new(),
            error: String::new(),
        }
    }

    /// The driver is asked for. Only the first time looks at what names the library.
    pub fn ask(&mut self, named: Option<&str>)
        requires
            old(self).wf(),
        ensures
            final(self).wf(),
            final(self)@ == old(self)@.after(
                LoadEvent::Asked(crate::text::optional_slice(named)),
            ),
    {
        if self.phase == Phase::Unloaded {
            let lib = library_name(named);
            match c_text(lib.as_str()) {
                Ok(_) => {
                    self.lib = lib;
                    self.resolver = Resolver::new();
                    self.phase = Phase::Opening;
                },
                Err(e) => {
                    self.error = e;
                    self.phase = Phase::Failed;
                },
            }
        }
    }

    /// What is to be done next, nothing where the driver was not asked for or the
    /// result is there.
    pub fn wanted(&self) -> (r: Option<Wanted<'_>>)
        requires
            self.wf(),
        ensures
            match self@ {
                LoadStage::Opening { lib } => r matches Some(Wanted::Library(s)) && s@ == lib,
                LoadStage::Resolving { progress, .. } => r matches Some(Wanted::Symbol(s)) && s@
                    == progress.wanted(),
                _ => r is None,
            },
    {
        match self.phase {
            Phase::Opening => Some(Wanted::Library(self.lib.as_str())),
            Phase::Resolving => match self.resolver.wanted() {
                Some(s) => Some(Wanted::Symbol(s)),
                None => None,
            },
            _ => None,
        }
    }

    /// The library was opened.
    pub fn opened(&mut self)
        requires
            old(self).wf(),
        ensures
            final(self).wf(),
            final(self)@ == old(self)@.after(LoadEvent::Opened),
    {
        if self.phase == Phase::Opening {
            self.phase = Phase::Resolving;
        }
    }

    /// The library could not be opened, `reported` being what the loader said of it.
    pub fn refused(&mut self, reported: Option<&str>)
        requires
            old(self).wf(),
        ensures
            final(self).wf(),
            final(self)@ == old(self)@.after(
                LoadEvent::Refused(crate::text::optional_slice(reported)),
            ),
    {
        if self.phase == Phase::Opening {
            self.error = load_failure(self.lib.as_str(), reported);
            self.phase = Phase::Failed;
        }
    }

    /// Takes the address of the symbol that was wanted, null where it is missing.
    pub fn answer(&mut self, address: u64)
        requires
            old(self).wf(),
        ensures
            final(self).wf(),
            final(self)@ == old(self)@.after(LoadEvent::Address(address)),
    {
        if self.phase == Phase::Resolving {
            match self.resolver.answer(address) {
                Ok(_) => {
                    if self.resolver.found.len() == SYMBOL_COUNT {
                        self.phase = Phase::Loaded;
                    }
                },
                Err(e) => {
                    self.error = e;
                    self.phase = Phase::Failed;
                },
            }
        }
    }

    /// The library and its entry points, or why there are none, once that is known.
    pub fn outcome(&self) -> (r: Option<Result<(&str, &Vec<u64>), String>>)
        ensures
            match r {
                Some(Ok((lib, entry))) => self@.outcome() == Some(
                    Ok::<(Seq<char>, Seq<u64>), Seq<char>>((lib@, entry@)),
                ),
                Some(Err(e)) => self@.outcome() == Some(
                    Err::<(Seq<char>, Seq<u64>), Seq<char>>(e@),
                ),
                None => self@.outcome() is None,
            },
    {
        match self.phase {
            Phase::Loaded => Some(Ok((self.lib.as_str(), &self.resolver.found))),
            Phase::Failed => Some(Err(self.error.as_str().to_owned())),
            _ => None,
        }
    }
}

/// Where events lead, one after another.
pub open spec fn load_after(stage: LoadStage, events: Seq<LoadEvent>) -> LoadStage
    decreases events.len(),
{
    if events.len() == 0 {
        stage
    } else {
        load_after(stage, events.drop_last()).after(events.last())
    }
}

/// The driver is loaded once: when there is a result, nothing that happens later
/// changes it, not even another name for the library, so that every later call gives
/// the same library and entry points, or the same text of why there are none.
pub proof fn the_driver_is_loaded_once(stage: LoadStage, events: Seq<LoadEvent>)
    requires
        stage.outcome() is Some,
    ensures
        load_after(stage, events) == stage,
        load_after(stage, events).outcome() == stage.outcome(),
    decreases events.len(),
{
    if events.len() > 0 {
        the_driver_is_loaded_once(stage, events.drop_last());
    }
}

/// The library of a stage that is past the first call.
pub open spec fn library_at(stage: LoadStage) -> Option<Seq<char>> {
    match stage {
        LoadStage::Opening { lib } => Some(lib),
        LoadStage::Resolving { lib, .. } => Some(lib),
        LoadStage::Loaded { lib, .. } => Some(lib),
        _ => None,
    }
}

/// The library is the one that was named when the driver was first asked for,
/// whatever it is called later.
pub proof fn the_first_call_names_the_library(named: Option<Seq<char>>, events: Seq<LoadEvent>)
    ensures
        ({
            let first = LoadStage::Unloaded.after(LoadEvent::Asked(named));
            let stage = load_after(first, events);
            &&& !(stage is Unloaded)
            &&& library_at(stage) matches Some(lib) ==> lib == library_of(named)
        }),
    decreases events.len(),
{
    if events.len() > 0 {
        the_first_call_names_the_library(named, events.drop_last());
    }
}

/// While the entry points of a library are resolved, one answer after another leads
/// to all of them, or to what is said of the first that is missing.
pub proof fn loading_resolves_the_library(
    lib: Seq<char>,
    progress: Progress,
    lookup: spec_fn(Seq<char>) -> u64,
)
    requires
        on_track(progress, lookup),
        progress.found.len() < SYMBOL_COUNT,
    ensures
        match (LoadStage::Resolving { lib, progress }).after(
            LoadEvent::Address(lookup(progress.wanted())),
        ) {
            LoadStage::Resolving { lib: same, progress: next } => same == lib && on_track(
                next,
                lookup,
            ),
            LoadStage::Loaded { lib: same, entry } => same == lib && entry_points(
                lookup,
                SYMBOL_COUNT as nat,
            ) == Ok::<Seq<u64>, Seq<char>>(entry),
            LoadStage::Failed(e) => entry_points(lookup, SYMBOL_COUNT as nat) == Err::<
                Seq<u64>,
                Seq<char>,
            >(e),
            _ => false,
        },
{
    answers_stay_on_track(progress, lookup);
}

/// The position that is named is that of a zero byte, and none stands before it; where
/// none is named there is none.
pub proof fn the_first_nul_is_named(s: Seq<char>)
    ensures
        ({
            let bytes = vstd::utf8::encode_utf8(s);
            match nul_position(s) {
                Some(at) => 0 <= at < bytes.len() && bytes[at] == 0 && forall|j: int|
                    0 <= j < at ==> #[trigger] bytes[j] != 0,
                None => forall|j: int| 0 <= j < bytes.len() ==> #[trigger] bytes[j] != 0,
            }
        }),
{
    lemma_zero_from(vstd::utf8::encode_utf8(s), 0);
}

proof fn lemma_zero_from(bytes: Seq<u8>, i: int)
    requires
        0 <= i <= bytes.len(),
    ensures
        match zero_from(bytes, i) {
            Some(at) => i <= at < bytes.len() && bytes[at] == 0 && forall|j: int|
                i <= j < at ==> #[trigger] bytes[j] != 0,
            None => forall|j: int| i <= j < bytes.len() ==> #[trigger] bytes[j] != 0,
        },
    decreases bytes.len() - i,
{
    if i < bytes.len() && bytes[i] != 0 {
        lemma_zero_from(bytes, i + 1);
    }
}

/// The driver is the library that is named, or `libcuda.so.1`; where it cannot be loaded
/// the text says what the loader said, or that the library was not found, and which
/// variable to set; where its name is no C text, that is said.
pub proof fn the_named_library_is_loaded(named: Option<Seq<char>>, reported: Option<Seq<char>>)
    ensures
        ({
            let lib = match named {
                Some(path) => path,
                None => "libcuda.so.1"@,
            };
            let why = match reported {
                Some(why) => why,
                None => lib + " not found"@,
            };
            let asked = LoadStage::Unloaded.after(LoadEvent::Asked(named));
            match nul_position(lib) {
                None => asked == (LoadStage::Opening { lib }) && asked.after(
                    LoadEvent::Refused(reported),
                ).outcome() == Some(
                    Err::<(Seq<char>, Seq<u64>), Seq<char>>(
                        "cannot load CUDA driver: "@ + why + " (set LA_CUDA_LIB)"@,
                    ),
                ),
                Some(at) => asked.outcome() == Some(
                    Err::<(Seq<char>, Seq<u64>), Seq<char>>(
                        "nul byte found in provided data at position: "@ + crate::text::decimal(
                            at as nat,
                        ),
                    ),
                ),
            }
        }),
{
}

/// A library that was opened is resolved from the first entry point on.
pub proof fn an_opened_library_is_resolved_from_the_start(
    lib: Seq<char>,
    lookup: spec_fn(Seq<char>) -> u64,
)
    ensures
        match (LoadStage::Opening { lib }).after(LoadEvent::Opened) {
            LoadStage::Resolving { lib: same, progress } => same == lib && progress.found.len() == 0
                && !progress.second && on_track(progress, lookup),
            _ => false,
        },
{
    assert(entry_points(lookup, 0) == Ok::<Seq<u64>, Seq<char>>(Seq::empty()));
}

/// The entry points of a library that has them: each is the second version where the
/// library has one, and the first where it has none.
pub proof fn entry_points_are_the_chosen_ones(
    lookup: spec_fn(Seq<char>) -> u64,
    count: nat,
    i: int,
)
    ensures
        match entry_points(lookup, count) {
            Ok(all) => all.len() == count && (0 <= i < count ==> all[i] != 0 && (if lookup(
                SYMBOLS[i].0@,
            ) != 0 {
                all[i] == lookup(SYMBOLS[i].0@)
            } else {
                all[i] == lookup(SYMBOLS[i].1@)
            })),
            Err(e) => exists|k: int|
                #![trigger SYMBOLS[k]]
                0 <= k < count && lookup(SYMBOLS[k].0@) == 0 && lookup(SYMBOLS[k].1@) == 0 && e
                    == "libcuda: missing symbol "@ + SYMBOLS[k].1@,
        },
    decreases count,
{
    if count > 0 {
        entry_points_are_the_chosen_ones(lookup, (count - 1) as nat, i);
        let k = count - 1;
        assert(SYMBOLS[k].0@ == preferred(k) && SYMBOLS[k].1@ == fallback(k));
    }
}

/// The entry points have the names of the driver's functions, in the order in which they
/// are resolved.
pub proof fn entry_points_have_their_names(i: int)
    requires
        0 <= i < 32,
    ensures
        i == 0 ==> fallback(i) == "cuInit"@,
        i == 1 ==> fallback(i) == "cuDeviceGet"@,
        i == 2 ==> fallback(i) == "cuDeviceGetName"@,
        i == 3 ==> fallback(i) == "cuDeviceComputeCapability"@,
        i == 4 ==> fallback(i) == "cuDeviceGetAttribute"@,
        i == 5 ==> fallback(i) == "cuDevicePrimaryCtxRetain"@,
        i == 6 ==> fallback(i) == "cuDevicePrimaryCtxRelease"@,
        i == 7 ==> fallback(i) == "cuCtxSetCurrent"@,
        i == 8 ==> fallback(i) == "cuCtxSetFlags"@,
        i == 9 ==> fallback(i) == "cuCtxCreate"@,
        i == 10 ==> fallback(i) == "cuCtxDestroy"@,
        i == 11 ==> fallback(i) == "cuCtxSynchronize"@,
        i == 12 ==> fallback(i) == "cuMemGetInfo"@,
        i == 13 ==> fallback(i) == "cuModuleLoadData"@,
        i == 14 ==> fallback(i) == "cuModuleGetFunction"@,
        i == 15 ==> fallback(i) == "cuModuleUnload"@,
        i == 16 ==> fallback(i) == "cuMemAlloc"@,
        i == 17 ==> fallback(i) == "cuMemFree"@,
        i == 18 ==> fallback(i) == "cuMemAllocHost"@,
        i == 19 ==> fallback(i) == "cuMemFreeHost"@,
        i == 20 ==> fallback(i) == "cuMemcpyHtoD"@,
        i == 21 ==> fallback(i) == "cuMemcpyDtoH"@,
        i == 22 ==> fallback(i) == "cuMemcpyDtoD"@,
        i == 23 ==> fallback(i) == "cuMemcpyHtoDAsync"@,
        i == 24 ==> fallback(i) == "cuMemsetD8"@,
        i == 25 ==> fallback(i) == "cuLaunchKernel"@,
        i == 26 ==> fallback(i) == "cuGetErrorName"@,
        i == 27 ==> fallback(i) == "cuEventCreate"@,
        i == 28 ==> fallback(i) == "cuEventRecord"@,
        i == 29 ==> fallback(i) == "cuEventSynchronize"@,
        i == 30 ==> fallback(i) == "cuEventElapsedTime"@,
        i == 31 ==> fallback(i) == "cuEventDestroy"@,
        (i == 9 || i == 10 || i == 12 || (16 <= i <= 24)) ==> preferred(i) == fallback(i) + "_v2"@,
        !(i == 9 || i == 10 || i == 12 || (16 <= i <= 24)) ==> preferred(i) == fallback(i),
{
    if i == 9 {
        reveal_strlit("cuCtxCreate_v2");
        reveal_strlit("cuCtxCreate");
    }
    if i == 10 {
        reveal_strlit("cuCtxDestroy_v2");
        reveal_strlit("cuCtxDestroy");
    }
    if i == 12 {
        reveal_strlit("cuMemGetInfo_v2");
        reveal_strlit("cuMemGetInfo");
    }
    if i == 16 {
        reveal_strlit("cuMemAlloc_v2");
        reveal_strlit("cuMemAlloc");
    }
    if i == 17 {
        reveal_strlit("cuMemFree_v2");
        reveal_strlit("cuMemFree");
    }
    if i == 18 {
        reveal_strlit("cuMemAllocHost_v2");
        reveal_strlit("cuMemAllocHost");
    }
    if i == 19 {
        reveal_strlit("cuMemFreeHost_v2");
        reveal_strlit("cuMemFreeHost");
    }
    if i == 20 {
        reveal_strlit("cuMemcpyHtoD_v2");
        reveal_strlit("cuMemcpyHtoD");
    }
    if i == 21 {
        reveal_strlit("cuMemcpyDtoH_v2");
        reveal_strlit("cuMemcpyDtoH");
    }
    if i == 22 {
        reveal_strlit("cuMemcpyDtoD_v2");
        reveal_strlit("cuMemcpyDtoD");
    }
    if i == 23 {
        reveal_strlit("cuMemcpyHtoDAsync_v2");
        reveal_strlit("cuMemcpyHtoDAsync");
    }
    if i == 24 {
        reveal_strlit("cuMemsetD8_v2");
        reveal_strlit("cuMemsetD8");
    }
    second_versions_are_preferred(i);
}

/// The numbers that are passed to the driver are those of its interface.
pub proof fn numbers_are_those_of_the_driver()
    ensures
        CUDA_SUCCESS == 0,
        CUDA_ERROR_NOT_FOUND == 500,
        CU_EVENT_DEFAULT == 0,
        CU_EVENT_DISABLE_TIMING == 2,
        CU_MEMHOSTALLOC_DEVICEMAP == 2,
        CU_STREAM_DEFAULT == 0,
        CU_CTX_SCHED_BLOCKING_SYNC == 4,
        CU_DEVICE_ATTRIBUTE_MAX_THREADS_PER_BLOCK == 1,
        CU_DEVICE_ATTRIBUTE_MAX_SHARED_MEMORY_PER_BLOCK == 8,
        CU_DEVICE_ATTRIBUTE_TOTAL_CONSTANT_MEMORY == 9,
        CU_DEVICE_ATTRIBUTE_MULTIPROCESSOR_COUNT == 16,
        CU_DEVICE_ATTRIBUTE_COMPUTE_CAPABILITY_MAJOR == 75,
        CU_DEVICE_ATTRIBUTE_COMPUTE_CAPABILITY_MINOR == 76,
        CU_DEVICE_ATTRIBUTE_MAX_SHARED_MEMORY_PER_MULTIPROCESSOR == 81,
        SYMBOL_COUNT == 32,
{
}

} // verus!

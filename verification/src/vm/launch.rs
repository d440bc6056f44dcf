//! Kernel launches and their arguments.
use crate::ffi::{CUdeviceptr, CUfunction, CUstream, CU_STREAM_DEFAULT};
use crate::text::decimal_string;
use crate::vm::{Call, Module, Reply};
use vstd::prelude::*;

verus! {

/// A launch: grid and block dimensions, dynamic shared memory, stream.
#[derive(Debug, Clone, Copy, PartialEq, Eq)]
pub struct Launch {
    pub grid: (u32, u32, u32),
    pub block: (u32, u32, u32),
    pub shared: u32,
    pub stream: CUstream,
}

impl Launch {
    /// A launch on the default stream, without dynamic shared memory.
    pub fn new(grid: (u32, u32, u32), block: (u32, u32, u32)) -> (r: Launch)
        ensures
            r == (Launch { grid, block, shared: 0, stream: CU_STREAM_DEFAULT }),
    {
        Launch { grid, block, shared: 0, stream: CU_STREAM_DEFAULT }
    }

    /// The launch with dynamic shared memory.
    pub fn shared(self, bytes: u32) -> (r: Launch)
        ensures
            r == (Launch { shared: bytes, ..self }),
    {
        Launch { grid: self.grid, block: self.block, shared: bytes, stream: self.stream }
    }
}

/// One argument of a kernel. Its type is kept with it, so that no count can pass
/// for a number of another type.
#[derive(Debug, Clone, Copy, PartialEq, Eq, Structural)]
pub enum Arg {
    /// A device address.
    Ptr(CUdeviceptr),
    I32(i32),
    I64(i64),
    /// The bits of a number of single precision.
    F32(u32),
}

/// The arguments of a launch, in their order.
#[derive(Debug)]
pub struct Args {
    pub slots: Vec<Arg>,
}

/// A launch as the driver is asked for it: the call, and the arguments that go
/// with it, in their order.
#[derive(Debug)]
pub struct Ready<'a> {
    pub call: Call,
    pub args: &'a Vec<Arg>,
}

impl Launch {
    /// The call that launches a kernel in this way.
    pub open spec fn call_of(self, function: CUfunction) -> Call {
        Call::LaunchKernel {
            function,
            grid: self.grid,
            block: self.block,
            shared: self.shared,
            stream: self.stream,
        }
    }
}

/// Three numbers in parentheses.
pub open spec fn triple(t: (u32, u32, u32)) -> Seq<char> {
    "("@ + crate::text::decimal(t.0 as nat) + ","@ + crate::text::decimal(t.1 as nat) + ","@
        + crate::text::decimal(t.2 as nat) + ")"@
}

/// What is said of a launch that failed.
pub open spec fn launch_failure(kernel: Seq<char>, l: Launch, reply: Reply) -> Seq<char> {
    "cuLaunchKernel("@ + kernel + ") failed: "@ + crate::ffi::error_text(reply.code, reply.known())
        + " grid="@ + triple(l.grid) + " block="@ + triple(l.block) + " shared="@
        + crate::text::decimal(l.shared as nat)
}

/// Three numbers in parentheses.
fn triple_string(t: (u32, u32, u32)) -> (r: String)
    ensures
        r@ == triple(t),
{
    let mut s = "(".to_owned();
    let a = decimal_string(t.0 as u64);
    s.append(a.as_str());
    s.append(",");
    let b = decimal_string(t.1 as u64);
    s.append(b.as_str());
    s.append(",");
    let c = decimal_string(t.2 as u64);
    s.append(c.as_str());
    s.append(")");
    s
}

impl Default for Args {
    /// No arguments.
    fn default() -> (r: Args)
        ensures
            r@ == Seq::<Arg>::empty(),
    {
        Args::new()
    }
}

impl Args {
    /// The arguments.
    pub open spec fn view(&self) -> Seq<Arg> {
        self.slots@
    }

    /// No arguments.
    pub fn new() -> (r: Args)
        ensures
            r@ == Seq::<Arg>::empty(),
    {
        Args { slots: Vec::new() }
    }

    /// A device address.
    pub fn ptr(&mut self, p: CUdeviceptr) -> (r: &mut Args)
        ensures
            r@ == old(self)@.push(Arg::Ptr(p)),
            *final(self) == *final(r),
    {
        self.slots.push(Arg::Ptr(p));
        self
    }

    /// A number of 32 bits.
    pub fn i32(&mut self, v: i32) -> (r: &mut Args)
        ensures
            r@ == old(self)@.push(Arg::I32(v)),
            *final(self) == *final(r),
    {
        self.slots.push(Arg::I32(v));
        self
    }

    /// A number of 64 bits, which a kernel takes whose count may be beyond 32.
    pub fn i64(&mut self, v: i64) -> (r: &mut Args)
        ensures
            r@ == old(self)@.push(Arg::I64(v)),
            *final(self) == *final(r),
    {
        self.slots.push(Arg::I64(v));
        self
    }

    /// A number of single precision, by its bits.
    pub fn f32_bits(&mut self, bits: u32) -> (r: &mut Args)
        ensures
            r@ == old(self)@.push(Arg::F32(bits)),
            *final(self) == *final(r),
    {
        self.slots.push(Arg::F32(bits));
        self
    }

    /// The launch of a kernel of a module, with these arguments. Where the kernel
    /// is not found there is none, only what is said of that. The reply is that to
    /// the lookup, and is looked at only where there was one to make.
    pub fn launch_call(&self, m: &mut Module, kernel: &str, l: Launch, reply: &Reply) -> (r: Result<
        Ready<'_>,
        String,
    >)
        ensures
            match r {
                Ok(ready) => {
                    &&& old(m).found(kernel@, *reply) matches Ok(f)
                    &&& ready.call == l.call_of(f)
                    &&& ready.call matches Call::LaunchKernel {
                        function,
                        grid,
                        block,
                        shared,
                        stream,
                    }
                    &&& function == f
                    &&& grid == l.grid
                    &&& block == l.block
                    &&& shared == l.shared
                    &&& stream == l.stream
                    &&& ready.args@ == self@
                    &&& ready.args@ == self.slots@
                },
                Err(e) => old(m).found(kernel@, *reply) == Err::<CUfunction, Seq<char>>(e@),
            },
            old(m).looked_up(*final(m), kernel@, *reply),
    {
        match m.func(kernel, reply) {
            Ok(function) => Ok(
                Ready {
                    call: Call::LaunchKernel {
                        function,
                        grid: l.grid,
                        block: l.block,
                        shared: l.shared,
                        stream: l.stream,
                    },
                    args: &self.slots,
                },
            ),
            Err(e) => Err(e),
        }
    }

    /// What comes of a launch.
    pub fn launch(&self, kernel: &str, l: Launch, reply: &Reply) -> (r: Result<(), String>)
        ensures
            match r {
                Ok(_) => reply.worked(),
                Err(e) => !reply.worked() && e@ == launch_failure(kernel@, l, *reply),
            },
    {
        if reply.code == crate::ffi::CUDA_SUCCESS {
            return Ok(());
        }
        let mut e = "cuLaunchKernel(".to_owned();
        e.append(kernel);
        e.append(") failed: ");
        let name = match &reply.name {
            Some(n) => crate::ffi::error_name(reply.code, Some(n.as_str())),
            None => crate::ffi::error_name(reply.code, None),
        };
        e.append(name.as_str());
        e.append(" grid=");
        let grid = triple_string(l.grid);
        e.append(grid.as_str());
        e.append(" block=");
        let block = triple_string(l.block);
        e.append(block.as_str());
        e.append(" shared=");
        let shared = decimal_string(l.shared as u64);
        e.append(shared.as_str());
        Err(e)
    }
}

/// A launch asks for the function with the grid, the block, the shared memory and the
/// stream that it was given, each dimension in its place.
pub proof fn launches_keep_their_dimensions(l: Launch, function: CUfunction)
    ensures
        l.call_of(function) matches Call::LaunchKernel {
            function: f,
            grid,
            block,
            shared,
            stream,
        } && f == function && grid.0 == l.grid.0 && grid.1 == l.grid.1 && grid.2 == l.grid.2
            && block.0 == l.block.0 && block.1 == l.block.1 && block.2 == l.block.2 && shared
            == l.shared && stream == l.stream,
{
}

/// Arguments are what was pushed.
pub proof fn arguments_are_their_slots(a: Args)
    ensures
        a@ == a.slots@,
{
}

/// What is said before the dimensions of a launch that failed.
spec fn failure_head(kernel: Seq<char>, reply: Reply) -> Seq<char> {
    "cuLaunchKernel("@ + kernel + ") failed: "@ + crate::ffi::error_text(reply.code, reply.known())
        + " grid="@
}

/// What is said of a launch that failed, part by part.
proof fn lemma_failure_parts(kernel: Seq<char>, l: Launch, reply: Reply)
    ensures
        launch_failure(kernel, l, reply) == failure_head(kernel, reply) + (triple(l.grid) + (
        " block="@ + (triple(l.block) + (" shared="@ + crate::text::decimal(l.shared as nat))))),
{
    let head = failure_head(kernel, reply);
    let (g, b) = (triple(l.grid), triple(l.block));
    let (x, y) = (" block="@, " shared="@);
    let d = crate::text::decimal(l.shared as nat);
    assert(head + g + x + b + y + d =~= head + g + x + b + (y + d));
    assert(head + g + x + b + (y + d) =~= head + g + x + (b + (y + d)));
    let t = b + (y + d);
    assert(head + g + x + t =~= head + g + (x + t));
    assert(head + g + (x + t) =~= head + (g + (x + t)));
}

/// What is said of a launch that failed tells launches of other dimensions apart.
pub proof fn failed_launches_are_told_apart(kernel: Seq<char>, l: Launch, m: Launch, reply: Reply)
    requires
        launch_failure(kernel, l, reply) == launch_failure(kernel, m, reply),
    ensures
        l.grid == m.grid,
        l.block == m.block,
        l.shared == m.shared,
{
    lemma_failure_parts(kernel, l, reply);
    lemma_failure_parts(kernel, m, reply);
    let head = failure_head(kernel, reply);
    let sl = " shared="@ + crate::text::decimal(l.shared as nat);
    let sm = " shared="@ + crate::text::decimal(m.shared as nat);
    let bl = " block="@ + (triple(l.block) + sl);
    let bm = " block="@ + (triple(m.block) + sm);
    crate::text::lemma_same_behind(head, triple(l.grid) + bl, triple(m.grid) + bm);
    lemma_triples(l.grid, bl, m.grid, bm);
    crate::text::lemma_same_behind(" block="@, triple(l.block) + sl, triple(m.block) + sm);
    lemma_triples(l.block, sl, m.block, sm);
    crate::text::lemma_same_behind(
        " shared="@,
        crate::text::decimal(l.shared as nat),
        crate::text::decimal(m.shared as nat),
    );
    crate::text::numerals_are_read_back(l.shared as nat);
    crate::text::numerals_are_read_back(m.shared as nat);
}

/// What is said of a launch that failed begins with the kernel, and names the code of
/// the failure.
pub proof fn failed_launches_name_the_kernel(kernel: Seq<char>, l: Launch, reply: Reply)
    ensures
        ({
            let s = launch_failure(kernel, l, reply);
            let named = "cuLaunchKernel("@ + kernel + ") failed: "@;
            let code = crate::ffi::error_text(reply.code, reply.known());
            &&& s.len() >= named.len() + code.len()
            &&& s.take(named.len() as int) == named
            &&& s.subrange(named.len() as int, (named.len() + code.len()) as int) == code
        }),
{
    lemma_failure_parts(kernel, l, reply);
    let s = launch_failure(kernel, l, reply);
    let named = "cuLaunchKernel("@ + kernel + ") failed: "@;
    let code = crate::ffi::error_text(reply.code, reply.known());
    let head = failure_head(kernel, reply);
    assert(s.take(head.len() as int) =~= head);
    assert(s.take(named.len() as int) =~= named);
    assert(s.subrange(named.len() as int, (named.len() + code.len()) as int) =~= code);
}

/// A number and what follows it, behind a text that does not change.
proof fn lemma_numeral_behind(head: Seq<char>, n: nat, x: Seq<char>, m: nat, y: Seq<char>)
    requires
        head + (crate::text::decimal(n) + x) == head + (crate::text::decimal(m) + y),
        x.len() > 0 && !('0' <= x[0] <= '9'),
        y.len() > 0 && !('0' <= y[0] <= '9'),
    ensures
        n == m,
        x == y,
{
    crate::text::lemma_same_behind(head, crate::text::decimal(n) + x, crate::text::decimal(m) + y);
    crate::text::numerals_end_where_digits_do(n, x, m, y);
}

/// Three numbers and what follows them, part by part.
proof fn lemma_triple_parts(a: (u32, u32, u32), x: Seq<char>)
    ensures
        triple(a) + x == "("@ + (crate::text::decimal(a.0 as nat) + (","@ + (crate::text::decimal(
            a.1 as nat,
        ) + (","@ + (crate::text::decimal(a.2 as nat) + (")"@ + x)))))),
{
    let d0 = crate::text::decimal(a.0 as nat);
    let d1 = crate::text::decimal(a.1 as nat);
    let d2 = crate::text::decimal(a.2 as nat);
    let (open, comma, close) = ("("@, ","@, ")"@);
    assert(open + d0 + comma + d1 + comma + d2 + close + x =~= open + d0 + comma + d1 + comma + d2
        + (close + x));
    assert(open + d0 + comma + d1 + comma + d2 + (close + x) =~= open + d0 + comma + d1 + comma + (
    d2 + (close + x)));
    let t2 = d2 + (close + x);
    assert(open + d0 + comma + d1 + comma + t2 =~= open + d0 + comma + d1 + (comma + t2));
    assert(open + d0 + comma + d1 + (comma + t2) =~= open + d0 + comma + (d1 + (comma + t2)));
    let t1 = d1 + (comma + t2);
    assert(open + d0 + comma + t1 =~= open + d0 + (comma + t1));
    assert(open + d0 + (comma + t1) =~= open + (d0 + (comma + t1)));
}

/// Three numbers and what follows them are given by the text of both.
proof fn lemma_triples(a: (u32, u32, u32), x: Seq<char>, b: (u32, u32, u32), y: Seq<char>)
    requires
        triple(a) + x == triple(b) + y,
    ensures
        a == b,
        x == y,
{
    lemma_triple_parts(a, x);
    lemma_triple_parts(b, y);
    let (comma, close) = (","@, ")"@);
    assert(comma.len() == 1 && comma[0] == ',' && close.len() == 1 && close[0] == ')') by {
        reveal_strlit(",");
        reveal_strlit(")");
    }
    let a2 = close + x;
    let b2 = close + y;
    let a1 = comma + (crate::text::decimal(a.2 as nat) + a2);
    let b1 = comma + (crate::text::decimal(b.2 as nat) + b2);
    let a0 = comma + (crate::text::decimal(a.1 as nat) + a1);
    let b0 = comma + (crate::text::decimal(b.1 as nat) + b1);
    assert(a2[0] == ')' && b2[0] == ')' && a1[0] == ',' && b1[0] == ',' && a0[0] == ',' && b0[0]
        == ',');
    lemma_numeral_behind("("@, a.0 as nat, a0, b.0 as nat, b0);
    lemma_numeral_behind(comma, a.1 as nat, a1, b.1 as nat, b1);
    lemma_numeral_behind(comma, a.2 as nat, a2, b.2 as nat, b2);
    crate::text::lemma_same_behind(close, x, y);
}

/// What is said of a launch that failed shows, behind the kernel and the code, the three
/// dimensions of the grid, those of the block, and the shared memory, in this order.
pub proof fn failed_launches_show_their_dimensions(kernel: Seq<char>, l: Launch, reply: Reply)
    ensures
        launch_failure(kernel, l, reply) == "cuLaunchKernel("@ + kernel + ") failed: "@ + (
        match reply.name {
            Some(n) => n@,
            None => "CUresult "@ + crate::text::signed_decimal(reply.code as int),
        }) + " grid="@ + ("("@ + crate::text::decimal(l.grid.0 as nat) + ","@
            + crate::text::decimal(l.grid.1 as nat) + ","@ + crate::text::decimal(l.grid.2 as nat)
            + ")"@) + " block="@ + ("("@ + crate::text::decimal(l.block.0 as nat) + ","@
            + crate::text::decimal(l.block.1 as nat) + ","@ + crate::text::decimal(
            l.block.2 as nat,
        ) + ")"@) + " shared="@ + crate::text::decimal(l.shared as nat),
{
}

} // verus!

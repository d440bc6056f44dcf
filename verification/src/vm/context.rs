//! Binding the context, and what is asked of the device.
use crate::ffi::{
    CUcontext, CUdevice, CU_CTX_SCHED_BLOCKING_SYNC,
    CU_DEVICE_ATTRIBUTE_MAX_SHARED_MEMORY_PER_BLOCK, CU_DEVICE_ATTRIBUTE_MULTIPROCESSOR_COUNT,
};
use crate::vm::{Call, Reply};
use vstd::prelude::*;

verus! {

/// How far the binding of the primary context of device 0 has come.
#[derive(Debug)]
pub enum Setup {
    Init,
    DeviceGet,
    Retain { dev: CUdevice },
    SetCurrent { ctx: CUcontext },
    SetFlags,
    Bound,
    Failed(String),
}

/// What a [`Setup`] stands for.
pub ghost enum Stage {
    Init,
    DeviceGet,
    Retain { dev: CUdevice },
    SetCurrent { ctx: CUcontext },
    SetFlags,
    Bound,
    Failed(Seq<char>),
}

impl Stage {
    /// The call to make, none where all is done.
    pub open spec fn call(self) -> Option<Call> {
        match self {
            Stage::Init => Some(Call::Init { flags: 0 }),
            Stage::DeviceGet => Some(Call::DeviceGet { ordinal: 0 }),
            Stage::Retain { dev } => Some(Call::DevicePrimaryCtxRetain { dev }),
            Stage::SetCurrent { ctx } => Some(Call::CtxSetCurrent { ctx }),
            Stage::SetFlags => Some(Call::CtxSetFlags { flags: CU_CTX_SCHED_BLOCKING_SYNC }),
            Stage::Bound => None,
            Stage::Failed(_) => None,
        }
    }

    /// What the call is named in messages.
    pub open spec fn what(self) -> Seq<char> {
        match self {
            Stage::Init => "cuInit"@,
            Stage::DeviceGet => "cuDeviceGet"@,
            Stage::Retain { .. } => "cuDevicePrimaryCtxRetain"@,
            Stage::SetCurrent { .. } => "cuCtxSetCurrent"@,
            _ => "cuCtxSetFlags"@,
        }
    }

    /// Where a reply leads. The context may refuse to block on synchronisation:
    /// that is no failure.
    pub open spec fn after(self, reply: Reply) -> Stage {
        match self {
            Stage::Bound => self,
            Stage::Failed(_) => self,
            Stage::SetFlags => Stage::Bound,
            _ => if !reply.worked() {
                Stage::Failed(reply.failure(self.what()))
            } else {
                match self {
                    Stage::Init => Stage::DeviceGet,
                    Stage::DeviceGet => Stage::Retain { dev: reply.number_given() },
                    Stage::Retain { .. } => Stage::SetCurrent { ctx: reply.handle_given() },
                    _ => Stage::SetFlags,
                }
            },
        }
    }

    /// What is printed on a reply.
    pub open spec fn warning(self, reply: Reply) -> Option<Seq<char>> {
        if self is SetFlags && !reply.worked() {
            Some("lightgpu: "@ + reply.failure(self.what()) + " (spin-wait stays)"@)
        } else {
            None
        }
    }

    /// The result, once there is one.
    pub open spec fn outcome(self) -> Option<Result<(), Seq<char>>> {
        match self {
            Stage::Bound => Some(Ok(())),
            Stage::Failed(e) => Some(Err(e)),
            _ => None,
        }
    }
}

impl Setup {
    /// How far this is.
    pub open spec fn view(&self) -> Stage {
        match self {
            Setup::Init => Stage::Init,
            Setup::DeviceGet => Stage::DeviceGet,
            Setup::Retain { dev } => Stage::Retain { dev: *dev },
            Setup::SetCurrent { ctx } => Stage::SetCurrent { ctx: *ctx },
            Setup::SetFlags => Stage::SetFlags,
            Setup::Bound => Stage::Bound,
            Setup::Failed(e) => Stage::Failed(e@),
        }
    }

    /// Nothing done yet, or failed where there is no driver to ask.
    pub fn new(driver: Result<(), String>) -> (r: Setup)
        ensures
            match driver {
                Ok(_) => r@ == Stage::Init,
                Err(e) => r@ == Stage::Failed(e@),
            },
    {
        match driver {
            Ok(_) => Setup::Init,
            Err(e) => Setup::Failed(e),
        }
    }

    /// The call to make, none where all is done.
    pub fn call(&self) -> (r: Option<Call>)
        ensures
            r == self@.call(),
    {
        match self {
            Setup::Init => Some(Call::Init { flags: 0 }),
            Setup::DeviceGet => Some(Call::DeviceGet { ordinal: 0 }),
            Setup::Retain { dev } => Some(Call::DevicePrimaryCtxRetain { dev: *dev }),
            Setup::SetCurrent { ctx } => Some(Call::CtxSetCurrent { ctx: *ctx }),
            Setup::SetFlags => Some(Call::CtxSetFlags { flags: CU_CTX_SCHED_BLOCKING_SYNC }),
            Setup::Bound => None,
            Setup::Failed(_) => None,
        }
    }

    /// Takes the reply to the call, and gives the line that is printed on it.
    pub fn reply(&mut self, reply: &Reply) -> (r: Option<String>)
        ensures
            final(self)@ == old(self)@.after(*reply),
            crate::text::optional(r) == old(self)@.warning(*reply),
    {
        let what: &'static str = match self {
            Setup::Init => "cuInit",
            Setup::DeviceGet => "cuDeviceGet",
            Setup::Retain { .. } => "cuDevicePrimaryCtxRetain",
            Setup::SetCurrent { .. } => "cuCtxSetCurrent",
            Setup::SetFlags => "cuCtxSetFlags",
            Setup::Bound => {
                return None;
            },
            Setup::Failed(_) => {
                return None;
            },
        };
        if let Setup::SetFlags = self {
            *self = Setup::Bound;
            return match reply.check(what) {
                Ok(_) => None,
                Err(e) => {
                    let mut s = "lightgpu: ".to_owned();
                    s.append(e.as_str());
                    s.append(" (spin-wait stays)");
                    Some(s)
                },
            };
        }
        if let Err(e) = reply.check(what) {
            *self = Setup::Failed(e);
            return None;
        }
        let next = match self {
            Setup::Init => Setup::DeviceGet,
            Setup::DeviceGet => Setup::Retain { dev: reply.number() },
            Setup::Retain { .. } => Setup::SetCurrent { ctx: reply.handle() },
            _ => Setup::SetFlags,
        };
        *self = next;
        None
    }

    /// The result, once there is one.
    pub fn outcome(&self) -> (r: Option<Result<(), String>>)
        ensures
            match r {
                Some(Ok(_)) => self@.outcome() == Some(Ok::<(), Seq<char>>(())),
                Some(Err(e)) => self@.outcome() == Some(Err::<(), Seq<char>>(e@)),
                None => self@.outcome() is None,
            },
    {
        match self {
            Setup::Bound => Some(Ok(())),
            Setup::Failed(e) => Some(Err(e.as_str().to_owned())),
            _ => None,
        }
    }
}

/// The result of a setup that is done. Every operation starts with it, so that no
/// caller has to bind a context first.
pub fn init(setup: &Setup) -> (r: Result<(), String>)
    requires
        setup@.outcome() is Some,
    ensures
        match r {
            Ok(_) => setup@.outcome() == Some(Ok::<(), Seq<char>>(())),
            Err(e) => setup@.outcome() == Some(Err::<(), Seq<char>>(e@)),
        },
{
    match setup.outcome() {
        Some(r) => r,
        None => Ok(()),
    }
}

/// Where replies lead, one after another.
pub open spec fn stage_after(stage: Stage, replies: Seq<Reply>) -> Stage
    decreases replies.len(),
{
    if replies.len() == 0 {
        stage
    } else {
        stage_after(stage, replies.drop_last()).after(replies.last())
    }
}

/// The first call does the work and the result stays: once there is one, there is
/// no further call, and no reply changes it.
pub proof fn the_result_stays(stage: Stage, replies: Seq<Reply>)
    requires
        stage.outcome() is Some,
    ensures
        stage.call() is None,
        stage_after(stage, replies) == stage,
    decreases replies.len(),
{
    if replies.len() > 0 {
        the_result_stays(stage, replies.drop_last());
    }
}

/// The context is bound if the first four calls work, whatever comes of the
/// fifth; otherwise the result is the failure of the first that does not.
pub proof fn setup_needs_four_calls(replies: Seq<Reply>)
    requires
        replies.len() == 5,
    ensures
        ({
            let end = stage_after(Stage::Init, replies);
            if !replies[0].worked() {
                end == Stage::Failed(replies[0].failure("cuInit"@))
            } else if !replies[1].worked() {
                end == Stage::Failed(replies[1].failure("cuDeviceGet"@))
            } else if !replies[2].worked() {
                end == Stage::Failed(replies[2].failure("cuDevicePrimaryCtxRetain"@))
            } else if !replies[3].worked() {
                end == Stage::Failed(replies[3].failure("cuCtxSetCurrent"@))
            } else {
                end == Stage::Bound
            }
        }),
{
    let r4 = replies.drop_last();
    let r3 = r4.drop_last();
    let r2 = r3.drop_last();
    let r1 = r2.drop_last();
    let r0 = r1.drop_last();
    assert(stage_after(Stage::Init, r0) == Stage::Init);
    assert(stage_after(Stage::Init, r1) == Stage::Init.after(replies[0]));
    assert(stage_after(Stage::Init, r2) == stage_after(Stage::Init, r1).after(replies[1]));
    assert(stage_after(Stage::Init, r3) == stage_after(Stage::Init, r2).after(replies[2]));
    assert(stage_after(Stage::Init, r4) == stage_after(Stage::Init, r3).after(replies[3]));
}

/// The first device.
#[derive(Debug)]
pub struct Device {
    pub dev: CUdevice,
    pub ctx: CUcontext,
    pub name: String,
    pub cc_major: i32,
    pub cc_minor: i32,
    pub sm_count: i32,
    pub smem_per_block: i32,
}

/// How many calls the query of a device makes.
pub const QUERY_CALLS: usize = 7;

/// What is asked of the first device, and how far the asking has come.
#[derive(Debug)]
pub struct DeviceQuery {
    /// How many calls have worked.
    pub done: usize,
    pub device: Device,
    pub failed: Option<String>,
}

/// What a [`DeviceQuery`] stands for.
pub ghost struct Query {
    pub done: nat,
    pub dev: CUdevice,
    pub ctx: CUcontext,
    pub name: Seq<char>,
    pub cc_major: i32,
    pub cc_minor: i32,
    pub sm_count: i32,
    pub smem_per_block: i32,
    pub failed: Option<Seq<char>>,
}

impl Query {
    /// Nothing asked yet.
    pub open spec fn start() -> Query {
        Query {
            done: 0,
            dev: 0,
            ctx: 0,
            name: Seq::empty(),
            cc_major: 0,
            cc_minor: 0,
            sm_count: 0,
            smem_per_block: 0,
            failed: None,
        }
    }

    /// The call to make, none where all is done.
    pub open spec fn call(self) -> Option<Call> {
        if self.failed is Some {
            None
        } else if self.done == 0 {
            Some(Call::DeviceGet { ordinal: 0 })
        } else if self.done == 1 {
            Some(Call::DeviceGetName { len: 128, dev: self.dev })
        } else if self.done == 2 {
            Some(Call::DeviceComputeCapability { dev: self.dev })
        } else if self.done == 3 {
            Some(
                Call::DeviceGetAttribute {
                    attribute: CU_DEVICE_ATTRIBUTE_MULTIPROCESSOR_COUNT,
                    dev: self.dev,
                },
            )
        } else if self.done == 4 {
            Some(
                Call::DeviceGetAttribute {
                    attribute: CU_DEVICE_ATTRIBUTE_MAX_SHARED_MEMORY_PER_BLOCK,
                    dev: self.dev,
                },
            )
        } else if self.done == 5 {
            Some(Call::DevicePrimaryCtxRetain { dev: self.dev })
        } else if self.done == 6 {
            Some(Call::CtxSetCurrent { ctx: self.ctx })
        } else {
            None
        }
    }

    /// What the call is named in messages.
    pub open spec fn what(self) -> Seq<char> {
        if self.done == 0 {
            "cuDeviceGet"@
        } else if self.done == 1 {
            "cuDeviceGetName"@
        } else if self.done == 2 {
            "cuDeviceComputeCapability"@
        } else if self.done == 3 {
            "cuDeviceGetAttribute(SM count)"@
        } else if self.done == 4 {
            "cuDeviceGetAttribute(smem)"@
        } else if self.done == 5 {
            "cuDevicePrimaryCtxRetain"@
        } else {
            "cuCtxSetCurrent"@
        }
    }

    /// Where a reply leads.
    pub open spec fn after(self, reply: Reply) -> Query {
        let next = Query { done: self.done + 1, ..self };
        if self.call() is None {
            self
        } else if !reply.worked() {
            Query { failed: Some(reply.failure(self.what())), ..self }
        } else if self.done == 0 {
            Query { dev: reply.number_given(), ..next }
        } else if self.done == 1 {
            Query { name: reply.text_given(), ..next }
        } else if self.done == 2 {
            Query {
                cc_major: reply.numbers_given().0,
                cc_minor: reply.numbers_given().1,
                ..next
            }
        } else if self.done == 3 {
            Query { sm_count: reply.number_given(), ..next }
        } else if self.done == 4 {
            Query { smem_per_block: reply.number_given(), ..next }
        } else if self.done == 5 {
            Query { ctx: reply.handle_given(), ..next }
        } else {
            next
        }
    }
}

impl DeviceQuery {
    /// How far this is.
    pub open spec fn view(&self) -> Query {
        Query {
            done: self.done as nat,
            dev: self.device.dev,
            ctx: self.device.ctx,
            name: self.device.name@,
            cc_major: self.device.cc_major,
            cc_minor: self.device.cc_minor,
            sm_count: self.device.sm_count,
            smem_per_block: self.device.smem_per_block,
            failed: crate::text::optional(self.failed),
        }
    }

    /// Nothing asked yet.
    pub fn new() -> (r: DeviceQuery)
        ensures
            r@ == Query::start(),
    {
        let name = String::new();
        assert(name@ =~= Seq::<char>::empty());
        DeviceQuery {
            done: 0,
            device: Device {
                dev: 0,
                ctx: 0,
                name,
                cc_major: 0,
                cc_minor: 0,
                sm_count: 0,
                smem_per_block: 0,
            },
            failed: None,
        }
    }

    /// The call to make, none where all is done.
    pub fn call(&self) -> (r: Option<Call>)
        ensures
            r == self@.call(),
    {
        let dev: CUdevice = self.device.dev;
        if self.failed.is_some() {
            None
        } else if self.done == 0 {
            Some(Call::DeviceGet { ordinal: 0 })
        } else if self.done == 1 {
            Some(Call::DeviceGetName { len: 128, dev })
        } else if self.done == 2 {
            Some(Call::DeviceComputeCapability { dev })
        } else if self.done == 3 {
            Some(
                Call::DeviceGetAttribute {
                    attribute: CU_DEVICE_ATTRIBUTE_MULTIPROCESSOR_COUNT,
                    dev,
                },
            )
        } else if self.done == 4 {
            Some(
                Call::DeviceGetAttribute {
                    attribute: CU_DEVICE_ATTRIBUTE_MAX_SHARED_MEMORY_PER_BLOCK,
                    dev,
                },
            )
        } else if self.done == 5 {
            Some(Call::DevicePrimaryCtxRetain { dev })
        } else if self.done == 6 {
            Some(Call::CtxSetCurrent { ctx: self.device.ctx })
        } else {
            None
        }
    }

    /// Takes the reply to the call.
    pub fn reply(&mut self, reply: &Reply)
        ensures
            final(self)@ == old(self)@.after(*reply),
    {
        if self.failed.is_some() || self.done >= QUERY_CALLS {
            return ;
        }
        let what: &'static str = if self.done == 0 {
            "cuDeviceGet"
        } else if self.done == 1 {
            "cuDeviceGetName"
        } else if self.done == 2 {
            "cuDeviceComputeCapability"
        } else if self.done == 3 {
            "cuDeviceGetAttribute(SM count)"
        } else if self.done == 4 {
            "cuDeviceGetAttribute(smem)"
        } else if self.done == 5 {
            "cuDevicePrimaryCtxRetain"
        } else {
            "cuCtxSetCurrent"
        };
        if let Err(e) = reply.check(what) {
            self.failed = Some(e);
            return ;
        }
        if self.done == 0 {
            self.device.dev = reply.number();
        } else if self.done == 1 {
            self.device.name = reply.text();
        } else if self.done == 2 {
            let (major, minor): (i32, i32) = reply.numbers();
            self.device.cc_major = major;
            self.device.cc_minor = minor;
        } else if self.done == 3 {
            self.device.sm_count = reply.number();
        } else if self.done == 4 {
            self.device.smem_per_block = reply.number();
        } else if self.done == 5 {
            self.device.ctx = reply.handle();
        }
        self.done = self.done + 1;
    }

    /// The device, once all is done.
    pub fn device(self) -> (r: Result<Device, String>)
        requires
            self@.call() is None,
        ensures
            match r {
                Ok(d) => self.failed is None && d == self.device && d.dev == self@.dev && d.ctx
                    == self@.ctx && d.name@ == self@.name && d.cc_major == self@.cc_major
                    && d.cc_minor == self@.cc_minor && d.sm_count == self@.sm_count
                    && d.smem_per_block == self@.smem_per_block,
                Err(e) => self@.failed == Some(e@),
            },
    {
        match self.failed {
            Some(e) => Err(e),
            None => Ok(self.device),
        }
    }
}

/// Where replies lead, one after another.
pub open spec fn query_after(q: Query, replies: Seq<Reply>) -> Query
    decreases replies.len(),
{
    if replies.len() == 0 {
        q
    } else {
        query_after(q, replies.drop_last()).after(replies.last())
    }
}

/// Where every call works, the device is what the replies say of it.
pub proof fn the_device_is_what_the_replies_say(replies: Seq<Reply>)
    requires
        replies.len() == QUERY_CALLS,
        forall|i: int| 0 <= i < QUERY_CALLS ==> (#[trigger] replies[i]).worked(),
    ensures
        query_after(Query::start(), replies) == (Query {
            done: QUERY_CALLS as nat,
            dev: replies[0].number_given(),
            name: replies[1].text_given(),
            cc_major: replies[2].numbers_given().0,
            cc_minor: replies[2].numbers_given().1,
            sm_count: replies[3].number_given(),
            smem_per_block: replies[4].number_given(),
            ctx: replies[5].handle_given(),
            failed: None,
        }),
{
    reveal_with_fuel(query_after, 8);
    let r6 = replies.drop_last();
    let r5 = r6.drop_last();
    let r4 = r5.drop_last();
    let r3 = r4.drop_last();
    let r2 = r3.drop_last();
    let r1 = r2.drop_last();
    assert(r1.drop_last().len() == 0);
    assert(r1.last() == replies[0]);
    assert(r2.last() == replies[1]);
    assert(r3.last() == replies[2]);
    assert(r4.last() == replies[3]);
    assert(r5.last() == replies[4]);
    assert(r6.last() == replies[5]);
    assert(replies.last() == replies[6]);
}

/// The first call that does not work ends the query with its failure.
pub proof fn the_first_failure_ends_the_query(q: Query, reply: Reply, more: Seq<Reply>)
    requires
        q.call() is Some,
        !reply.worked(),
    ensures
        query_after(q.after(reply), more).failed == Some(reply.failure(q.what())),
        query_after(q.after(reply), more).call() is None,
    decreases more.len(),
{
    if more.len() > 0 {
        the_first_failure_ends_the_query(q, reply, more.drop_last());
    }
}

/// The call with which all work on the current context is waited for.
pub fn sync_call() -> (r: Call)
    ensures
        r == Call::CtxSynchronize,
{
    Call::CtxSynchronize
}

/// Waits for all work on the current context.
pub fn sync(reply: &Reply) -> (r: Result<(), String>)
    ensures
        match r {
            Ok(_) => reply.worked(),
            Err(e) => !reply.worked() && e@ == reply.failure("cuCtxSynchronize"@),
        },
{
    reply.check("cuCtxSynchronize")
}

/// The call with which the memory of the device is asked for.
pub fn vram_call() -> (r: Call)
    ensures
        r == Call::MemGetInfo,
{
    Call::MemGetInfo
}

/// Free and total memory of the device in bytes.
pub fn vram(reply: &Reply) -> (r: Result<(usize, usize), String>)
    ensures
        match r {
            Ok(sizes) => reply.worked() && sizes == reply.sizes_given(),
            Err(e) => !reply.worked() && e@ == reply.failure("cuMemGetInfo"@),
        },
{
    match reply.check("cuMemGetInfo") {
        Ok(_) => Ok(reply.sizes()),
        Err(e) => Err(e),
    }
}

/// Free memory of the device in bytes.
pub fn free_vram(reply: &Reply) -> (r: Result<usize, String>)
    ensures
        match r {
            Ok(free) => reply.worked() && free == reply.sizes_given().0,
            Err(e) => !reply.worked() && e@ == reply.failure("cuMemGetInfo"@),
        },
{
    match vram(reply) {
        Ok((free, _)) => Ok(free),
        Err(e) => Err(e),
    }
}

/// The calls of a setup, one after another while each works: the driver is started, the
/// first device is got, its primary context is retained and made current, and the context
/// is asked to block on synchronisation.
pub proof fn setup_makes_its_calls_in_order(replies: Seq<Reply>)
    requires
        replies.len() == 4,
        forall|i: int| 0 <= i < 4 ==> (#[trigger] replies[i]).worked(),
    ensures
        stage_after(Stage::Init, replies.take(0)).call() == Some(Call::Init { flags: 0 }),
        stage_after(Stage::Init, replies.take(1)).call() == Some(Call::DeviceGet { ordinal: 0 }),
        stage_after(Stage::Init, replies.take(2)).call() == Some(
            Call::DevicePrimaryCtxRetain { dev: replies[1].number_given() },
        ),
        stage_after(Stage::Init, replies.take(3)).call() == Some(
            Call::CtxSetCurrent { ctx: replies[2].handle_given() },
        ),
        stage_after(Stage::Init, replies).call() == Some(Call::CtxSetFlags { flags: 4 }),
{
    assert(stage_after(Stage::Init, replies.take(0)) == Stage::Init);
    lemma_one_more(Stage::Init, replies, 0);
    lemma_one_more(Stage::Init, replies, 1);
    lemma_one_more(Stage::Init, replies, 2);
    lemma_one_more(Stage::Init, replies, 3);
    assert(replies.take(4) =~= replies);
}

proof fn lemma_one_more(stage: Stage, replies: Seq<Reply>, i: int)
    requires
        0 <= i < replies.len(),
    ensures
        stage_after(stage, replies.take(i + 1)) == stage_after(stage, replies.take(i)).after(
            replies[i],
        ),
{
    assert(replies.take(i + 1).drop_last() =~= replies.take(i));
}

/// A context that does not block is bound all the same, and that is what is printed; no
/// other reply prints anything.
pub proof fn only_a_refusal_to_block_is_printed(stage: Stage, reply: Reply)
    ensures
        stage == Stage::SetFlags ==> stage.after(reply).outcome() == Some(
            Ok::<(), Seq<char>>(()),
        ),
        stage.warning(reply) is Some <==> stage == Stage::SetFlags && !reply.worked(),
        stage.warning(reply) matches Some(line) ==> line == "lightgpu: "@ + reply.failure(
            "cuCtxSetFlags"@,
        ) + " (spin-wait stays)"@,
        stage.outcome() is Some <==> stage.call() is None,
{
}

/// The calls of a query, one after another while each works: the first device is got, and
/// asked for its name, its compute capability, its multiprocessors and its shared memory;
/// then its primary context is retained and made current.
pub proof fn queries_make_their_calls_in_order(replies: Seq<Reply>, i: int)
    requires
        replies.len() == 7,
        forall|k: int| 0 <= k < 7 ==> (#[trigger] replies[k]).worked(),
        0 <= i <= 7,
    ensures
        ({
            let dev = replies[0].number_given();
            query_after(Query::start(), replies.take(i)).call() == (if i == 0 {
                Some(Call::DeviceGet { ordinal: 0 })
            } else if i == 1 {
                Some(Call::DeviceGetName { len: 128, dev })
            } else if i == 2 {
                Some(Call::DeviceComputeCapability { dev })
            } else if i == 3 {
                Some(Call::DeviceGetAttribute { attribute: 16, dev })
            } else if i == 4 {
                Some(Call::DeviceGetAttribute { attribute: 8, dev })
            } else if i == 5 {
                Some(Call::DevicePrimaryCtxRetain { dev })
            } else if i == 6 {
                Some(Call::CtxSetCurrent { ctx: replies[5].handle_given() })
            } else {
                None
            })
        }),
{
    lemma_query_so_far(replies, i);
}

proof fn lemma_query_so_far(replies: Seq<Reply>, i: int)
    requires
        replies.len() == 7,
        forall|k: int| 0 <= k < 7 ==> (#[trigger] replies[k]).worked(),
        0 <= i <= 7,
    ensures
        ({
            let q = query_after(Query::start(), replies.take(i));
            &&& q.done == i
            &&& q.failed is None
            &&& i >= 1 ==> q.dev == replies[0].number_given()
            &&& i >= 6 ==> q.ctx == replies[5].handle_given()
        }),
    decreases i,
{
    if i > 0 {
        lemma_query_so_far(replies, i - 1);
        assert(replies.take(i).drop_last() =~= replies.take(i - 1));
        assert(replies.take(i).last() == replies[i - 1]);
    }
}

/// What failed in a query is named by the call.
pub proof fn failed_queries_name_their_call(q: Query)
    requires
        q.call() is Some,
    ensures
        q.what() == (match q.call().unwrap() {
            Call::DeviceGet { .. } => "cuDeviceGet"@,
            Call::DeviceGetName { .. } => "cuDeviceGetName"@,
            Call::DeviceComputeCapability { .. } => "cuDeviceComputeCapability"@,
            Call::DeviceGetAttribute { attribute, .. } => if attribute == 16 {
                "cuDeviceGetAttribute(SM count)"@
            } else {
                "cuDeviceGetAttribute(smem)"@
            },
            Call::DevicePrimaryCtxRetain { .. } => "cuDevicePrimaryCtxRetain"@,
            _ => "cuCtxSetCurrent"@,
        }),
{
}

} // verus!

//! Device memory: allocations, copies, and the staging of large uploads.
use crate::ffi::CUdeviceptr;
use crate::vm::{Call, Reply};
use vstd::prelude::*;

verus! {

/// A device allocation.
#[derive(Debug, PartialEq, Eq)]
pub struct DevBuf {
    pub ptr: CUdeviceptr,
    pub bytes: usize,
}

/// How much is asked of the driver: never nothing.
pub open spec fn at_least_one(bytes: usize) -> usize {
    if bytes == 0 {
        1
    } else {
        bytes
    }
}

impl DevBuf {
    /// The call that allocates.
    pub fn allocate_call(bytes: usize) -> (r: Call)
        ensures
            r == (Call::MemAlloc { bytes: at_least_one(bytes) }),
            r matches Call::MemAlloc { bytes: asked } && asked >= bytes && (bytes > 0 ==> asked
                == bytes) && (bytes == 0 ==> asked == 1),
    {
        Call::MemAlloc { bytes: if bytes == 0 { 1 } else { bytes } }
    }

    /// The allocation, which counts as many bytes as were wanted.
    pub fn allocate(bytes: usize, reply: &Reply) -> (r: Result<DevBuf, String>)
        ensures
            match r {
                Ok(b) => reply.worked() && b.ptr == reply.handle_given() && b.bytes == bytes,
                Err(e) => !reply.worked() && e@ == reply.failure("cuMemAlloc"@),
            },
    {
        match reply.check("cuMemAlloc") {
            Ok(_) => Ok(DevBuf { ptr: reply.handle(), bytes }),
            Err(e) => Err(e),
        }
    }

    /// The call that zeroes an allocation.
    pub fn zeros_call(&self) -> (r: Call)
        ensures
            r == (Call::MemsetD8 { dst: self.ptr, value: 0, bytes: at_least_one(self.bytes) }),
            r matches Call::MemsetD8 { dst, value, bytes: set } && dst == self.ptr && value == 0
                && set >= self.bytes && (self.bytes > 0 ==> set == self.bytes) && (self.bytes == 0
                ==> set == 1),
    {
        Call::MemsetD8 {
            dst: self.ptr,
            value: 0,
            bytes: if self.bytes == 0 {
                1
            } else {
                self.bytes
            },
        }
    }

    /// The zeroed allocation.
    pub fn zeros(self, reply: &Reply) -> (r: Result<DevBuf, String>)
        ensures
            match r {
                Ok(b) => reply.worked() && b == self,
                Err(e) => !reply.worked() && e@ == reply.failure("cuMemsetD8"@),
            },
    {
        match reply.check("cuMemsetD8") {
            Ok(_) => Ok(self),
            Err(e) => Err(e),
        }
    }

    /// The call that uploads `bytes` bytes, which must fit the allocation.
    pub fn upload_call(&self, bytes: usize) -> (r: Call)
        requires
            bytes <= self.bytes,
        ensures
            r == (Call::MemcpyHtoD { dst: self.ptr, bytes }),
    {
        Call::MemcpyHtoD { dst: self.ptr, bytes }
    }

    /// What comes of an upload.
    pub fn upload(&self, reply: &Reply) -> (r: Result<(), String>)
        ensures
            match r {
                Ok(_) => reply.worked(),
                Err(e) => !reply.worked() && e@ == reply.failure("cuMemcpyHtoD"@),
            },
    {
        reply.check("cuMemcpyHtoD")
    }

    /// The call that downloads `bytes` bytes, which the allocation must have.
    pub fn download_call(&self, bytes: usize) -> (r: Call)
        requires
            bytes <= self.bytes,
        ensures
            r == (Call::MemcpyDtoH { src: self.ptr, bytes }),
    {
        Call::MemcpyDtoH { src: self.ptr, bytes }
    }

    /// What comes of a download.
    pub fn download(&self, reply: &Reply) -> (r: Result<(), String>)
        ensures
            match r {
                Ok(_) => reply.worked(),
                Err(e) => !reply.worked() && e@ == reply.failure("cuMemcpyDtoH"@),
            },
    {
        reply.check("cuMemcpyDtoH")
    }
}

/// The call that uploads bytes to a device address.
pub fn copy_htod_call(dst: CUdeviceptr, src: &[u8]) -> (r: Call)
    ensures
        r == (Call::MemcpyHtoD { dst, bytes: src@.len() as usize }),
{
    Call::MemcpyHtoD { dst, bytes: src.len() }
}

/// What comes of an upload to a device address.
pub fn copy_htod(reply: &Reply) -> (r: Result<(), String>)
    ensures
        match r {
            Ok(_) => reply.worked(),
            Err(e) => !reply.worked() && e@ == reply.failure("cuMemcpyHtoD"@),
        },
{
    reply.check("cuMemcpyHtoD")
}

/// The call that downloads bytes from a device address.
pub fn copy_dtoh_call(dst: &[u8], src: CUdeviceptr) -> (r: Call)
    ensures
        r == (Call::MemcpyDtoH { src, bytes: dst@.len() as usize }),
{
    Call::MemcpyDtoH { src, bytes: dst.len() }
}

/// What comes of a download from a device address.
pub fn copy_dtoh(reply: &Reply) -> (r: Result<(), String>)
    ensures
        match r {
            Ok(_) => reply.worked(),
            Err(e) => !reply.worked() && e@ == reply.failure("cuMemcpyDtoH"@),
        },
{
    reply.check("cuMemcpyDtoH")
}

/// The call that copies on the device.
pub fn copy_d2d_call(dst: CUdeviceptr, src: CUdeviceptr, bytes: usize) -> (r: Call)
    ensures
        r == (Call::MemcpyDtoD { dst, src, bytes }),
{
    Call::MemcpyDtoD { dst, src, bytes }
}

/// What comes of a copy on the device.
pub fn copy_d2d(reply: &Reply) -> (r: Result<(), String>)
    ensures
        match r {
            Ok(_) => reply.worked(),
            Err(e) => !reply.worked() && e@ == reply.failure("cuMemcpyDtoD"@),
        },
{
    reply.check("cuMemcpyDtoD")
}

/// Chunk size for a staged upload.
pub const STAGING_CHUNK: usize = 0x400_0000;

/// A reusable host buffer for large uploads: one that is used again is faulted in
/// and stays warm.
#[derive(Debug)]
pub struct Staging {
    buf: Vec<u8>,
}

impl Staging {
    /// The bytes.
    pub closed spec fn view(&self) -> Seq<u8> {
        self.buf@
    }

    /// A buffer of `bytes`, rounded up to at least one chunk.
    pub fn new(bytes: usize) -> (r: Staging)
        ensures
            r@ == Seq::new(
                (if bytes < STAGING_CHUNK { STAGING_CHUNK } else { bytes }) as nat,
                |i: int| 0u8,
            ),
    {
        let len: usize = if bytes < STAGING_CHUNK {
            STAGING_CHUNK
        } else {
            bytes
        };
        let buf: Vec<u8> = vec![0u8; len];
        assert(buf@ =~= Seq::new(len as nat, |i: int| 0u8));
        Staging { buf }
    }

    /// A buffer of one chunk.
    pub fn chunked() -> (r: Staging)
        ensures
            r@ == Seq::new(STAGING_CHUNK as nat, |i: int| 0u8),
    {
        Staging::new(STAGING_CHUNK)
    }

    /// How many bytes it has.
    pub fn len(&self) -> (r: usize)
        ensures
            r == self@.len(),
    {
        self.buf.len()
    }

    /// Has it no bytes?
    pub fn is_empty(&self) -> (r: bool)
        ensures
            r == (self@.len() == 0),
    {
        self.buf.len() == 0
    }

    /// The bytes, for a caller that fills them itself.
    pub fn as_mut_bytes(&mut self) -> (r: &mut [u8])
        ensures
            r@ == old(self)@,
            final(self)@ == final(r)@,
    {
        self.buf.as_mut_slice()
    }

    /// The bytes.
    pub fn as_bytes(&self) -> (r: &[u8])
        ensures
            r@ == self@,
    {
        self.buf.as_slice()
    }
}

/// How far an upload through a staging buffer has come.
#[derive(Debug, PartialEq, Eq)]
pub struct Staged {
    pub dst: CUdeviceptr,
    /// How many bytes are on the device.
    pub off: usize,
}

/// How long the next chunk is.
pub open spec fn chunk_len(stage: int, left: int) -> int {
    if stage < left {
        stage
    } else {
        left
    }
}

impl Staged {
    /// Nothing copied yet.
    pub fn new(dst: CUdeviceptr) -> (r: Staged)
        ensures
            r == (Staged { dst, off: 0 }),
    {
        Staged { dst, off: 0 }
    }
}

/// Copies the next chunk into the staging buffer and gives the call that uploads
/// it from there, none where all is on the device. The caller makes the call, and
/// stops where it fails.
pub fn copy_htod_staged(state: &mut Staged, src: &[u8], stage: &mut Staging) -> (r: Result<
    Option<Call>,
    String,
>)
    requires
        old(state).off <= src@.len(),
        old(state).dst + src@.len() <= u64::MAX + 1,
    ensures
        final(state).dst == old(state).dst,
        final(stage)@.len() == old(stage)@.len(),
        if old(stage)@.len() == 0 {
            &&& r matches Err(e) && e@ == "staging buffer is empty"@
            &&& *final(state) == *old(state)
            &&& final(stage)@ == old(stage)@
        } else if old(state).off == src@.len() {
            &&& r == Ok::<Option<Call>, String>(None)
            &&& *final(state) == *old(state)
            &&& final(stage)@ == old(stage)@
        } else {
            let off = old(state).off as int;
            let n = chunk_len(old(stage)@.len() as int, src@.len() - off);
            &&& r == Ok::<Option<Call>, String>(
                Some(
                    Call::MemcpyHtoD { dst: (old(state).dst + off) as u64, bytes: n as usize },
                ),
            )
            &&& final(stage)@ == src@.subrange(off, off + n) + old(stage)@.skip(n)
            &&& final(state).off == off + n
        },
{
    let chunk: usize = stage.buf.len();
    if chunk == 0 {
        return Err("staging buffer is empty".to_owned());
    }
    let off: usize = state.off;
    if off >= src.len() {
        return Ok(None);
    }
    let left: usize = src.len() - off;
    let n: usize = if chunk < left {
        chunk
    } else {
        left
    };
    let ghost before = stage.buf@;
    let mut i: usize = 0;
    while i < n
        invariant
            i <= n <= before.len(),
            n == chunk_len(before.len() as int, src@.len() - off),
            off + n <= src.len(),
            stage.buf@ == src@.subrange(off as int, off + i) + before.skip(i as int),
            stage.buf@.len() == before.len(),
        decreases n - i,
    {
        let ghost now = stage.buf@;
        let b: u8 = src[off + i];
        stage.buf[i] = b;
        i += 1;
        assert(stage.buf@ =~= src@.subrange(off as int, off + i) + before.skip(i as int));
    }
    state.off = off + n;
    Ok(Some(Call::MemcpyHtoD { dst: state.dst + off as u64, bytes: n }))
}

/// Device memory with bytes written from an address on.
pub open spec fn written(mem: Map<int, u8>, dst: int, bytes: Seq<u8>) -> Map<int, u8> {
    mem.union_prefer_right(
        Map::new(|a: int| dst <= a < dst + bytes.len(), |a: int| bytes[a - dst]),
    )
}

/// Device memory once the rest of an upload has gone through a buffer of `chunk`
/// bytes, chunk by chunk.
pub open spec fn uploaded(mem: Map<int, u8>, dst: int, src: Seq<u8>, off: int, chunk: int) -> Map<
    int,
    u8,
>
    decreases src.len() - off,
{
    if !(0 <= off < src.len()) || chunk <= 0 {
        mem
    } else {
        let n = chunk_len(chunk, src.len() - off);
        uploaded(written(mem, dst + off, src.subrange(off, off + n)), dst, src, off + n, chunk)
    }
}

/// An upload in chunks writes what one copy of the whole would write, whatever
/// the size of the buffer.
pub proof fn chunks_write_the_whole(mem: Map<int, u8>, dst: int, src: Seq<u8>, off: int, chunk: int)
    requires
        chunk > 0,
        0 <= off <= src.len(),
    ensures
        uploaded(mem, dst, src, off, chunk) == written(mem, dst + off, src.skip(off)),
    decreases src.len() - off,
{
    if off < src.len() {
        let n = chunk_len(chunk, src.len() - off);
        let part = written(mem, dst + off, src.subrange(off, off + n));
        chunks_write_the_whole(part, dst, src, off + n, chunk);
        assert(written(part, dst + off + n, src.skip(off + n)) =~= written(
            mem,
            dst + off,
            src.skip(off),
        ));
    } else {
        assert(written(mem, dst + off, src.skip(off)) =~= mem);
    }
}

/// The driver is asked for what a buffer counts, and for one byte where that is
/// nothing: whatever a buffer lets through, a copy of at most the bytes it counts, lies
/// inside what was allocated and what was zeroed.
pub proof fn copies_lie_inside_the_allocation(counted: usize, copied: usize)
    requires
        copied <= counted,
    ensures
        copied <= at_least_one(counted),
        counted > 0 ==> at_least_one(counted) == counted,
        counted == 0 ==> at_least_one(counted) == 1,
{
}

/// A chunk fits the staging buffer and what is left, and fills one of them.
pub proof fn chunks_are_as_long_as_they_can_be(stage: int, left: int)
    ensures
        chunk_len(stage, left) <= stage,
        chunk_len(stage, left) <= left,
        chunk_len(stage, left) == stage || chunk_len(stage, left) == left,
{
}

/// Bytes that are written stand at their addresses, and no other address changes.
pub proof fn only_the_written_bytes_change(mem: Map<int, u8>, dst: int, bytes: Seq<u8>, a: int)
    ensures
        dst <= a < dst + bytes.len() ==> written(mem, dst, bytes).dom().contains(a) && written(
            mem,
            dst,
            bytes,
        )[a] == bytes[a - dst],
        !(dst <= a < dst + bytes.len()) ==> written(mem, dst, bytes).dom().contains(a)
            == mem.dom().contains(a) && (mem.dom().contains(a) ==> written(mem, dst, bytes)[a]
            == mem[a]),
{
}

/// A chunk of a staged upload is 64 MiB.
pub proof fn a_chunk_is_64_mib()
    ensures
        STAGING_CHUNK == 64 * 1024 * 1024,
{
}

} // verus!

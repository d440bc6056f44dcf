//! A reader for the standard `.safetensors` container.
//!
//! The container is
//!
//! ```text
//! u64 header_len (little endian) | header_len bytes of JSON | tensor payloads
//! ```
//!
//! where the header holds one entry per tensor (`dtype`, `shape` and
//! `data_offsets`) and optionally a `__metadata__` of string pairs. Offsets are
//! reported absolute in the file, not relative to the payload section as the
//! container encodes them.
//!
//! The reader is strict about anything that would let a malformed file reach
//! beyond its bytes: the header must be a JSON object inside the file; every
//! tensor must name a known element type, carry exactly two offsets in order
//! and lie inside the file; a dimension must be a non-negative integer; and a
//! payload must be exactly as long as its shape needs. The rules of the
//! container on ordering and contiguity are not checked.
pub mod format;
pub mod laws;

use crate::json::{parse, Object, Value};
use crate::mmap;
use crate::text::{
    debug_str, list_string, parse_usize, path_debug_str, same_text, usize_string,
};
use vstd::prelude::*;
use vstd::slice::slice_subrange;

verus! {

/// Element type of a tensor payload.
#[derive(Debug, Clone, Copy, PartialEq, Eq, Structural)]
pub enum DType {
    Bool,
    U8,
    I8,
    U16,
    I16,
    U32,
    I32,
    U64,
    I64,
    F16,
    BF16,
    F32,
    F64,
}

impl DType {
    /// The element type of a name.
    pub fn parse(s: &str) -> (r: Result<DType, String>)
        ensures
            match r {
                Ok(d) => crate::safetensors::format::dtype_of(s@) == Some(d),
                Err(e) => crate::safetensors::format::dtype_of(s@) is None && e@
                    == "unknown safetensors dtype `"@ + s@ + "`"@,
            },
    {
        if same_text(s, "BOOL") {
            Ok(DType::Bool)
        } else if same_text(s, "U8") {
            Ok(DType::U8)
        } else if same_text(s, "I8") {
            Ok(DType::I8)
        } else if same_text(s, "U16") {
            Ok(DType::U16)
        } else if same_text(s, "I16") {
            Ok(DType::I16)
        } else if same_text(s, "U32") {
            Ok(DType::U32)
        } else if same_text(s, "I32") {
            Ok(DType::I32)
        } else if same_text(s, "U64") {
            Ok(DType::U64)
        } else if same_text(s, "I64") {
            Ok(DType::I64)
        } else if same_text(s, "F16") {
            Ok(DType::F16)
        } else if same_text(s, "BF16") {
            Ok(DType::BF16)
        } else if same_text(s, "F32") {
            Ok(DType::F32)
        } else if same_text(s, "F64") {
            Ok(DType::F64)
        } else {
            let mut e = "unknown safetensors dtype `".to_owned();
            e.append(s);
            e.append("`");
            Err(e)
        }
    }

    /// Size of one element in bytes.
    pub fn size(&self) -> (r: usize)
        ensures
            r == crate::safetensors::format::dtype_size(*self),
    {
        match self {
            DType::Bool | DType::U8 | DType::I8 => 1,
            DType::U16 | DType::I16 | DType::F16 | DType::BF16 => 2,
            DType::U32 | DType::I32 | DType::F32 => 4,
            DType::U64 | DType::I64 | DType::F64 => 8,
        }
    }

    /// The element type as messages name it.
    pub fn name(&self) -> (r: &'static str)
        ensures
            r@ == crate::safetensors::format::dtype_text(*self),
    {
        match self {
            DType::Bool => "Bool",
            DType::U8 => "U8",
            DType::I8 => "I8",
            DType::U16 => "U16",
            DType::I16 => "I16",
            DType::U32 => "U32",
            DType::I32 => "I32",
            DType::U64 => "U64",
            DType::I64 => "I64",
            DType::F16 => "F16",
            DType::BF16 => "BF16",
            DType::F32 => "F32",
            DType::F64 => "F64",
        }
    }
}

/// One tensor's entry in the header, with `offset` made absolute.
#[derive(Debug, PartialEq, Eq)]
pub struct TensorInfo {
    pub name: String,
    pub dtype: DType,
    pub shape: Vec<usize>,
    /// Byte offset of the payload in the file, not in the payload section.
    pub offset: usize,
    /// Length of the payload in bytes.
    pub nbytes: usize,
}

impl TensorInfo {
    /// The entry.
    pub open spec fn view(&self) -> crate::safetensors::format::Tensor {
        crate::safetensors::format::Tensor {
            name: self.name@,
            dtype: self.dtype,
            shape: self.shape@,
            offset: self.offset as int,
            nbytes: self.nbytes as int,
        }
    }

    /// The number of elements.
    pub fn numel(&self) -> (r: usize)
        requires
            crate::safetensors::format::product_fits(self.shape@),
        ensures
            r == crate::safetensors::format::product(self.shape@),
    {
        match checked_product(&self.shape) {
            Some(n) => n,
            None => 0,
        }
    }
}

impl Clone for TensorInfo {
    fn clone(&self) -> (r: TensorInfo)
        ensures
            r@ == self@,
    {
        let shape: Vec<usize> = self.shape.clone();
        assert(shape@ =~= self.shape@);
        TensorInfo {
            name: self.name.as_str().to_owned(),
            dtype: self.dtype,
            shape,
            offset: self.offset,
            nbytes: self.nbytes,
        }
    }
}

/// The product of dimensions, multiplied out from the first on, where no step
/// overflows.
fn checked_product(shape: &Vec<usize>) -> (r: Option<usize>)
    ensures
        match r {
            Some(n) => crate::safetensors::format::product_fits(shape@) && n
                == crate::safetensors::format::product(shape@),
            None => !crate::safetensors::format::product_fits(shape@),
        },
{
    let mut n: usize = 1;
    let mut i: usize = 0;
    while i < shape.len()
        invariant
            i <= shape@.len(),
            n == crate::safetensors::format::product(shape@.take(i as int)),
            forall|j: int|
                0 <= j <= i ==> crate::safetensors::format::product(#[trigger] shape@.take(j))
                    <= usize::MAX,
        decreases shape@.len() - i,
    {
        assert(shape@.take(i + 1).drop_last() =~= shape@.take(i as int));
        match n.checked_mul(shape[i]) {
            Some(m) => {
                n = m;
            },
            None => {
                assert(crate::safetensors::format::product(shape@.take(i + 1)) > usize::MAX);
                return None;
            },
        }
        i += 1;
    }
    assert(shape@.take(shape@.len() as int) =~= shape@);
    Some(n)
}

/// A message on a tensor.
fn tensor_message(name: &str, rest: &str) -> (r: String)
    ensures
        r@ == "tensor `"@ + name@ + rest@,
{
    let mut e = "tensor `".to_owned();
    e.append(name);
    e.append(rest);
    e
}

/// The element type that an entry names.
fn entry_dtype(name: &str, entry: &Value) -> (r: Result<DType, String>)
    ensures
        match r {
            Ok(d) => crate::safetensors::format::entry_dtype(entry@) == Ok::<
                DType,
                crate::safetensors::format::TensorFault,
            >(d),
            Err(e) => crate::safetensors::format::entry_dtype(entry@) matches Err(f) && e@
                == f.message(name@),
        },
{
    if let Some(v) = entry.get("dtype") {
        if let Some(d) = v.as_str() {
            return match DType::parse(d) {
                Ok(dtype) => Ok(dtype),
                Err(_) => {
                    let mut rest = "`: unknown safetensors dtype `".to_owned();
                    rest.append(d);
                    rest.append("`");
                    Err(tensor_message(name, rest.as_str()))
                },
            };
        }
    }
    Err(tensor_message(name, "` has no dtype"))
}

/// The shape that an entry gives.
fn entry_shape(name: &str, entry: &Value) -> (r: Result<Vec<usize>, String>)
    ensures
        match r {
            Ok(shape) => crate::safetensors::format::entry_shape(entry@) == Ok::<
                Seq<usize>,
                crate::safetensors::format::TensorFault,
            >(shape@),
            Err(e) => crate::safetensors::format::entry_shape(entry@) matches Err(f) && e@
                == f.message(name@),
        },
{
    if let Some(v) = entry.get("shape") {
        if let Some(a) = v.as_array() {
            let ghost all = crate::json::values(a@);
            let mut shape: Vec<usize> = Vec::new();
            let mut i: usize = 0;
            while i < a.len()
                invariant
                    i <= a@.len(),
                    all == crate::json::values(a@),
                    crate::safetensors::format::entry_shape(entry@) == (
                    match crate::safetensors::format::dimensions(all) {
                        Some(shape) => Ok::<Seq<usize>, crate::safetensors::format::TensorFault>(
                            shape,
                        ),
                        None => Err(crate::safetensors::format::TensorFault::ShapeEntry),
                    }),
                    crate::safetensors::format::dimensions(all.take(i as int)) == Some(shape@),
                decreases a@.len() - i,
            {
                assert(all.take(i + 1).drop_last() =~= all.take(i as int));
                match a[i].as_usize() {
                    Some(d) => {
                        shape.push(d);
                    },
                    None => {
                        proof {
                            crate::safetensors::laws::lemma_dimensions_none(all, i + 1);
                        }
                        return Err(
                            tensor_message(
                                name,
                                "`: shape entries must be non-negative integers",
                            ),
                        );
                    },
                }
                i += 1;
            }
            assert(all.take(all.len() as int) =~= all);
            return Ok(shape);
        }
    }
    Err(tensor_message(name, "` has no shape"))
}

/// The start and the end that an entry gives.
fn entry_span(name: &str, entry: &Value) -> (r: Result<(usize, usize), String>)
    ensures
        match r {
            Ok((lo, hi)) => lo <= hi && crate::safetensors::format::entry_span(entry@) == Ok::<
                (int, int),
                crate::safetensors::format::TensorFault,
            >((lo as int, hi as int)),
            Err(e) => crate::safetensors::format::entry_span(entry@) matches Err(f) && e@
                == f.message(name@),
        },
{
    if let Some(v) = entry.get("data_offsets") {
        if let Some(a) = v.as_array() {
            if a.len() != 2 {
                let mut rest = "`: data_offsets has ".to_owned();
                let d = usize_string(a.len());
                rest.append(d.as_str());
                rest.append(" entries, expected 2");
                return Err(tensor_message(name, rest.as_str()));
            }
            let lo: usize = match a[0].as_usize() {
                Some(lo) => lo,
                None => {
                    return Err(
                        tensor_message(name, "`: data_offsets[0] is not a non-negative integer"),
                    );
                },
            };
            let hi: usize = match a[1].as_usize() {
                Some(hi) => hi,
                None => {
                    return Err(
                        tensor_message(name, "`: data_offsets[1] is not a non-negative integer"),
                    );
                },
            };
            if hi < lo {
                let mut rest = "`: data_offsets [".to_owned();
                let l = usize_string(lo);
                rest.append(l.as_str());
                rest.append(", ");
                let h = usize_string(hi);
                rest.append(h.as_str());
                rest.append("] are reversed");
                return Err(tensor_message(name, rest.as_str()));
            }
            return Ok((lo, hi));
        }
    }
    Err(tensor_message(name, "` has no data_offsets"))
}

/// The tensor that an entry of the header describes.
pub fn parse_tensor(name: &str, entry: &Value, header_end: usize, file_len: usize) -> (r: Result<
    TensorInfo,
    String,
>)
    ensures
        match r {
            Ok(t) => crate::safetensors::format::tensor_of(
                name@,
                entry@,
                header_end as int,
                file_len as int,
            ) == Ok::<
                crate::safetensors::format::Tensor,
                crate::safetensors::format::TensorFault,
            >(t@),
            Err(e) => crate::safetensors::format::tensor_of(
                name@,
                entry@,
                header_end as int,
                file_len as int,
            ) matches Err(f) && e@ == f.message(name@),
        },
{
    let dtype: DType = match entry_dtype(name, entry) {
        Ok(d) => d,
        Err(e) => {
            return Err(e);
        },
    };
    let shape = match entry_shape(name, entry) {
        Ok(s) => s,
        Err(e) => {
            return Err(e);
        },
    };
    let (lo, hi): (usize, usize) = match entry_span(name, entry) {
        Ok(span) => span,
        Err(e) => {
            return Err(e);
        },
    };
    let nbytes: usize = hi - lo;
    let numel: usize = match checked_product(&shape) {
        Some(n) => n,
        None => {
            return Err(tensor_message(name, "`: shape overflows"));
        },
    };
    let expect: usize = match numel.checked_mul(dtype.size()) {
        Some(n) => n,
        None => {
            return Err(tensor_message(name, "`: shape overflows"));
        },
    };
    if expect != nbytes {
        let mut rest = "`: data_offsets span ".to_owned();
        let n = usize_string(nbytes);
        rest.append(n.as_str());
        rest.append(" bytes but shape ");
        let list = list_string(&shape);
        rest.append(list.as_str());
        rest.append(" of ");
        rest.append(dtype.name());
        rest.append(" needs ");
        let x = usize_string(expect);
        rest.append(x.as_str());
        return Err(tensor_message(name, rest.as_str()));
    }
    let offset: usize = match header_end.checked_add(lo) {
        Some(o) => o,
        None => {
            return Err(tensor_message(name, "`: offset overflows"));
        },
    };
    let end: usize = match offset.checked_add(nbytes) {
        Some(e) => e,
        None => {
            return Err(tensor_message(name, "`: offset overflows"));
        },
    };
    if end > file_len {
        let mut rest = "`: payload at ".to_owned();
        let o = usize_string(offset);
        rest.append(o.as_str());
        rest.append("..");
        let n = usize_string(end);
        rest.append(n.as_str());
        rest.append(" is outside the ");
        let l = usize_string(file_len);
        rest.append(l.as_str());
        rest.append("-byte file");
        return Err(tensor_message(name, rest.as_str()));
    }
    Ok(TensorInfo { name: name.to_owned(), dtype, shape, offset, nbytes })
}

/// The entries that a list of infos stands for.
pub open spec fn infos(v: Seq<TensorInfo>) -> Seq<crate::safetensors::format::Tensor> {
    Seq::new(v.len(), |i: int| v[i]@)
}

/// The pairs that a list of strings stands for.
pub open spec fn pairs(v: Seq<(String, String)>) -> Seq<(Seq<char>, Seq<char>)> {
    Seq::new(v.len(), |i: int| (v[i].0@, v[i].1@))
}

/// The names that a list of strings stands for.
pub open spec fn names(v: Seq<String>) -> Seq<Seq<char>> {
    Seq::new(v.len(), |i: int| v[i]@)
}

/// The string values among members, in the order of their keys.
fn string_values(o: &Object) -> (r: Vec<(String, String)>)
    ensures
        pairs(r@) == crate::safetensors::format::strings_of(crate::json::grammar::by_key(o@)),
{
    let listed = o.entries();
    let ghost m = crate::json::listing(listed@);
    let mut out: Vec<(String, String)> = Vec::new();
    let mut i: usize = 0;
    assert(pairs(out@) =~= Seq::<(Seq<char>, Seq<char>)>::empty());
    while i < listed.len()
        invariant
            i <= m.len(),
            m == crate::json::listing(listed@),
            pairs(out@) == crate::safetensors::format::strings_of(m.take(i as int)),
        decreases m.len() - i,
    {
        let ghost before = pairs(out@);
        assert(m.take(i + 1).drop_last() =~= m.take(i as int));
        let (key, value) = listed[i];
        if let Some(s) = value.as_str() {
            out.push((key.to_owned(), s.to_owned()));
            assert(pairs(out@) =~= before.push((m[i as int].0, s@)));
        }
        i += 1;
    }
    assert(m.take(m.len() as int) =~= m);
    out
}

/// What is said of a header with faulty tensors.
fn fault_among(o: &Object, header_end: usize, file_len: usize) -> (r: String)
    requires
        crate::safetensors::format::tensors_of(
            o@,
            header_end as int,
            file_len as int,
        ) is Err,
    ensures
        r@ == crate::safetensors::format::fault_of(o@, header_end as int, file_len as int),
{
    let listed = o.entries();
    let ghost m = crate::json::listing(listed@);
    let ghost end = header_end as int;
    let ghost len = file_len as int;
    proof {
        crate::safetensors::laws::a_faulty_header_is_faulty_by_name(o@, end, len);
    }
    let mut i: usize = 0;
    while i < listed.len()
        invariant
            i <= m.len(),
            m == crate::json::listing(listed@),
            m == crate::json::grammar::by_key(o@),
            end == header_end,
            len == file_len,
            crate::safetensors::format::tensors_of(m.take(i as int), end, len) is Ok,
        decreases m.len() - i,
    {
        assert(m.take(i + 1).drop_last() =~= m.take(i as int));
        let (key, value) = listed[i];
        assert((key@, value@) == m[i as int]);
        if !same_text(key, "__metadata__") {
            if let Err(e) = parse_tensor(key, value, header_end, file_len) {
                proof {
                    crate::safetensors::laws::lemma_first_fault(m, end, len, i + 1);
                }
                return e;
            }
        }
        i += 1;
    }
    assert(m.take(m.len() as int) =~= m);
    String::new()
}

/// A file's bytes and its tensor index.
pub struct File<'a> {
    map: mmap::File<'a>,
    tensors: Vec<TensorInfo>,
    order: Vec<String>,
    metadata: Vec<(String, String)>,
    data_start: usize,
}

/// Little-endian bytes as a number.
fn le_u64(bytes: &[u8]) -> (r: u64)
    requires
        bytes@.len() == 8,
    ensures
        r == crate::text::le_value(bytes@),
{
    proof {
        reveal_with_fuel(crate::text::le_value, 9);
        let b = bytes@;
        assert(b.drop_first()[0] == b[1]);
        assert(b.drop_first().drop_first()[0] == b[2]);
        assert(b.drop_first().drop_first().drop_first()[0] == b[3]);
        let c = b.drop_first().drop_first().drop_first().drop_first();
        assert(c[0] == b[4]);
        assert(c.drop_first()[0] == b[5]);
        assert(c.drop_first().drop_first()[0] == b[6]);
        assert(c.drop_first().drop_first().drop_first()[0] == b[7]);
    }
    bytes[0] as u64 + 256 * (bytes[1] as u64 + 256 * (bytes[2] as u64 + 256 * (bytes[3] as u64 + 256
        * (bytes[4] as u64 + 256 * (bytes[5] as u64 + 256 * (bytes[6] as u64 + 256 * (
    bytes[7] as u64)))))))
}

/// A message on a file.
fn file_message(path: &str, rest: &str) -> (r: String)
    ensures
        r@ == path@ + rest@,
{
    let mut e = path.to_owned();
    e.append(rest);
    e
}

impl<'a> File<'a> {
    /// The bytes of the file.
    pub closed spec fn content(&self) -> Seq<u8> {
        self.map.content()
    }

    /// The path of the file, as it stands in messages.
    pub closed spec fn source(&self) -> Seq<char> {
        self.map.source()
    }

    /// What the container holds.
    pub closed spec fn view(&self) -> crate::safetensors::format::Contents {
        crate::safetensors::format::Contents {
            tensors: infos(self.tensors@),
            metadata: pairs(self.metadata@),
            data_start: self.data_start as int,
        }
    }

    /// The index is that of the bytes, and the names are listed in its order.
    pub closed spec fn wf(&self) -> bool {
        &&& crate::safetensors::format::container(self.content(), self.source()) == Ok::<
            crate::safetensors::format::Contents,
            Seq<char>,
        >(self@)
        &&& names(self.order@) == crate::safetensors::format::tensor_names(self@.tensors)
    }

    /// What a file that is well made holds is what its bytes say.
    pub proof fn lemma_wf(&self)
        requires
            self.wf(),
        ensures
            crate::safetensors::format::container(self.content(), self.source()) == Ok::<
                crate::safetensors::format::Contents,
                Seq<char>,
            >(self@),
    {
    }

    /// Reads the index of a mapped file.
    pub fn open(bytes: &'a [u8], path: &str) -> (r: Result<File<'a>, String>)
        ensures
            match r {
                Ok(f) => f.wf() && f.content() == bytes@ && f.source() == path@
                    && bytes@.len() > 0 && crate::safetensors::format::container(bytes@, path@)
                    == Ok::<crate::safetensors::format::Contents, Seq<char>>(f@),
                Err(e) => if bytes@.len() == 0 {
                    e@ == path@ + ": file is empty"@
                } else {
                    crate::safetensors::format::container(bytes@, path@) == Err::<
                        crate::safetensors::format::Contents,
                        Seq<char>,
                    >(e@)
                },
            },
    {
        match mmap::File::open(bytes, path) {
            Ok(map) => File::from_mapping(map),
            Err(e) => Err(e),
        }
    }

    /// Reads the index of a file that was read into the heap.
    pub fn read(bytes: &'a [u8], path: &str) -> (r: Result<File<'a>, String>)
        ensures
            match r {
                Ok(f) => f.wf() && f.content() == bytes@ && f.source() == path@
                    && crate::safetensors::format::container(bytes@, path@) == Ok::<
                    crate::safetensors::format::Contents,
                    Seq<char>,
                >(f@),
                Err(e) => crate::safetensors::format::container(bytes@, path@) == Err::<
                    crate::safetensors::format::Contents,
                    Seq<char>,
                >(e@),
            },
    {
        File::from_mapping(mmap::File::read(bytes, path))
    }

    /// Reads the index of a file.
    pub fn from_mapping(map: mmap::File<'a>) -> (r: Result<File<'a>, String>)
        ensures
            match r {
                Ok(f) => f.wf() && f.content() == map.content() && f.source() == map.source()
                    && crate::safetensors::format::container(map.content(), map.source()) == Ok::<
                    crate::safetensors::format::Contents,
                    Seq<char>,
                >(f@),
                Err(e) => crate::safetensors::format::container(map.content(), map.source())
                    == Err::<crate::safetensors::format::Contents, Seq<char>>(e@),
            },
    {
        let all = map.as_slice();
        if all.len() < 8 {
            return Err(file_message(map.path(), ": too small to be safetensors"));
        }
        let first = slice_subrange(all, 0, 8);
        assert(first@ =~= all@.take(8));
        let announced: u64 = le_u64(first);
        if announced > (usize::MAX - 8) as u64 {
            return Err("safetensors header length overflows".to_owned());
        }
        let hlen: usize = announced as usize;
        let header_end: usize = 8 + hlen;
        if header_end > all.len() {
            let mut e = file_message(map.path(), ": header length ");
            let h = usize_string(hlen);
            e.append(h.as_str());
            e.append(" exceeds file size ");
            let l = usize_string(all.len());
            e.append(l.as_str());
            return Err(e);
        }
        let root = match parse(slice_subrange(all, 8, header_end)) {
            Ok(v) => v,
            Err(e) => {
                let mut m = file_message(map.path(), ": safetensors header: ");
                m.append(e.as_str());
                return Err(m);
            },
        };
        let obj = match root.as_object() {
            Some(o) => o,
            None => {
                return Err("safetensors header is not a JSON object".to_owned());
            },
        };
        let mut tensors: Vec<TensorInfo> = Vec::new();
        let mut order: Vec<String> = Vec::new();
        let mut i: usize = 0;
        let ghost m = obj@;
        proof {
            assert(infos(tensors@) =~= Seq::<crate::safetensors::format::Tensor>::empty());
            assert(names(order@) =~= crate::safetensors::format::tensor_names(infos(tensors@)));
        }
        while i < obj.len()
            invariant
                i <= m.len(),
                m == obj@,
                all@.len() <= usize::MAX,
                header_end <= all@.len(),
                all@ == map.content(),
                crate::safetensors::format::tensors_of(
                    m.take(i as int),
                    header_end as int,
                    all@.len() as int,
                ) == Ok::<Seq<crate::safetensors::format::Tensor>, Seq<char>>(infos(tensors@)),
                names(order@) == crate::safetensors::format::tensor_names(infos(tensors@)),
                crate::safetensors::format::tensors_of(
                    m,
                    header_end as int,
                    all@.len() as int,
                ) is Err ==> crate::safetensors::format::container(map.content(), map.source())
                    == Err::<crate::safetensors::format::Contents, Seq<char>>(
                    crate::safetensors::format::fault_of(
                        m,
                        header_end as int,
                        all@.len() as int,
                    ),
                ),
            decreases m.len() - i,
        {
            assert(m.take(i + 1).drop_last() =~= m.take(i as int));
            let (key, entry) = obj.in_text(i);
            if !same_text(key, "__metadata__") {
                match parse_tensor(key, entry, header_end, all.len()) {
                    Ok(t) => {
                        let ghost before = infos(tensors@);
                        let ghost listed = names(order@);
                        order.push(t.name.as_str().to_owned());
                        let ghost added = t@;
                        tensors.push(t);
                        proof {
                            assert(infos(tensors@) =~= before.push(added));
                            assert(names(order@) =~= listed.push(added.name));
                            assert(crate::safetensors::format::tensor_names(before.push(added))
                                =~= crate::safetensors::format::tensor_names(before).push(
                                added.name,
                            ));
                        }
                    },
                    Err(_) => {
                        proof {
                            crate::safetensors::laws::lemma_first_fault(
                                m,
                                header_end as int,
                                all@.len() as int,
                                i + 1,
                            );
                        }
                        return Err(fault_among(obj, header_end, all.len()));
                    },
                }
            }
            i += 1;
        }
        assert(m.take(m.len() as int) =~= m);
        if tensors.len() == 0 {
            return Err(file_message(map.path(), ": header declares no tensors"));
        }
        let mut metadata: Vec<(String, String)> = Vec::new();
        assert(pairs(metadata@) =~= Seq::<(Seq<char>, Seq<char>)>::empty());
        if let Some(v) = obj.get("__metadata__") {
            if let Some(o) = v.as_object() {
                metadata = string_values(o);
            }
        }
        Ok(File { map, tensors, order, metadata, data_start: header_end })
    }

    /// The names of the tensors, in the order in which the header lists them.
    pub fn order(&self) -> (r: &Vec<String>)
        requires
            self.wf(),
        ensures
            names(r@) == crate::safetensors::format::tensor_names(self@.tensors),
    {
        &self.order
    }

    /// The metadata of the header, in the order of its keys, none if it has none.
    pub fn metadata(&self) -> (r: &Vec<(String, String)>)
        ensures
            pairs(r@) == self@.metadata,
    {
        &self.metadata
    }

    /// The metadata value of a key.
    pub fn metadata_get(&self, key: &str) -> (r: Option<&str>)
        ensures
            match r {
                Some(s) => crate::safetensors::format::find_text(self@.metadata, key@) == Some(s@),
                None => crate::safetensors::format::find_text(self@.metadata, key@) is None,
            },
    {
        let ghost all = self@.metadata;
        let mut i: usize = 0;
        assert(all.skip(0) =~= all);
        while i < self.metadata.len()
            invariant
                i <= all.len(),
                all == pairs(self.metadata@),
                all == self@.metadata,
                crate::safetensors::format::find_text(all, key@)
                    == crate::safetensors::format::find_text(all.skip(i as int), key@),
            decreases all.len() - i,
        {
            assert(all.skip(i as int).drop_first() =~= all.skip(i + 1));
            if same_text(self.metadata[i].0.as_str(), key) {
                return Some(self.metadata[i].1.as_str());
            }
            i += 1;
        }
        None
    }

    /// The metadata value of a key, read as a number.
    pub fn metadata_usize(&self, key: &str) -> (r: Result<usize, String>)
        ensures
            match r {
                Ok(n) => crate::safetensors::format::metadata_number(self@, key@) == Ok::<
                    nat,
                    Seq<char>,
                >(n as nat),
                Err(e) => crate::safetensors::format::metadata_number(self@, key@) == Err::<
                    nat,
                    Seq<char>,
                >(e@),
            },
    {
        match self.metadata_get(key) {
            None => {
                let mut e = "safetensors metadata has no `".to_owned();
                e.append(key);
                e.append("`");
                Err(e)
            },
            Some(s) => match parse_usize(s) {
                Ok(n) => Ok(n),
                Err(why) => {
                    let mut e = "safetensors metadata `".to_owned();
                    e.append(key);
                    e.append("` = ");
                    let quoted = debug_str(s);
                    e.append(quoted.as_str());
                    e.append(": ");
                    e.append(why.as_str());
                    Err(e)
                },
            },
        }
    }

    /// Where the tensor of a name stands in the index.
    fn position(&self, name: &str) -> (r: Option<usize>)
        ensures
            match r {
                Some(i) => i < self.tensors@.len() && crate::safetensors::format::find_tensor(
                    self@.tensors,
                    name@,
                ) == Some(self.tensors@[i as int]@),
                None => crate::safetensors::format::find_tensor(self@.tensors, name@) is None,
            },
    {
        let ghost all = self@.tensors;
        let mut i: usize = 0;
        assert(all.skip(0) =~= all);
        while i < self.tensors.len()
            invariant
                i <= all.len(),
                all == infos(self.tensors@),
                all == self@.tensors,
                crate::safetensors::format::find_tensor(all, name@)
                    == crate::safetensors::format::find_tensor(all.skip(i as int), name@),
            decreases all.len() - i,
        {
            assert(all.skip(i as int).drop_first() =~= all.skip(i + 1));
            if same_text(self.tensors[i].name.as_str(), name) {
                return Some(i);
            }
            i += 1;
        }
        None
    }

    /// Is there a tensor of this name?
    pub fn contains(&self, name: &str) -> (r: bool)
        ensures
            r == (crate::safetensors::format::find_tensor(self@.tensors, name@) is Some),
    {
        self.position(name).is_some()
    }

    /// One tensor's entry.
    pub fn info(&self, name: &str) -> (r: Result<&TensorInfo, String>)
        ensures
            match r {
                Ok(t) => crate::safetensors::format::find_tensor(self@.tensors, name@) == Some(t@),
                Err(e) => crate::safetensors::format::find_tensor(self@.tensors, name@) is None
                    && e@ == crate::safetensors::format::no_tensor(name@),
            },
    {
        match self.position(name) {
            Some(i) => Ok(&self.tensors[i]),
            None => {
                let mut e = "no tensor `".to_owned();
                e.append(name);
                e.append("` in the checkpoint");
                Err(e)
            },
        }
    }

    /// The tensor's payload.
    pub fn raw(&self, name: &str) -> (r: Result<&'a [u8], String>)
        requires
            self.wf(),
        ensures
            match r {
                Ok(b) => crate::safetensors::format::find_tensor(self@.tensors, name@) matches Some(
                    t,
                ) && b@ == crate::safetensors::format::payload(self.content(), t),
                Err(e) => crate::safetensors::format::find_tensor(self@.tensors, name@) is None
                    && e@ == crate::safetensors::format::no_tensor(name@),
            },
    {
        match self.info(name) {
            Err(e) => Err(e),
            Ok(t) => {
                proof {
                    crate::safetensors::laws::lemma_found(self@.tensors, name@);
                    let i = choose|i: int|
                        0 <= i < self@.tensors.len() && self@.tensors[i] == t@;
                    crate::safetensors::laws::tensors_lie_inside(
                        self.content(),
                        self.source(),
                        i,
                    );
                }
                let all = self.map.as_slice();
                assert(all.len() <= usize::MAX);
                Ok(slice_subrange(all, t.offset, t.offset + t.nbytes))
            },
        }
    }

    /// The payload of a tensor of `F32`, refused where its bytes are of another
    /// type or do not start at a multiple of four.
    pub fn f32_bytes(&self, name: &str) -> (r: Result<&'a [u8], String>)
        requires
            self.wf(),
        ensures
            match r {
                Ok(b) => crate::safetensors::format::f32_tensor(self@.tensors, name@) matches Ok(t)
                    && b@ == crate::safetensors::format::payload(self.content(), t) && b@.len()
                    == 4 * crate::safetensors::format::product(t.shape),
                Err(e) => crate::safetensors::format::f32_tensor(self@.tensors, name@) == Err::<
                    crate::safetensors::format::Tensor,
                    Seq<char>,
                >(e@),
            },
    {
        match self.info(name) {
            Err(e) => Err(e),
            Ok(t) => {
                if t.dtype != DType::F32 {
                    let mut rest = "` is ".to_owned();
                    rest.append(t.dtype.name());
                    rest.append(", not F32");
                    return Err(tensor_message(name, rest.as_str()));
                }
                if t.offset % 4 != 0 {
                    let mut rest = "` starts at byte ".to_owned();
                    let o = usize_string(t.offset);
                    rest.append(o.as_str());
                    rest.append(" in the file, which is not 4-byte aligned");
                    return Err(tensor_message(name, rest.as_str()));
                }
                proof {
                    crate::safetensors::laws::lemma_found(self@.tensors, name@);
                    let i = choose|i: int|
                        0 <= i < self@.tensors.len() && self@.tensors[i] == t@;
                    crate::safetensors::laws::tensors_lie_inside(
                        self.content(),
                        self.source(),
                        i,
                    );
                    let size = crate::safetensors::format::dtype_size(t@.dtype);
                    let count = crate::safetensors::format::product(t@.shape);
                    assert(size == 4);
                    assert(count * size == 4 * count);
                    assert(t@.nbytes == 4 * count);
                    assert(crate::safetensors::format::payload(self.content(), t@).len()
                        == t@.nbytes);
                }
                self.raw(name)
            },
        }
    }

    /// The payload of a tensor of `F32`, copied out as the bits of its elements.
    pub fn to_f32_bits(&self, name: &str) -> (r: Result<Vec<u32>, String>)
        requires
            self.wf(),
        ensures
            match r {
                Ok(v) => crate::safetensors::format::f32_tensor(self@.tensors, name@) matches Ok(t)
                    && v@.len() == crate::safetensors::format::product(t.shape) && forall|i: int|
                    0 <= i < v@.len() ==> #[trigger] v@[i] == crate::text::le_value(
                        crate::safetensors::format::payload(self.content(), t).subrange(
                            4 * i,
                            4 * i + 4,
                        ),
                    ),
                Err(e) => crate::safetensors::format::f32_tensor(self@.tensors, name@) == Err::<
                    crate::safetensors::format::Tensor,
                    Seq<char>,
                >(e@),
            },
    {
        match self.f32_bytes(name) {
            Err(e) => Err(e),
            Ok(b) => {
                let mut v: Vec<u32> = Vec::new();
                let mut at: usize = 0;
                while at < b.len()
                    invariant
                        at <= b@.len(),
                        at == 4 * v@.len(),
                        b@.len() % 4 == 0,
                        forall|i: int|
                            0 <= i < v@.len() ==> #[trigger] v@[i] == crate::text::le_value(
                                b@.subrange(4 * i, 4 * i + 4),
                            ),
                    decreases b@.len() - at,
                {
                    assert(at + 4 <= b.len());
                    v.push(le_u32(slice_subrange(b, at, at + 4)));
                    at += 4;
                }
                Ok(v)
            },
        }
    }

    /// A tensor's shape.
    pub fn shape(&self, name: &str) -> (r: Result<&Vec<usize>, String>)
        ensures
            match r {
                Ok(s) => crate::safetensors::format::find_tensor(self@.tensors, name@) matches Some(
                    t,
                ) && s@ == t.shape,
                Err(e) => crate::safetensors::format::find_tensor(self@.tensors, name@) is None
                    && e@ == crate::safetensors::format::no_tensor(name@),
            },
    {
        match self.info(name) {
            Ok(t) => Ok(&t.shape),
            Err(e) => Err(e),
        }
    }

    /// Sum of all payload lengths, if it fits. Payloads may overlap, so that the
    /// sum may be more than the file.
    pub fn checked_payload_bytes(&self) -> (r: Option<usize>)
        ensures
            match r {
                Some(n) => n == crate::safetensors::format::total_bytes(self@.tensors),
                None => crate::safetensors::format::total_bytes(self@.tensors) > usize::MAX,
            },
    {
        let ghost all = self@.tensors;
        let mut sum: usize = 0;
        let mut i: usize = 0;
        while i < self.tensors.len()
            invariant
                i <= all.len(),
                all == infos(self.tensors@),
                all == self@.tensors,
                sum == crate::safetensors::format::total_bytes(all.take(i as int)),
            decreases all.len() - i,
        {
            assert(all.take(i + 1).drop_last() =~= all.take(i as int));
            match sum.checked_add(self.tensors[i].nbytes) {
                Some(n) => {
                    sum = n;
                },
                None => {
                    proof {
                        crate::safetensors::laws::lemma_total_grows(all, i + 1, self.tensors@);
                    }
                    return None;
                },
            }
            i += 1;
        }
        assert(all.take(all.len() as int) =~= all);
        Some(sum)
    }

    /// Sum of all payload lengths. For a container with no holes this is the
    /// size of the payload section.
    pub fn payload_bytes(&self) -> (r: usize)
        requires
            crate::safetensors::format::total_bytes(self@.tensors) <= usize::MAX,
        ensures
            r == crate::safetensors::format::total_bytes(self@.tensors),
    {
        match self.checked_payload_bytes() {
            Some(n) => n,
            None => 0,
        }
    }

    /// What the file is, for a person who looks for a fault: its path and length, where
    /// its payloads start and how many tensors it has.
    pub fn debug(&self) -> (r: String)
        ensures
            r@ == crate::safetensors::format::debug_line(
                self.source(),
                self.content().len(),
                self@,
            ),
    {
        let mut r = "safetensors::File { path: ".to_owned();
        let path = path_debug_str(self.map.path());
        r.append(path.as_str());
        r.append(", len: ");
        let len = usize_string(self.map.as_slice().len());
        r.append(len.as_str());
        r.append(", data_start: ");
        let start = usize_string(self.data_start);
        r.append(start.as_str());
        r.append(", tensors: ");
        let count = usize_string(self.tensors.len());
        r.append(count.as_str());
        r.append(" }");
        r
    }

    /// The whole file, the header too: every offset counts from its start.
    pub fn as_slice(&self) -> (r: &'a [u8])
        ensures
            r@ == self.content(),
    {
        self.map.as_slice()
    }

    /// Where the payload section starts.
    pub fn data_start(&self) -> (r: usize)
        ensures
            r == self@.data_start,
    {
        self.data_start
    }

    /// The payload section alone.
    pub fn data(&self) -> (r: &'a [u8])
        requires
            self.wf(),
        ensures
            r@ == self.content().skip(self@.data_start),
    {
        let all = self.map.as_slice();
        let r = slice_subrange(all, self.data_start, all.len());
        assert(r@ =~= self.content().skip(self@.data_start));
        r
    }

    /// How many bytes the file has.
    pub fn len(&self) -> (r: usize)
        ensures
            r == self.content().len(),
    {
        self.map.len()
    }

    /// Has the file no bytes?
    pub fn is_empty(&self) -> (r: bool)
        ensures
            r == (self.content().len() == 0),
    {
        self.map.is_empty()
    }

    /// The path that the file was opened from.
    pub fn path(&self) -> (r: &str)
        ensures
            r@ == self.source(),
    {
        self.map.path()
    }
}

/// Four little-endian bytes as a number.
fn le_u32(bytes: &[u8]) -> (r: u32)
    requires
        bytes@.len() == 4,
    ensures
        r == crate::text::le_value(bytes@),
{
    proof {
        reveal_with_fuel(crate::text::le_value, 5);
        let b = bytes@;
        assert(b.drop_first()[0] == b[1]);
        assert(b.drop_first().drop_first()[0] == b[2]);
        assert(b.drop_first().drop_first().drop_first()[0] == b[3]);
    }
    bytes[0] as u32 + 256 * (bytes[1] as u32 + 256 * (bytes[2] as u32 + 256 * (bytes[3] as u32)))
}

} // verus!

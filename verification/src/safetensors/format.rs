//! What a `.safetensors` container holds, as a function of its bytes.
use crate::json::grammar::Json;
use crate::safetensors::DType;
use vstd::prelude::*;

verus! {

/// The element type of a name.
pub open spec fn dtype_of(s: Seq<char>) -> Option<DType> {
    if s == "BOOL"@ {
        Some(DType::Bool)
    } else if s == "U8"@ {
        Some(DType::U8)
    } else if s == "I8"@ {
        Some(DType::I8)
    } else if s == "U16"@ {
        Some(DType::U16)
    } else if s == "I16"@ {
        Some(DType::I16)
    } else if s == "U32"@ {
        Some(DType::U32)
    } else if s == "I32"@ {
        Some(DType::I32)
    } else if s == "U64"@ {
        Some(DType::U64)
    } else if s == "I64"@ {
        Some(DType::I64)
    } else if s == "F16"@ {
        Some(DType::F16)
    } else if s == "BF16"@ {
        Some(DType::BF16)
    } else if s == "F32"@ {
        Some(DType::F32)
    } else if s == "F64"@ {
        Some(DType::F64)
    } else {
        None
    }
}

/// The element type as messages name it.
pub open spec fn dtype_text(d: DType) -> Seq<char> {
    match d {
        DType::Bool => "Bool"@,
        DType::U8 => "U8"@,
        DType::I8 => "I8"@,
        DType::U16 => "U16"@,
        DType::I16 => "I16"@,
        DType::U32 => "U32"@,
        DType::I32 => "I32"@,
        DType::U64 => "U64"@,
        DType::I64 => "I64"@,
        DType::F16 => "F16"@,
        DType::BF16 => "BF16"@,
        DType::F32 => "F32"@,
        DType::F64 => "F64"@,
    }
}

/// How many bytes an element takes.
pub open spec fn dtype_size(d: DType) -> nat {
    match d {
        DType::Bool | DType::U8 | DType::I8 => 1,
        DType::U16 | DType::I16 | DType::F16 | DType::BF16 => 2,
        DType::U32 | DType::I32 | DType::F32 => 4,
        DType::U64 | DType::I64 | DType::F64 => 8,
    }
}

/// The product of the dimensions.
pub open spec fn product(shape: Seq<usize>) -> nat
    decreases shape.len(),
{
    if shape.len() == 0 {
        1
    } else {
        product(shape.drop_last()) * shape.last() as nat
    }
}

/// Does the product fit `usize`, multiplied out from the first dimension on?
pub open spec fn product_fits(shape: Seq<usize>) -> bool {
    forall|i: int| 0 <= i <= shape.len() ==> product(#[trigger] shape.take(i)) <= usize::MAX
}

/// A tensor's entry in the index, its offset counted from the start of the file.
pub ghost struct Tensor {
    pub name: Seq<char>,
    pub dtype: DType,
    pub shape: Seq<usize>,
    pub offset: int,
    pub nbytes: int,
}

/// What is wrong with a tensor's entry.
pub ghost enum TensorFault {
    NoDtype,
    UnknownDtype(Seq<char>),
    NoShape,
    ShapeEntry,
    NoOffsets,
    OffsetCount(int),
    LowOffset,
    HighOffset,
    Reversed { lo: int, hi: int },
    ShapeOverflow,
    Size { nbytes: int, shape: Seq<usize>, dtype: DType, expect: int },
    OffsetOverflow,
    Outside { offset: int, end: int, file_len: int },
}

impl TensorFault {
    /// What is said of the fault of a tensor.
    pub open spec fn message(self, name: Seq<char>) -> Seq<char> {
        "tensor `"@ + name + match self {
            TensorFault::NoDtype => "` has no dtype"@,
            TensorFault::UnknownDtype(d) => "`: unknown safetensors dtype `"@ + d + "`"@,
            TensorFault::NoShape => "` has no shape"@,
            TensorFault::ShapeEntry => "`: shape entries must be non-negative integers"@,
            TensorFault::NoOffsets => "` has no data_offsets"@,
            TensorFault::OffsetCount(n) => "`: data_offsets has "@ + crate::text::decimal(n as nat)
                + " entries, expected 2"@,
            TensorFault::LowOffset => "`: data_offsets[0] is not a non-negative integer"@,
            TensorFault::HighOffset => "`: data_offsets[1] is not a non-negative integer"@,
            TensorFault::Reversed { lo, hi } => "`: data_offsets ["@ + crate::text::decimal(
                lo as nat,
            ) + ", "@ + crate::text::decimal(hi as nat) + "] are reversed"@,
            TensorFault::ShapeOverflow => "`: shape overflows"@,
            TensorFault::Size { nbytes, shape, dtype, expect } => "`: data_offsets span "@
                + crate::text::decimal(nbytes as nat) + " bytes but shape "@
                + crate::text::bracketed_list(shape) + " of "@ + dtype_text(dtype) + " needs "@
                + crate::text::decimal(expect as nat),
            TensorFault::OffsetOverflow => "`: offset overflows"@,
            TensorFault::Outside { offset, end, file_len } => "`: payload at "@
                + crate::text::decimal(offset as nat) + ".."@ + crate::text::decimal(end as nat)
                + " is outside the "@ + crate::text::decimal(file_len as nat) + "-byte file"@,
        }
    }
}

/// The element type that an entry names.
pub open spec fn entry_dtype(entry: Json) -> Result<DType, TensorFault> {
    match crate::json::grammar::member(entry, "dtype"@) {
        Some(Json::Str(d)) => match dtype_of(d) {
            Some(dtype) => Ok(dtype),
            None => Err(TensorFault::UnknownDtype(d)),
        },
        _ => Err(TensorFault::NoDtype),
    }
}

/// The dimensions that an array lists, all of them non-negative integers.
pub open spec fn dimensions(a: Seq<Json>) -> Option<Seq<usize>>
    decreases a.len(),
{
    if a.len() == 0 {
        Some(Seq::empty())
    } else {
        match (dimensions(a.drop_last()), crate::json::grammar::usize_of(a.last())) {
            (Some(front), Some(d)) => Some(front.push(d)),
            _ => None,
        }
    }
}

/// The shape that an entry gives.
pub open spec fn entry_shape(entry: Json) -> Result<Seq<usize>, TensorFault> {
    match crate::json::grammar::member(entry, "shape"@) {
        Some(Json::Arr(a)) => match dimensions(a) {
            Some(shape) => Ok(shape),
            None => Err(TensorFault::ShapeEntry),
        },
        _ => Err(TensorFault::NoShape),
    }
}

/// The start and the end that an entry gives, counted from the payload section.
pub open spec fn entry_span(entry: Json) -> Result<(int, int), TensorFault> {
    match crate::json::grammar::member(entry, "data_offsets"@) {
        Some(Json::Arr(a)) => if a.len() != 2 {
            Err(TensorFault::OffsetCount(a.len() as int))
        } else {
            match (crate::json::grammar::usize_of(a[0]), crate::json::grammar::usize_of(a[1])) {
                (None, _) => Err(TensorFault::LowOffset),
                (Some(_), None) => Err(TensorFault::HighOffset),
                (Some(lo), Some(hi)) => if hi < lo {
                    Err(TensorFault::Reversed { lo: lo as int, hi: hi as int })
                } else {
                    Ok((lo as int, hi as int))
                },
            }
        },
        _ => Err(TensorFault::NoOffsets),
    }
}

/// The place of a tensor in the file, once its parts are known to be well made:
/// the span must be as long as the shape needs and lie inside the file.
pub open spec fn placed(
    name: Seq<char>,
    dtype: DType,
    shape: Seq<usize>,
    span: (int, int),
    header_end: int,
    file_len: int,
) -> Result<Tensor, TensorFault> {
    let nbytes = span.1 - span.0;
    let expect = product(shape) * dtype_size(dtype);
    let offset = header_end + span.0;
    if !product_fits(shape) || expect > usize::MAX {
        Err(TensorFault::ShapeOverflow)
    } else if expect != nbytes {
        Err(TensorFault::Size { nbytes, shape, dtype, expect: expect as int })
    } else if offset + nbytes > usize::MAX {
        Err(TensorFault::OffsetOverflow)
    } else if offset + nbytes > file_len {
        Err(TensorFault::Outside { offset, end: offset + nbytes, file_len })
    } else {
        Ok(Tensor { name, dtype, shape, offset, nbytes })
    }
}

/// The tensor that an entry of the header describes.
pub open spec fn tensor_of(
    name: Seq<char>,
    entry: Json,
    header_end: int,
    file_len: int,
) -> Result<Tensor, TensorFault> {
    match entry_dtype(entry) {
        Err(f) => Err(f),
        Ok(dtype) => match entry_shape(entry) {
            Err(f) => Err(f),
            Ok(shape) => match entry_span(entry) {
                Err(f) => Err(f),
                Ok(span) => placed(name, dtype, shape, span, header_end, file_len),
            },
        },
    }
}

/// The key under which a header holds metadata.
pub open spec fn metadata_key() -> Seq<char> {
    "__metadata__"@
}

/// The tensors that the members of a header describe, in their order; the first
/// one with a fault decides.
pub open spec fn tensors_of(m: Seq<(Seq<char>, Json)>, header_end: int, file_len: int) -> Result<
    Seq<Tensor>,
    Seq<char>,
>
    decreases m.len(),
{
    if m.len() == 0 {
        Ok(Seq::empty())
    } else {
        match tensors_of(m.drop_last(), header_end, file_len) {
            Err(e) => Err(e),
            Ok(front) => if m.last().0 == metadata_key() {
                Ok(front)
            } else {
                match tensor_of(m.last().0, m.last().1, header_end, file_len) {
                    Ok(t) => Ok(front.push(t)),
                    Err(f) => Err(f.message(m.last().0)),
                }
            },
        }
    }
}

/// The string values among members.
pub open spec fn strings_of(m: Seq<(Seq<char>, Json)>) -> Seq<(Seq<char>, Seq<char>)>
    decreases m.len(),
{
    if m.len() == 0 {
        Seq::empty()
    } else {
        match m.last().1 {
            Json::Str(s) => strings_of(m.drop_last()).push((m.last().0, s)),
            _ => strings_of(m.drop_last()),
        }
    }
}

/// The metadata of a header, in the order of its keys: the string values under the
/// key of the header for it, none where that holds no object.
pub open spec fn metadata_of(m: Seq<(Seq<char>, Json)>) -> Seq<(Seq<char>, Seq<char>)> {
    match crate::json::grammar::lookup(m, metadata_key()) {
        Some(Json::Obj(pairs)) => strings_of(crate::json::grammar::by_key(pairs)),
        _ => Seq::empty(),
    }
}

/// What is said of a header with faulty tensors: what is said of the first of them
/// by name.
pub open spec fn fault_of(m: Seq<(Seq<char>, Json)>, header_end: int, file_len: int) -> Seq<char> {
    tensors_of(crate::json::grammar::by_key(m), header_end, file_len)->Err_0
}

/// What a container holds: the tensors in the order of the header, and the metadata
/// in the order of its keys.
#[verifier::ext_equal]
pub ghost struct Contents {
    pub tensors: Seq<Tensor>,
    pub metadata: Seq<(Seq<char>, Seq<char>)>,
    pub data_start: int,
}

/// The length of the header, which the first eight bytes give.
pub open spec fn header_len(bytes: Seq<u8>) -> nat {
    crate::text::le_value(bytes.take(8))
}

/// What the bytes of a file at `path` hold as a container, or what is said of
/// why they are none.
pub open spec fn container(bytes: Seq<u8>, path: Seq<char>) -> Result<Contents, Seq<char>> {
    let hlen = header_len(bytes);
    let end = 8 + hlen as int;
    if bytes.len() < 8 {
        Err(path + ": too small to be safetensors"@)
    } else if end > usize::MAX {
        Err("safetensors header length overflows"@)
    } else if end > bytes.len() {
        Err(
            path + ": header length "@ + crate::text::decimal(hlen)
                + " exceeds file size "@ + crate::text::decimal(bytes.len()),
        )
    } else {
        match crate::json::grammar::document(bytes.subrange(8, end)) {
            Err(f) => Err(path + ": safetensors header: "@ + f.message()),
            Ok(Json::Obj(m)) => match tensors_of(m, end, bytes.len() as int) {
                Err(_) => Err(fault_of(m, end, bytes.len() as int)),
                Ok(tensors) => if tensors.len() == 0 {
                    Err(path + ": header declares no tensors"@)
                } else {
                    Ok(Contents { tensors, metadata: metadata_of(m), data_start: end })
                },
            },
            Ok(_) => Err("safetensors header is not a JSON object"@),
        }
    }
}

/// The tensor of a name.
pub open spec fn find_tensor(tensors: Seq<Tensor>, name: Seq<char>) -> Option<Tensor>
    decreases tensors.len(),
{
    if tensors.len() == 0 {
        None
    } else if tensors[0].name == name {
        Some(tensors[0])
    } else {
        find_tensor(tensors.drop_first(), name)
    }
}

/// The metadata value of a key.
pub open spec fn find_text(pairs: Seq<(Seq<char>, Seq<char>)>, key: Seq<char>) -> Option<Seq<char>>
    decreases pairs.len(),
{
    if pairs.len() == 0 {
        None
    } else if pairs[0].0 == key {
        Some(pairs[0].1)
    } else {
        find_text(pairs.drop_first(), key)
    }
}

/// The bytes of all payloads together.
pub open spec fn total_bytes(tensors: Seq<Tensor>) -> int
    decreases tensors.len(),
{
    if tensors.len() == 0 {
        0
    } else {
        total_bytes(tensors.drop_last()) + tensors.last().nbytes
    }
}

/// The names of the tensors.
pub open spec fn tensor_names(tensors: Seq<Tensor>) -> Seq<Seq<char>> {
    Seq::new(tensors.len(), |i: int| tensors[i].name)
}

/// What is said where there is no tensor of a name.
pub open spec fn no_tensor(name: Seq<char>) -> Seq<char> {
    "no tensor `"@ + name + "` in the checkpoint"@
}

/// The bytes of a tensor.
pub open spec fn payload(bytes: Seq<u8>, t: Tensor) -> Seq<u8> {
    bytes.subrange(t.offset, t.offset + t.nbytes)
}

/// The tensor of a name, if its bytes can be taken as `F32` where they are.
pub open spec fn f32_tensor(tensors: Seq<Tensor>, name: Seq<char>) -> Result<Tensor, Seq<char>> {
    match find_tensor(tensors, name) {
        None => Err(no_tensor(name)),
        Some(t) => if t.dtype != DType::F32 {
            Err("tensor `"@ + name + ("` is "@ + dtype_text(t.dtype) + ", not F32"@))
        } else if t.offset % 4 != 0 {
            Err(
                "tensor `"@ + name + ("` starts at byte "@ + crate::text::decimal(t.offset as nat)
                    + " in the file, which is not 4-byte aligned"@),
            )
        } else {
            Ok(t)
        },
    }
}

/// The metadata value of a key as a number, or what is said of why it is none.
pub open spec fn metadata_number(c: Contents, key: Seq<char>) -> Result<nat, Seq<char>> {
    match find_text(c.metadata, key) {
        None => Err("safetensors metadata has no `"@ + key + "`"@),
        Some(s) => match crate::text::usize_value(s) {
            Ok(n) => Ok(n),
            Err(f) => Err(
                "safetensors metadata `"@ + key + "` = "@ + crate::text::debug_text(s) + ": "@
                    + f.message(),
            ),
        },
    }
}

/// What a file is, for a person who looks for a fault.
pub open spec fn debug_line(path: Seq<char>, len: nat, c: Contents) -> Seq<char> {
    "safetensors::File { path: "@ + crate::text::path_debug_text(path) + ", len: "@
        + crate::text::decimal(len) + ", data_start: "@ + crate::text::decimal(
        c.data_start as nat,
    ) + ", tensors: "@ + crate::text::decimal(c.tensors.len()) + " }"@
}

} // verus!

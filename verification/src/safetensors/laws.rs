//! What holds of every container that is read.
use crate::json::grammar::Json;
use crate::safetensors::format::{Tensor, TensorFault};
use crate::safetensors::{DType, TensorInfo};
use vstd::prelude::*;

verus! {

/// An entry that is no dimension spoils the whole list.
pub proof fn lemma_dimensions_none(a: Seq<Json>, i: int)
    requires
        0 <= i <= a.len(),
        crate::safetensors::format::dimensions(a.take(i)) is None,
    ensures
        crate::safetensors::format::dimensions(a) is None,
    decreases a.len(),
{
    if i == a.len() {
        assert(a.take(i) =~= a);
    } else {
        assert(a.drop_last().take(i) =~= a.take(i));
        lemma_dimensions_none(a.drop_last(), i);
    }
}

/// A fault among the first members is the fault of all.
pub proof fn lemma_first_fault(
    m: Seq<(Seq<char>, Json)>,
    header_end: int,
    file_len: int,
    i: int,
)
    requires
        0 <= i <= m.len(),
        crate::safetensors::format::tensors_of(m.take(i), header_end, file_len) is Err,
    ensures
        crate::safetensors::format::tensors_of(m, header_end, file_len)
            == crate::safetensors::format::tensors_of(m.take(i), header_end, file_len),
    decreases m.len(),
{
    if i == m.len() {
        assert(m.take(i) =~= m);
    } else {
        assert(m.drop_last().take(i) =~= m.take(i));
        lemma_first_fault(m.drop_last(), header_end, file_len, i);
    }
}

/// Is a member of a header no tensor, or one without a fault?
pub open spec fn sound(p: (Seq<char>, Json), header_end: int, file_len: int) -> bool {
    p.0 == crate::safetensors::format::metadata_key() || crate::safetensors::format::tensor_of(
        p.0,
        p.1,
        header_end,
        file_len,
    ) is Ok
}

/// The members of a header describe tensors if every one of them is sound.
proof fn lemma_sound(m: Seq<(Seq<char>, Json)>, header_end: int, file_len: int)
    ensures
        crate::safetensors::format::tensors_of(m, header_end, file_len) is Ok <==> forall|i: int|
            0 <= i < m.len() ==> sound(#[trigger] m[i], header_end, file_len),
    decreases m.len(),
{
    if m.len() > 0 {
        let front = m.drop_last();
        lemma_sound(front, header_end, file_len);
        if forall|i: int| 0 <= i < m.len() ==> sound(#[trigger] m[i], header_end, file_len) {
            assert forall|i: int| 0 <= i < front.len() implies sound(
                #[trigger] front[i],
                header_end,
                file_len,
            ) by {
                assert(front[i] == m[i]);
            }
            assert(sound(m[m.len() - 1], header_end, file_len));
        }
        if crate::safetensors::format::tensors_of(m, header_end, file_len) is Ok {
            assert forall|i: int| 0 <= i < m.len() implies sound(
                #[trigger] m[i],
                header_end,
                file_len,
            ) by {
                if i < front.len() {
                    assert(front[i] == m[i]);
                }
            }
        }
    }
}

/// A header with a faulty tensor has one in the order of the names too.
pub proof fn a_faulty_header_is_faulty_by_name(
    m: Seq<(Seq<char>, Json)>,
    header_end: int,
    file_len: int,
)
    ensures
        crate::safetensors::format::tensors_of(m, header_end, file_len) is Ok
            == crate::safetensors::format::tensors_of(
            crate::json::grammar::by_key(m),
            header_end,
            file_len,
        ) is Ok,
{
    let all = crate::json::grammar::by_key(m);
    lemma_sound(m, header_end, file_len);
    lemma_sound(all, header_end, file_len);
    assert forall|i: int| 0 <= i < m.len() implies all.contains(#[trigger] m[i]) by {
        crate::json::grammar::lemma_by_key_members(m, m[i]);
        assert(m.contains(m[i]));
    }
    assert forall|i: int| 0 <= i < all.len() implies m.contains(#[trigger] all[i]) by {
        crate::json::grammar::lemma_by_key_members(m, all[i]);
        assert(all.contains(all[i]));
    }
    if forall|i: int| 0 <= i < all.len() ==> sound(#[trigger] all[i], header_end, file_len) {
        assert forall|i: int| 0 <= i < m.len() implies sound(
            #[trigger] m[i],
            header_end,
            file_len,
        ) by {
            assert(all.contains(m[i]));
            let k = choose|k: int| 0 <= k < all.len() && all[k] == m[i];
            assert(sound(all[k], header_end, file_len));
        }
    }
    if forall|i: int| 0 <= i < m.len() ==> sound(#[trigger] m[i], header_end, file_len) {
        assert forall|i: int| 0 <= i < all.len() implies sound(
            #[trigger] all[i],
            header_end,
            file_len,
        ) by {
            assert(m.contains(all[i]));
            let k = choose|k: int| 0 <= k < m.len() && m[k] == all[i];
            assert(sound(m[k], header_end, file_len));
        }
    }
}

/// The fault of members is that of one of them, and all before it are sound.
proof fn lemma_fault_at(m: Seq<(Seq<char>, Json)>, header_end: int, file_len: int) -> (k: int)
    requires
        crate::safetensors::format::tensors_of(m, header_end, file_len) is Err,
    ensures
        0 <= k < m.len(),
        !sound(m[k], header_end, file_len),
        forall|i: int| 0 <= i < k ==> sound(#[trigger] m[i], header_end, file_len),
        crate::safetensors::format::tensors_of(m, header_end, file_len) == Err::<
            Seq<Tensor>,
            Seq<char>,
        >(
            crate::safetensors::format::tensor_of(
                m[k].0,
                m[k].1,
                header_end,
                file_len,
            )->Err_0.message(m[k].0),
        ),
    decreases m.len(),
{
    let front = m.drop_last();
    if crate::safetensors::format::tensors_of(front, header_end, file_len) is Err {
        let k = lemma_fault_at(front, header_end, file_len);
        assert forall|i: int| 0 <= i < k implies sound(#[trigger] m[i], header_end, file_len) by {
            assert(front[i] == m[i]);
        }
        k
    } else {
        lemma_sound(front, header_end, file_len);
        assert forall|i: int| 0 <= i < front.len() implies sound(
            #[trigger] m[i],
            header_end,
            file_len,
        ) by {
            assert(front[i] == m[i]);
        }
        m.len() - 1
    }
}

/// Of several faulty tensors the first by name is named: what is said of a header is
/// what is said of a faulty member of it, and no faulty one has a lesser name.
pub proof fn the_first_faulty_name_is_named(
    m: Seq<(Seq<char>, Json)>,
    header_end: int,
    file_len: int,
) -> (named: (Seq<char>, Json))
    requires
        crate::json::grammar::distinct_keys(m),
        crate::safetensors::format::tensors_of(m, header_end, file_len) is Err,
    ensures
        m.contains(named),
        !sound(named, header_end, file_len),
        crate::safetensors::format::fault_of(m, header_end, file_len)
            == crate::safetensors::format::tensor_of(
            named.0,
            named.1,
            header_end,
            file_len,
        )->Err_0.message(named.0),
        forall|i: int|
            0 <= i < m.len() && !sound(#[trigger] m[i], header_end, file_len)
                ==> !crate::text::precedes(m[i].0, named.0),
{
    let all = crate::json::grammar::by_key(m);
    a_faulty_header_is_faulty_by_name(m, header_end, file_len);
    crate::json::grammar::members_are_listed_by_key(m, Seq::empty());
    let k = lemma_fault_at(all, header_end, file_len);
    let named = all[k];
    crate::json::grammar::lemma_by_key_members(m, named);
    assert(all.contains(named));
    assert forall|i: int| 0 <= i < m.len() && !sound(#[trigger] m[i], header_end, file_len)
        implies !crate::text::precedes(m[i].0, named.0) by {
        crate::json::grammar::lemma_by_key_members(m, m[i]);
        assert(m.contains(m[i]));
        let j = choose|j: int| 0 <= j < all.len() && all[j] == m[i];
        if j < k {
            assert(sound(all[j], header_end, file_len));
        } else {
            crate::text::texts_are_ordered(named.0, all[j].0);
            if k < j {
                assert(crate::text::precedes(all[k].0, all[j].0));
            }
        }
    }
    named
}

/// A tensor that is found is one of the index, of the name.
pub proof fn lemma_found(tensors: Seq<Tensor>, name: Seq<char>)
    ensures
        match crate::safetensors::format::find_tensor(tensors, name) {
            Some(t) => t.name == name && exists|i: int|
                0 <= i < tensors.len() && #[trigger] tensors[i] == t,
            None => forall|i: int|
                0 <= i < tensors.len() ==> (#[trigger] tensors[i]).name != name,
        },
    decreases tensors.len(),
{
    if tensors.len() > 0 {
        let rest = tensors.drop_first();
        lemma_found(rest, name);
        if tensors[0].name != name {
            match crate::safetensors::format::find_tensor(rest, name) {
                Some(t) => {
                    let i = choose|i: int| 0 <= i < rest.len() && #[trigger] rest[i] == t;
                    assert(tensors[i + 1] == t);
                },
                None => {
                    assert forall|i: int| 0 <= i < tensors.len() implies (
                    #[trigger] tensors[i]).name != name by {
                        if i > 0 {
                            assert(rest[i - 1] == tensors[i]);
                        }
                    }
                },
            }
        }
    }
}

/// Payload lengths only add up.
pub proof fn lemma_total_grows(tensors: Seq<Tensor>, i: int, v: Seq<TensorInfo>)
    requires
        0 <= i <= tensors.len(),
        tensors == crate::safetensors::infos(v),
    ensures
        crate::safetensors::format::total_bytes(tensors.take(i))
            <= crate::safetensors::format::total_bytes(tensors),
    decreases tensors.len(),
{
    if i == tensors.len() {
        assert(tensors.take(i) =~= tensors);
    } else {
        assert(tensors.drop_last().take(i) =~= tensors.take(i));
        assert(tensors.drop_last() =~= crate::safetensors::infos(v.drop_last()));
        lemma_total_grows(tensors.drop_last(), i, v.drop_last());
    }
}

/// Which entry of the header a tensor of the index comes from.
proof fn lemma_tensor_source(
    m: Seq<(Seq<char>, Json)>,
    header_end: int,
    file_len: int,
    i: int,
) -> (j: int)
    requires
        crate::safetensors::format::tensors_of(m, header_end, file_len) matches Ok(ts) && 0 <= i
            < ts.len(),
    ensures
        0 <= j < m.len(),
        m[j].0 != crate::safetensors::format::metadata_key(),
        crate::safetensors::format::tensor_of(m[j].0, m[j].1, header_end, file_len) == Ok::<
            Tensor,
            crate::safetensors::format::TensorFault,
        >(crate::safetensors::format::tensors_of(m, header_end, file_len)->Ok_0[i]),
    decreases m.len(),
{
    let front = crate::safetensors::format::tensors_of(
        m.drop_last(),
        header_end,
        file_len,
    )->Ok_0;
    if i < front.len() {
        lemma_tensor_source(m.drop_last(), header_end, file_len, i)
    } else {
        m.len() - 1
    }
}

/// Every tensor lies in the payload section of the file, and its payload is as
/// long as its shape needs.
pub proof fn tensors_lie_inside(bytes: Seq<u8>, path: Seq<char>, i: int)
    requires
        crate::safetensors::format::container(bytes, path) matches Ok(c) && 0 <= i
            < c.tensors.len(),
    ensures
        ({
            let c = crate::safetensors::format::container(bytes, path)->Ok_0;
            let t = c.tensors[i];
            &&& 8 <= c.data_start <= t.offset
            &&& 0 <= t.nbytes
            &&& t.offset + t.nbytes <= bytes.len()
            &&& t.nbytes == crate::safetensors::format::product(t.shape)
                * crate::safetensors::format::dtype_size(t.dtype)
            &&& crate::safetensors::format::product_fits(t.shape)
        }),
{
    let end = 8 + crate::safetensors::format::header_len(bytes) as int;
    let m = crate::json::grammar::document(bytes.subrange(8, end))->Ok_0->Obj_0;
    let j = lemma_tensor_source(m, end, bytes.len() as int, i);
}

/// The members of the header of a container.
pub open spec fn header(bytes: Seq<u8>) -> Seq<(Seq<char>, Json)> {
    crate::json::grammar::document(
        bytes.subrange(8, 8 + crate::safetensors::format::header_len(bytes) as int),
    )->Ok_0->Obj_0
}

/// The keys of a header but for that of the metadata, in their order.
pub open spec fn tensor_keys(m: Seq<(Seq<char>, Json)>) -> Seq<Seq<char>>
    decreases m.len(),
{
    if m.len() == 0 {
        Seq::empty()
    } else if m.last().0 == crate::safetensors::format::metadata_key() {
        tensor_keys(m.drop_last())
    } else {
        tensor_keys(m.drop_last()).push(m.last().0)
    }
}

proof fn lemma_names(m: Seq<(Seq<char>, Json)>, header_end: int, file_len: int)
    requires
        crate::safetensors::format::tensors_of(m, header_end, file_len) is Ok,
    ensures
        crate::safetensors::format::tensor_names(
            crate::safetensors::format::tensors_of(m, header_end, file_len)->Ok_0,
        ) == tensor_keys(m),
    decreases m.len(),
{
    let all = crate::safetensors::format::tensors_of(m, header_end, file_len)->Ok_0;
    if m.len() > 0 {
        let front = crate::safetensors::format::tensors_of(
            m.drop_last(),
            header_end,
            file_len,
        )->Ok_0;
        lemma_names(m.drop_last(), header_end, file_len);
        if m.last().0 != crate::safetensors::format::metadata_key() {
            assert(all =~= front.push(all.last()));
            assert(crate::safetensors::format::tensor_names(all)
                =~= crate::safetensors::format::tensor_names(front).push(m.last().0));
        }
    } else {
        assert(crate::safetensors::format::tensor_names(all) =~= tensor_keys(m));
    }
}

proof fn lemma_keys(m: Seq<(Seq<char>, Json)>)
    requires
        crate::json::grammar::distinct_keys(m),
    ensures
        tensor_keys(m).no_duplicates(),
        forall|i: int|
            0 <= i < tensor_keys(m).len() ==> exists|j: int|
                0 <= j < m.len() && (#[trigger] m[j]).0 == #[trigger] tensor_keys(m)[i],
    decreases m.len(),
{
    if m.len() > 0 {
        let front = m.drop_last();
        assert forall|i: int, j: int| 0 <= i < j < front.len() implies (#[trigger] front[i]).0 != (
        #[trigger] front[j]).0 by {
            assert(m[i].0 != m[j].0);
        }
        lemma_keys(front);
        let keys = tensor_keys(m);
        assert forall|i: int| 0 <= i < keys.len() implies exists|j: int|
            0 <= j < m.len() && (#[trigger] m[j]).0 == #[trigger] keys[i] by {
            if i < tensor_keys(front).len() {
                assert(keys[i] == tensor_keys(front)[i]);
                let j = choose|j: int|
                    0 <= j < front.len() && (#[trigger] front[j]).0 == tensor_keys(front)[i];
                assert(m[j].0 == keys[i]);
            } else {
                assert(m[m.len() - 1].0 == keys[i]);
            }
        }
        assert forall|i: int, j: int| 0 <= i < j < keys.len() implies keys[i] != keys[j] by {
            assert(keys[i] == tensor_keys(front)[i]);
            if j < tensor_keys(front).len() {
                assert(keys[j] == tensor_keys(front)[j]);
            } else {
                let n = choose|n: int|
                    0 <= n < front.len() && (#[trigger] front[n]).0 == tensor_keys(front)[i];
                assert(m[n].0 != m[m.len() - 1].0);
            }
        }
    }
}

proof fn lemma_header_distinct(bytes: Seq<u8>, path: Seq<char>)
    requires
        crate::safetensors::format::container(bytes, path) is Ok,
    ensures
        crate::json::grammar::distinct_keys(header(bytes)),
{
    let text = bytes.subrange(8, 8 + crate::safetensors::format::header_len(bytes) as int);
    crate::json::grammar::lemma_skip_space(text, 0);
    crate::json::grammar::read_keys_are_distinct(
        text,
        crate::json::grammar::skip_space(text, 0),
    );
}

/// The index lists the tensors in the order of the header, none of them twice.
pub proof fn names_are_listed_in_header_order(bytes: Seq<u8>, path: Seq<char>)
    requires
        crate::safetensors::format::container(bytes, path) is Ok,
    ensures
        ({
            let c = crate::safetensors::format::container(bytes, path)->Ok_0;
            let listed = crate::safetensors::format::tensor_names(c.tensors);
            listed == tensor_keys(header(bytes)) && listed.no_duplicates()
        }),
{
    let end = 8 + crate::safetensors::format::header_len(bytes) as int;
    lemma_header_distinct(bytes, path);
    lemma_names(header(bytes), end, bytes.len() as int);
    lemma_keys(header(bytes));
}

/// Every tensor of the index is found under its name.
pub proof fn listed_tensors_are_found(bytes: Seq<u8>, path: Seq<char>, i: int)
    requires
        crate::safetensors::format::container(bytes, path) matches Ok(c) && 0 <= i
            < c.tensors.len(),
    ensures
        ({
            let c = crate::safetensors::format::container(bytes, path)->Ok_0;
            crate::safetensors::format::find_tensor(c.tensors, c.tensors[i].name) == Some(
                c.tensors[i],
            )
        }),
{
    let ts = crate::safetensors::format::container(bytes, path)->Ok_0.tensors;
    names_are_listed_in_header_order(bytes, path);
    lemma_found(ts, ts[i].name);
    let listed = crate::safetensors::format::tensor_names(ts);
    let t = crate::safetensors::format::find_tensor(ts, ts[i].name);
    assert(listed[i] == ts[i].name);
    if t is Some {
        let j = choose|j: int| 0 <= j < ts.len() && #[trigger] ts[j] == t->0;
        assert(listed[j] == listed[i]);
    }
}

proof fn lemma_lookup_at(m: Seq<(Seq<char>, Json)>, j: int)
    requires
        crate::json::grammar::distinct_keys(m),
        0 <= j < m.len(),
    ensures
        crate::json::grammar::lookup(m, m[j].0) == Some(m[j].1),
    decreases m.len(),
{
    if j > 0 {
        assert(m[0].0 != m[j].0);
        let rest = m.drop_first();
        assert forall|a: int, b: int| 0 <= a < b < rest.len() implies (#[trigger] rest[a]).0 != (
        #[trigger] rest[b]).0 by {
            assert(m[a + 1].0 != m[b + 1].0);
        }
        lemma_lookup_at(rest, j - 1);
        assert(rest[j - 1] == m[j]);
    }
}

/// A tensor is what the header says under its name, and its offset counts from
/// the start of the file: the bytes found there are those that the header's own
/// offsets pick out of the payload section.
pub proof fn offsets_are_absolute(bytes: Seq<u8>, path: Seq<char>, i: int)
    requires
        crate::safetensors::format::container(bytes, path) matches Ok(c) && 0 <= i
            < c.tensors.len(),
    ensures
        ({
            let c = crate::safetensors::format::container(bytes, path)->Ok_0;
            let t = c.tensors[i];
            &&& crate::json::grammar::lookup(header(bytes), t.name) matches Some(entry)
            &&& crate::safetensors::format::entry_dtype(entry) == Ok::<
                crate::safetensors::DType,
                crate::safetensors::format::TensorFault,
            >(t.dtype)
            &&& crate::safetensors::format::entry_shape(entry) == Ok::<
                Seq<usize>,
                crate::safetensors::format::TensorFault,
            >(t.shape)
            &&& crate::safetensors::format::entry_span(entry) matches Ok((lo, hi))
            &&& t.offset == c.data_start + lo
            &&& crate::safetensors::format::payload(bytes, t) == bytes.skip(
                c.data_start,
            ).subrange(lo, hi)
        }),
{
    let c = crate::safetensors::format::container(bytes, path)->Ok_0;
    let t = c.tensors[i];
    let end = 8 + crate::safetensors::format::header_len(bytes) as int;
    let m = header(bytes);
    tensors_lie_inside(bytes, path, i);
    lemma_header_distinct(bytes, path);
    let j = lemma_tensor_source(m, end, bytes.len() as int, i);
    lemma_lookup_at(m, j);
    let (lo, hi) = crate::safetensors::format::entry_span(m[j].1)->Ok_0;
    assert(crate::safetensors::format::payload(bytes, t) =~= bytes.skip(c.data_start).subrange(
        lo,
        hi,
    ));
}

/// The index is that of the header alone: other payloads of the same length
/// leave it as it is.
pub proof fn payloads_are_not_read(a: Seq<u8>, b: Seq<u8>, path: Seq<char>)
    requires
        8 <= 8 + crate::safetensors::format::header_len(a) as int <= a.len(),
        a.len() == b.len(),
        a.take(8 + crate::safetensors::format::header_len(a) as int) == b.take(
            8 + crate::safetensors::format::header_len(a) as int,
        ),
    ensures
        crate::safetensors::format::container(a, path) == crate::safetensors::format::container(
            b,
            path,
        ),
{
    let end = 8 + crate::safetensors::format::header_len(a) as int;
    assert(a.take(8) =~= a.take(end).take(8));
    assert(b.take(8) =~= b.take(end).take(8));
    assert(a.subrange(8, end) =~= a.take(end).subrange(8, end));
    assert(b.subrange(8, end) =~= b.take(end).subrange(8, end));
}

/// The first pair of a key, found from the back.
proof fn lemma_find_text_last(pairs: Seq<(Seq<char>, Seq<char>)>, key: Seq<char>)
    requires
        pairs.len() > 0,
    ensures
        crate::safetensors::format::find_text(pairs, key)
            == match crate::safetensors::format::find_text(pairs.drop_last(), key) {
            Some(s) => Some(s),
            None => if pairs.last().0 == key {
                Some(pairs.last().1)
            } else {
                None
            },
        },
    decreases pairs.len(),
{
    if pairs.len() > 1 {
        lemma_find_text_last(pairs.drop_first(), key);
        assert(pairs.drop_first().drop_last() =~= pairs.drop_last().drop_first());
        assert(pairs.drop_last()[0] == pairs[0]);
        assert(pairs.drop_first().last() == pairs.last());
    } else {
        assert(crate::safetensors::format::find_text(pairs.drop_first(), key) is None);
        assert(crate::safetensors::format::find_text(pairs.drop_last(), key) is None);
    }
}

proof fn lemma_lookup_back(m: Seq<(Seq<char>, Json)>, key: Seq<char>)
    requires
        crate::json::grammar::distinct_keys(m),
        m.len() > 0,
    ensures
        crate::json::grammar::lookup(m, key) == (if m.last().0 == key {
            Some(m.last().1)
        } else {
            crate::json::grammar::lookup(m.drop_last(), key)
        }),
        crate::json::grammar::distinct_keys(m.drop_last()),
        m.last().0 == key ==> crate::json::grammar::lookup(m.drop_last(), key) is None,
    decreases m.len(),
{
    let front = m.drop_last();
    assert forall|i: int, j: int| 0 <= i < j < front.len() implies (#[trigger] front[i]).0 != (
    #[trigger] front[j]).0 by {
        assert(m[i].0 != m[j].0);
    }
    if m.len() > 1 {
        let rest = m.drop_first();
        assert forall|i: int, j: int| 0 <= i < j < rest.len() implies (#[trigger] rest[i]).0 != (
        #[trigger] rest[j]).0 by {
            assert(m[i + 1].0 != m[j + 1].0);
        }
        lemma_lookup_back(rest, key);
        assert(rest.drop_last() =~= front.drop_first());
        assert(front[0] == m[0]);
        assert(rest.last() == m.last());
        assert(m[0].0 != m[m.len() - 1].0);
    } else {
        assert(crate::json::grammar::lookup(m.drop_first(), key) is None);
        assert(crate::json::grammar::lookup(front, key) is None);
    }
}

/// The metadata value of a key is the string that the metadata object holds
/// under it; what is no string there is left out.
pub proof fn metadata_holds_the_strings(m: Seq<(Seq<char>, Json)>, key: Seq<char>)
    requires
        crate::json::grammar::distinct_keys(m),
    ensures
        crate::safetensors::format::find_text(crate::safetensors::format::strings_of(m), key)
            == match crate::json::grammar::lookup(m, key) {
            Some(Json::Str(s)) => Some(s),
            _ => None,
        },
    decreases m.len(),
{
    if m.len() > 0 {
        lemma_lookup_back(m, key);
        metadata_holds_the_strings(m.drop_last(), key);
        let kept = crate::safetensors::format::strings_of(m);
        if let Json::Str(s) = m.last().1 {
            let front = crate::safetensors::format::strings_of(m.drop_last());
            assert(kept.drop_last() =~= front);
            lemma_find_text_last(kept, key);
        }
    }
}

/// What is found is a value of the members.
proof fn lemma_lookup_keys(m: Seq<(Seq<char>, Json)>, key: Seq<char>)
    requires
        forall|i: int| 0 <= i < m.len() ==> crate::json::grammar::keys_distinct((#[trigger] m[i]).1),
    ensures
        crate::json::grammar::lookup(m, key) matches Some(v) ==> crate::json::grammar::keys_distinct(
            v,
        ),
    decreases m.len(),
{
    if m.len() > 0 && m[0].0 != key {
        let rest = m.drop_first();
        assert forall|i: int| 0 <= i < rest.len() implies crate::json::grammar::keys_distinct(
            (#[trigger] rest[i]).1,
        ) by {
            assert(rest[i] == m[i + 1]);
        }
        lemma_lookup_keys(rest, key);
    }
}

/// The metadata value of a key is the string that the header holds under it in its
/// metadata object.
pub proof fn metadata_is_that_of_the_header(bytes: Seq<u8>, path: Seq<char>, key: Seq<char>)
    requires
        crate::safetensors::format::container(bytes, path) is Ok,
    ensures
        ({
            let c = crate::safetensors::format::container(bytes, path)->Ok_0;
            let held = crate::json::grammar::lookup(
                header(bytes),
                crate::safetensors::format::metadata_key(),
            );
            crate::safetensors::format::find_text(c.metadata, key) == match held {
                Some(Json::Obj(pairs)) => match crate::json::grammar::lookup(pairs, key) {
                    Some(Json::Str(s)) => Some(s),
                    _ => None,
                },
                _ => None,
            }
        }),
{
    let text = bytes.subrange(8, 8 + crate::safetensors::format::header_len(bytes) as int);
    crate::json::grammar::lemma_skip_space(text, 0);
    crate::json::grammar::read_keys_are_distinct(
        text,
        crate::json::grammar::skip_space(text, 0),
    );
    let m = header(bytes);
    let name = crate::safetensors::format::metadata_key();
    lemma_lookup_keys(m, name);
    if let Some(Json::Obj(pairs)) = crate::json::grammar::lookup(m, name) {
        crate::json::grammar::members_are_listed_by_key(pairs, key);
        metadata_holds_the_strings(crate::json::grammar::by_key(pairs), key);
    }
}

/// The string values of members whose keys go up have keys that go up, and each is
/// the key of a member.
proof fn lemma_strings_ascend(m: Seq<(Seq<char>, Json)>)
    requires
        crate::json::grammar::ascending(m),
    ensures
        ({
            let kept = crate::safetensors::format::strings_of(m);
            &&& forall|i: int|
                0 <= i < kept.len() ==> exists|j: int|
                    0 <= j < m.len() && (#[trigger] m[j]).0 == (#[trigger] kept[i]).0
            &&& forall|i: int, j: int|
                0 <= i < j < kept.len() ==> crate::text::precedes(
                    (#[trigger] kept[i]).0,
                    (#[trigger] kept[j]).0,
                )
        }),
    decreases m.len(),
{
    if m.len() > 0 {
        let front = m.drop_last();
        assert forall|i: int, j: int| 0 <= i < j < front.len() implies crate::text::precedes(
            (#[trigger] front[i]).0,
            (#[trigger] front[j]).0,
        ) by {
            assert(front[i] == m[i]);
            assert(front[j] == m[j]);
        }
        lemma_strings_ascend(front);
        let had = crate::safetensors::format::strings_of(front);
        let kept = crate::safetensors::format::strings_of(m);
        assert forall|i: int| 0 <= i < kept.len() implies exists|j: int|
            0 <= j < m.len() && (#[trigger] m[j]).0 == (#[trigger] kept[i]).0 by {
            if i < had.len() {
                assert(kept[i] == had[i]);
                let j = choose|j: int|
                    0 <= j < front.len() && (#[trigger] front[j]).0 == had[i].0;
                assert(m[j].0 == kept[i].0);
            } else {
                assert(m[m.len() - 1].0 == kept[i].0);
            }
        }
        assert forall|i: int, j: int| 0 <= i < j < kept.len() implies crate::text::precedes(
            (#[trigger] kept[i]).0,
            (#[trigger] kept[j]).0,
        ) by {
            assert(kept[i] == had[i]);
            if j < had.len() {
                assert(kept[j] == had[j]);
            } else {
                let n = choose|n: int|
                    0 <= n < front.len() && (#[trigger] front[n]).0 == had[i].0;
                assert(crate::text::precedes(m[n].0, m[m.len() - 1].0));
            }
        }
    }
}

/// The metadata is listed in the order of its keys, none of them twice.
pub proof fn metadata_is_listed_by_key(bytes: Seq<u8>, path: Seq<char>, i: int, j: int)
    requires
        crate::safetensors::format::container(bytes, path) matches Ok(c) && 0 <= i < j
            < c.metadata.len(),
    ensures
        ({
            let c = crate::safetensors::format::container(bytes, path)->Ok_0;
            crate::text::precedes(c.metadata[i].0, c.metadata[j].0)
        }),
{
    let text = bytes.subrange(8, 8 + crate::safetensors::format::header_len(bytes) as int);
    crate::json::grammar::lemma_skip_space(text, 0);
    crate::json::grammar::read_keys_are_distinct(
        text,
        crate::json::grammar::skip_space(text, 0),
    );
    let m = header(bytes);
    let name = crate::safetensors::format::metadata_key();
    lemma_lookup_keys(m, name);
    if let Some(Json::Obj(pairs)) = crate::json::grammar::lookup(m, name) {
        crate::json::grammar::members_are_listed_by_key(pairs, Seq::empty());
        lemma_strings_ascend(crate::json::grammar::by_key(pairs));
    }
}

/// Is an address inside the payload of a tensor?
pub open spec fn holds(t: Tensor, a: int) -> bool {
    t.offset <= a < t.offset + t.nbytes
}

/// The addresses inside some payload.
pub open spec fn covered(tensors: Seq<Tensor>) -> Set<int> {
    Set::new(|a: int| exists|i: int| 0 <= i < tensors.len() && holds(#[trigger] tensors[i], a))
}

/// No address is inside two payloads.
pub open spec fn apart(tensors: Seq<Tensor>) -> bool {
    forall|i: int, j: int, a: int|
        0 <= i < j < tensors.len() && #[trigger] holds(tensors[i], a) ==> !#[trigger] holds(
            tensors[j],
            a,
        )
}

/// Payloads that are apart have as many addresses as their lengths add up to.
proof fn lemma_covered(tensors: Seq<Tensor>)
    requires
        apart(tensors),
        forall|i: int| 0 <= i < tensors.len() ==> (#[trigger] tensors[i]).nbytes >= 0,
    ensures
        covered(tensors).finite(),
        covered(tensors).len() == crate::safetensors::format::total_bytes(tensors),
    decreases tensors.len(),
{
    if tensors.len() == 0 {
        assert(covered(tensors) =~= Set::<int>::empty());
    } else {
        let front = tensors.drop_last();
        let last = tensors.last();
        assert forall|i: int, j: int, a: int|
            0 <= i < j < front.len() && #[trigger] holds(front[i], a) implies !#[trigger] holds(
            front[j],
            a,
        ) by {
            assert(holds(tensors[i], a));
            assert(!holds(tensors[j], a));
        }
        lemma_covered(front);
        let own = vstd::set_lib::set_int_range(last.offset, last.offset + last.nbytes);
        vstd::set_lib::lemma_int_range(last.offset, last.offset + last.nbytes);
        assert forall|a: int| covered(tensors).contains(a) == (covered(front) + own).contains(a) by {
            if covered(tensors).contains(a) {
                let i = choose|i: int|
                    0 <= i < tensors.len() && holds(#[trigger] tensors[i], a);
                if i < front.len() {
                    assert(holds(front[i], a));
                }
            }
            if covered(front).contains(a) {
                let i = choose|i: int| 0 <= i < front.len() && holds(#[trigger] front[i], a);
                assert(holds(tensors[i], a));
            }
            if own.contains(a) {
                assert(holds(tensors[tensors.len() - 1], a));
            }
        }
        assert(covered(tensors) =~= covered(front) + own);
        assert forall|a: int| !(covered(front).contains(a) && own.contains(a)) by {
            if covered(front).contains(a) {
                let i = choose|i: int| 0 <= i < front.len() && holds(#[trigger] front[i], a);
                assert(holds(tensors[i], a));
                assert(!holds(tensors[tensors.len() - 1], a));
            }
        }
        assert(covered(front).disjoint(own));
        vstd::set_lib::lemma_set_disjoint_lens(covered(front), own);
    }
}

/// Where every byte behind the header is inside one payload, in whatever order the
/// payloads come, the sum of their lengths is the size of what follows the header.
pub proof fn payloads_without_holes_fill_the_section(bytes: Seq<u8>, path: Seq<char>)
    requires
        crate::safetensors::format::container(bytes, path) matches Ok(c) && apart(c.tensors) && (
        forall|a: int| c.data_start <= a < bytes.len() ==> #[trigger] covered(c.tensors).contains(a)),
    ensures
        ({
            let c = crate::safetensors::format::container(bytes, path)->Ok_0;
            crate::safetensors::format::total_bytes(c.tensors) == bytes.len() - c.data_start
        }),
{
    let c = crate::safetensors::format::container(bytes, path)->Ok_0;
    let ts = c.tensors;
    let whole = vstd::set_lib::set_int_range(c.data_start, bytes.len() as int);
    assert forall|i: int| 0 <= i < ts.len() implies (#[trigger] ts[i]).nbytes >= 0 && c.data_start
        <= ts[i].offset && ts[i].offset + ts[i].nbytes <= bytes.len() by {
        tensors_lie_inside(bytes, path, i);
    }
    lemma_covered(ts);
    assert(covered(ts) =~= whole);
    assert(ts.len() > 0);
    tensors_lie_inside(bytes, path, 0);
    vstd::set_lib::lemma_int_range(c.data_start, bytes.len() as int);
}

/// The lengths of the payloads that are found under names, added up.
pub open spec fn found_bytes(bytes: Seq<u8>, tensors: Seq<Tensor>, names: Seq<Seq<char>>) -> int
    decreases names.len(),
{
    if names.len() == 0 {
        0
    } else {
        found_bytes(bytes, tensors, names.drop_last()) + match crate::safetensors::format::find_tensor(
            tensors,
            names.last(),
        ) {
            Some(t) => crate::safetensors::format::payload(bytes, t).len() as int,
            None => 0,
        }
    }
}

proof fn lemma_found_bytes(bytes: Seq<u8>, path: Seq<char>, i: int)
    requires
        crate::safetensors::format::container(bytes, path) matches Ok(c) && 0 <= i
            <= c.tensors.len(),
    ensures
        ({
            let ts = crate::safetensors::format::container(bytes, path)->Ok_0.tensors;
            crate::safetensors::format::total_bytes(ts.take(i)) == found_bytes(
                bytes,
                ts,
                crate::safetensors::format::tensor_names(ts).take(i),
            )
        }),
    decreases i,
{
    let ts = crate::safetensors::format::container(bytes, path)->Ok_0.tensors;
    let names = crate::safetensors::format::tensor_names(ts);
    if i > 0 {
        lemma_found_bytes(bytes, path, i - 1);
        listed_tensors_are_found(bytes, path, i - 1);
        tensors_lie_inside(bytes, path, i - 1);
        assert(ts.take(i).drop_last() =~= ts.take(i - 1));
        assert(names.take(i).drop_last() =~= names.take(i - 1));
        assert(names.take(i).last() == ts[i - 1].name);
    }
}

/// The sum of the lengths is that of the payloads which the listed names give.
pub proof fn the_total_is_that_of_the_listed_tensors(bytes: Seq<u8>, path: Seq<char>)
    requires
        crate::safetensors::format::container(bytes, path) is Ok,
    ensures
        ({
            let ts = crate::safetensors::format::container(bytes, path)->Ok_0.tensors;
            crate::safetensors::format::total_bytes(ts) == found_bytes(
                bytes,
                ts,
                crate::safetensors::format::tensor_names(ts),
            )
        }),
{
    let ts = crate::safetensors::format::container(bytes, path)->Ok_0.tensors;
    let names = crate::safetensors::format::tensor_names(ts);
    lemma_found_bytes(bytes, path, ts.len() as int);
    assert(ts.take(ts.len() as int) =~= ts);
    assert(names.take(ts.len() as int) =~= names);
}

/// Is the value the integer?
pub open spec fn is_integer(v: Json, k: usize) -> bool {
    v matches Json::Num(n) && n.integer() == Some(k as nat)
}

/// Is the value an integer that a `usize` holds?
pub open spec fn has_integer(v: Json) -> bool {
    exists|k: usize| #[trigger] is_integer(v, k)
}

proof fn lemma_usize_of(v: Json)
    ensures
        crate::json::grammar::usize_of(v) matches Some(k) ==> is_integer(v, k),
        crate::json::grammar::usize_of(v) is None ==> !has_integer(v),
        forall|k: usize| #[trigger]
            is_integer(v, k) ==> crate::json::grammar::usize_of(v) == Some(k),
{
}

/// The dimensions of an array are the integers that its elements are, one for one and
/// in their order.
pub proof fn dimensions_are_the_elements(a: Seq<Json>)
    ensures
        match crate::safetensors::format::dimensions(a) {
            Some(shape) => shape.len() == a.len() && forall|i: int|
                0 <= i < a.len() ==> is_integer(#[trigger] a[i], shape[i]),
            None => exists|i: int| 0 <= i < a.len() && !has_integer(#[trigger] a[i]),
        },
    decreases a.len(),
{
    if a.len() > 0 {
        let front = a.drop_last();
        dimensions_are_the_elements(front);
        lemma_usize_of(a.last());
        match crate::safetensors::format::dimensions(front) {
            None => {
                let i = choose|i: int| 0 <= i < front.len() && !has_integer(#[trigger] front[i]);
                assert(!has_integer(a[i]));
            },
            Some(part) => {
                if let Some(shape) = crate::safetensors::format::dimensions(a) {
                    assert forall|i: int| 0 <= i < a.len() implies is_integer(
                        #[trigger] a[i],
                        shape[i],
                    ) by {
                        if i < front.len() {
                            assert(is_integer(front[i], part[i]));
                        }
                    }
                } else {
                    assert(!has_integer(a[a.len() - 1]));
                }
            },
        }
    }
}

/// Where the header of a container ends, the payloads start: it is the JSON text behind
/// the first eight bytes, which are the digits of its length to the base 256.
pub proof fn payloads_start_where_the_header_ends(bytes: Seq<u8>, path: Seq<char>, i: int)
    requires
        crate::safetensors::format::container(bytes, path) is Ok,
        0 <= i < 8,
    ensures
        ({
            let c = crate::safetensors::format::container(bytes, path)->Ok_0;
            &&& 8 <= c.data_start <= bytes.len()
            &&& (((c.data_start - 8) as nat) / crate::math::pow(256, i as nat)) % 256 == bytes[i]
            &&& (c.data_start - 8) < crate::math::pow(256, 8)
            &&& crate::json::grammar::document(bytes.subrange(8, c.data_start)) matches Ok(
                Json::Obj(m),
            )
            &&& m == header(bytes)
        }),
{
    let first = bytes.take(8);
    crate::text::bytes_are_the_digits_of_their_value(first, i);
    assert(first[i] == bytes[i]);
}

/// A tensor has the type, the shape and the place that its entry in the header gives:
/// as many dimensions as the array of the entry has elements, each the integer that the
/// element of its place is; the bytes from the first of the two offsets to the second,
/// counted from where the payloads start.
pub proof fn tensors_are_what_their_entries_say(bytes: Seq<u8>, path: Seq<char>, i: int)
    requires
        crate::safetensors::format::container(bytes, path) matches Ok(c) && 0 <= i
            < c.tensors.len(),
    ensures
        ({
            let c = crate::safetensors::format::container(bytes, path)->Ok_0;
            let t = c.tensors[i];
            &&& crate::json::grammar::document(bytes.subrange(8, c.data_start)) matches Ok(
                Json::Obj(m),
            )
            &&& crate::json::grammar::lookup(m, t.name) matches Some(entry)
            &&& crate::json::grammar::member(entry, "dtype"@) matches Some(Json::Str(d))
            &&& crate::safetensors::format::dtype_of(d) == Some(t.dtype)
            &&& crate::json::grammar::member(entry, "shape"@) matches Some(Json::Arr(a))
            &&& t.shape.len() == a.len()
            &&& forall|k: int| 0 <= k < a.len() ==> is_integer(#[trigger] a[k], t.shape[k])
            &&& crate::json::grammar::member(entry, "data_offsets"@) matches Some(Json::Arr(o))
            &&& o.len() == 2
            &&& is_integer(o[0], (t.offset - c.data_start) as usize)
            &&& is_integer(o[1], (t.offset - c.data_start + t.nbytes) as usize)
            &&& c.data_start <= t.offset <= t.offset + t.nbytes <= bytes.len()
        }),
{
    let c = crate::safetensors::format::container(bytes, path)->Ok_0;
    let t = c.tensors[i];
    payloads_start_where_the_header_ends(bytes, path, 0);
    tensors_lie_inside(bytes, path, i);
    offsets_are_absolute(bytes, path, i);
    lemma_header_distinct(bytes, path);
    let j = lemma_tensor_source(header(bytes), c.data_start, bytes.len() as int, i);
    lemma_lookup_at(header(bytes), j);
    let entry = header(bytes)[j].1;
    let a = crate::json::grammar::member(entry, "shape"@)->0->Arr_0;
    dimensions_are_the_elements(a);
    let o = crate::json::grammar::member(entry, "data_offsets"@)->0->Arr_0;
    lemma_usize_of(o[0]);
    lemma_usize_of(o[1]);
}

/// Is the entry of a tensor as it must be: a known type, dimensions that are integers,
/// whose product, multiplied out from the first on, fits; two offsets, the second not
/// before the first, as far apart as the elements take; all inside the file?
pub open spec fn well_made(entry: Json, header_end: int, file_len: int) -> bool {
    &&& crate::json::grammar::member(entry, "dtype"@) matches Some(Json::Str(d))
    &&& crate::safetensors::format::dtype_of(d) matches Some(dtype)
    &&& crate::json::grammar::member(entry, "shape"@) matches Some(Json::Arr(a))
    &&& exists|shape: Seq<usize>|
        #![trigger crate::safetensors::format::product_fits(shape)]
        {
            &&& shape.len() == a.len()
            &&& forall|k: int| 0 <= k < a.len() ==> is_integer(#[trigger] a[k], shape[k])
            &&& crate::safetensors::format::product_fits(shape)
            &&& crate::safetensors::format::product(shape)
                * crate::safetensors::format::dtype_size(dtype) <= usize::MAX
            &&& crate::json::grammar::member(entry, "data_offsets"@) matches Some(Json::Arr(o))
            &&& o.len() == 2
            &&& exists|lo: usize, hi: usize|
                {
                    &&& #[trigger] is_integer(o[0], lo)
                    &&& #[trigger] is_integer(o[1], hi)
                    &&& hi - lo == crate::safetensors::format::product(shape)
                        * crate::safetensors::format::dtype_size(dtype)
                    &&& header_end + hi <= file_len
                }
        }
}

/// A tensor is taken if and only if its entry is as it must be.
pub proof fn well_made_entries_are_taken(
    name: Seq<char>,
    entry: Json,
    header_end: int,
    file_len: int,
)
    requires
        0 <= header_end,
        file_len <= usize::MAX,
    ensures
        crate::safetensors::format::tensor_of(name, entry, header_end, file_len) is Ok
            <==> well_made(entry, header_end, file_len),
{
    let r = crate::safetensors::format::tensor_of(name, entry, header_end, file_len);
    if let Some(Json::Arr(a)) = crate::json::grammar::member(entry, "shape"@) {
        dimensions_are_the_elements(a);
        if let Some(Json::Arr(o)) = crate::json::grammar::member(entry, "data_offsets"@) {
            if o.len() == 2 {
                lemma_usize_of(o[0]);
                lemma_usize_of(o[1]);
                if well_made(entry, header_end, file_len) {
                    let d = crate::json::grammar::member(entry, "dtype"@)->0->Str_0;
                    let dtype = crate::safetensors::format::dtype_of(d)->0;
                    let shape = choose|shape: Seq<usize>|
                        #![trigger crate::safetensors::format::product_fits(shape)]
                        {
                            &&& shape.len() == a.len()
                            &&& forall|k: int|
                                0 <= k < a.len() ==> is_integer(#[trigger] a[k], shape[k])
                            &&& crate::safetensors::format::product_fits(shape)
                            &&& crate::safetensors::format::product(shape)
                                * crate::safetensors::format::dtype_size(dtype) <= usize::MAX
                            &&& exists|lo: usize, hi: usize|
                                {
                                    &&& #[trigger] is_integer(o[0], lo)
                                    &&& #[trigger] is_integer(o[1], hi)
                                    &&& hi - lo == crate::safetensors::format::product(shape)
                                        * crate::safetensors::format::dtype_size(dtype)
                                    &&& header_end + hi <= file_len
                                }
                        };
                    let found = crate::safetensors::format::dimensions(a);
                    if found is None {
                        let k = choose|k: int| 0 <= k < a.len() && !has_integer(#[trigger] a[k]);
                        assert(is_integer(a[k], shape[k]));
                    }
                    assert(found->0 =~= shape) by {
                        assert forall|k: int| 0 <= k < a.len() implies found->0[k] == shape[k] by {
                            assert(is_integer(a[k], found->0[k]));
                            assert(is_integer(a[k], shape[k]));
                        }
                    }
                }
            }
        }
    }
    if let Ok(t) = r {
        let a = crate::json::grammar::member(entry, "shape"@)->0->Arr_0;
        let shape = crate::safetensors::format::dimensions(a)->0;
        assert(crate::safetensors::format::product_fits(shape));
        let o = crate::json::grammar::member(entry, "data_offsets"@)->0->Arr_0;
        let lo = crate::json::grammar::usize_of(o[0])->0;
        let hi = crate::json::grammar::usize_of(o[1])->0;
        assert(is_integer(o[0], lo) && is_integer(o[1], hi));
    }
}

/// A file is taken if and only if it has a header inside it that is a JSON object with
/// at least one tensor, and every tensor of it is as it must be.
pub proof fn well_made_files_are_taken(bytes: Seq<u8>, path: Seq<char>)
    requires
        bytes.len() <= usize::MAX,
    ensures
        crate::safetensors::format::container(bytes, path) is Ok <==> ({
            let end = 8 + crate::safetensors::format::header_len(bytes) as int;
            &&& 8 <= bytes.len()
            &&& end <= bytes.len()
            &&& crate::json::grammar::document(bytes.subrange(8, end)) matches Ok(Json::Obj(m))
            &&& exists|i: int| 0 <= i < m.len() && (#[trigger] m[i]).0 != "__metadata__"@
            &&& forall|i: int|
                0 <= i < m.len() && (#[trigger] m[i]).0 != "__metadata__"@ ==> well_made(
                    m[i].1,
                    end,
                    bytes.len() as int,
                )
        }),
{
    let end = 8 + crate::safetensors::format::header_len(bytes) as int;
    let len = bytes.len() as int;
    if 8 <= len && end <= len {
        if let Ok(Json::Obj(m)) = crate::json::grammar::document(bytes.subrange(8, end)) {
            lemma_sound(m, end, len);
            assert forall|i: int| 0 <= i < m.len() implies (sound(#[trigger] m[i], end, len) <==> (
            m[i].0 == "__metadata__"@ || well_made(m[i].1, end, len))) by {
                well_made_entries_are_taken(m[i].0, m[i].1, end, len);
            }
            if crate::safetensors::format::tensors_of(m, end, len) is Ok {
                lemma_names(m, end, len);
                lemma_keys_exist(m);
            }
        }
    }
}

/// There is a tensor if some key is not that of the metadata.
proof fn lemma_keys_exist(m: Seq<(Seq<char>, Json)>)
    ensures
        tensor_keys(m).len() > 0 <==> exists|i: int|
            0 <= i < m.len() && (#[trigger] m[i]).0 != crate::safetensors::format::metadata_key(),
    decreases m.len(),
{
    if m.len() > 0 {
        let front = m.drop_last();
        lemma_keys_exist(front);
        if exists|i: int|
            0 <= i < front.len() && (#[trigger] front[i]).0
                != crate::safetensors::format::metadata_key() {
            let i = choose|i: int|
                0 <= i < front.len() && (#[trigger] front[i]).0
                    != crate::safetensors::format::metadata_key();
            assert(m[i].0 != crate::safetensors::format::metadata_key());
        }
        if exists|i: int|
            0 <= i < m.len() && (#[trigger] m[i]).0
                != crate::safetensors::format::metadata_key() {
            let i = choose|i: int|
                0 <= i < m.len() && (#[trigger] m[i]).0
                    != crate::safetensors::format::metadata_key();
            if i < front.len() {
                assert(front[i].0 != crate::safetensors::format::metadata_key());
            } else {
                assert(m.last().0 != crate::safetensors::format::metadata_key());
            }
        }
    }
}

/// Payloads are the bytes of the file at their place.
pub proof fn payloads_are_bytes_of_the_file(bytes: Seq<u8>, t: Tensor, k: int)
    requires
        0 <= t.offset,
        0 <= k < t.nbytes,
        t.offset + t.nbytes <= bytes.len(),
    ensures
        crate::safetensors::format::payload(bytes, t).len() == t.nbytes,
        crate::safetensors::format::payload(bytes, t)[k] == bytes[t.offset + k],
{
}

/// The number of elements is the product of the dimensions, in whatever parts it is
/// taken.
pub proof fn elements_multiply(a: Seq<usize>, b: Seq<usize>, d: usize)
    ensures
        crate::safetensors::format::product(Seq::empty()) == 1,
        crate::safetensors::format::product(seq![d]) == d,
        crate::safetensors::format::product(a + b) == crate::safetensors::format::product(a)
            * crate::safetensors::format::product(b),
    decreases b.len(),
{
    assert(seq![d].drop_last() =~= Seq::<usize>::empty());
    assert(crate::safetensors::format::product(Seq::<usize>::empty()) == 1);
    assert(1 * d as nat == d);
    let pa = crate::safetensors::format::product(a);
    if b.len() == 0 {
        assert(a + b =~= a);
        assert(b =~= Seq::<usize>::empty());
        assert(pa * 1 == pa);
    } else {
        elements_multiply(a, b.drop_last(), d);
        assert((a + b).drop_last() =~= a + b.drop_last());
        let pb = crate::safetensors::format::product(b.drop_last());
        let last = b.last() as nat;
        assert((pa * pb) * last == pa * (pb * last)) by (nonlinear_arith);
    }
}

/// A product that fits is at most the largest `usize`, and one without a zero fits if it
/// is.
pub proof fn products_fit(shape: Seq<usize>)
    ensures
        crate::safetensors::format::product_fits(shape) ==> crate::safetensors::format::product(
            shape,
        ) <= usize::MAX,
        (forall|i: int| 0 <= i < shape.len() ==> #[trigger] shape[i] > 0)
            && crate::safetensors::format::product(shape) <= usize::MAX
            ==> crate::safetensors::format::product_fits(shape),
        crate::safetensors::format::product_fits(shape) && shape.len() > 0
            ==> crate::safetensors::format::product_fits(shape.drop_last()),
{
    assert(shape.take(shape.len() as int) =~= shape);
    if (forall|i: int| 0 <= i < shape.len() ==> #[trigger] shape[i] > 0)
        && crate::safetensors::format::product(shape) <= usize::MAX {
        assert forall|i: int| 0 <= i <= shape.len() implies crate::safetensors::format::product(
            #[trigger] shape.take(i),
        ) <= usize::MAX by {
            let head = shape.take(i);
            let tail = shape.skip(i);
            assert(shape =~= head + tail);
            elements_multiply(head, tail, 0);
            assert forall|k: int| 0 <= k < tail.len() implies #[trigger] tail[k] > 0 by {
                assert(tail[k] == shape[i + k]);
            }
            lemma_product_positive(tail);
            let p = crate::safetensors::format::product(head);
            let q = crate::safetensors::format::product(tail);
            assert(p <= p * q) by (nonlinear_arith)
                requires
                    q >= 1,
                    p >= 0,
            ;
        }
    }
    if shape.len() > 0 && crate::safetensors::format::product_fits(shape) {
        let front = shape.drop_last();
        assert forall|i: int| 0 <= i <= front.len() implies crate::safetensors::format::product(
            #[trigger] front.take(i),
        ) <= usize::MAX by {
            assert(front.take(i) =~= shape.take(i));
        }
    }
}

proof fn lemma_product_positive(shape: Seq<usize>)
    requires
        forall|i: int| 0 <= i < shape.len() ==> #[trigger] shape[i] > 0,
    ensures
        crate::safetensors::format::product(shape) >= 1,
    decreases shape.len(),
{
    if shape.len() > 0 {
        let front = shape.drop_last();
        assert forall|i: int| 0 <= i < front.len() implies #[trigger] front[i] > 0 by {
            assert(front[i] == shape[i]);
        }
        lemma_product_positive(front);
        let p = crate::safetensors::format::product(front);
        let d = shape.last() as nat;
        assert(shape[shape.len() - 1] > 0);
        assert(p * d >= 1) by (nonlinear_arith)
            requires
                p >= 1,
                d >= 1,
        ;
    }
}

/// The name of a type says what it is and how many bits an element takes.
pub proof fn type_names_give_their_sizes(s: Seq<char>)
    ensures
        use_of_type(s),
{
    reveal_strlit("BOOL");
    reveal_strlit("U8");
    reveal_strlit("I8");
    reveal_strlit("U16");
    reveal_strlit("I16");
    reveal_strlit("U32");
    reveal_strlit("I32");
    reveal_strlit("U64");
    reveal_strlit("I64");
    reveal_strlit("F16");
    reveal_strlit("BF16");
    reveal_strlit("F32");
    reveal_strlit("F64");
    reveal_strlit("U");
    reveal_strlit("I");
    reveal_strlit("F");
    reveal_strlit("BF");
    reveal_with_fuel(crate::text::decimal, 2);
    assert(crate::text::decimal(8) =~= seq!['8']);
    assert(crate::text::decimal(16) =~= seq!['1', '6']);
    assert(crate::text::decimal(32) =~= seq!['3', '2']);
    assert(crate::text::decimal(64) =~= seq!['6', '4']);
    assert("U8"@ =~= "U"@ + crate::text::decimal(8));
    assert("I8"@ =~= "I"@ + crate::text::decimal(8));
    assert("U16"@ =~= "U"@ + crate::text::decimal(16));
    assert("I16"@ =~= "I"@ + crate::text::decimal(16));
    assert("U32"@ =~= "U"@ + crate::text::decimal(32));
    assert("I32"@ =~= "I"@ + crate::text::decimal(32));
    assert("U64"@ =~= "U"@ + crate::text::decimal(64));
    assert("I64"@ =~= "I"@ + crate::text::decimal(64));
    assert("F16"@ =~= "F"@ + crate::text::decimal(16));
    assert("BF16"@ =~= "BF"@ + crate::text::decimal(16));
    assert("F32"@ =~= "F"@ + crate::text::decimal(32));
    assert("F64"@ =~= "F"@ + crate::text::decimal(64));
}

/// A name is that of a type if it is the letters of its class and the bits of an
/// element, or the one of booleans, which take a byte.
pub open spec fn use_of_type(s: Seq<char>) -> bool {
    match crate::safetensors::format::dtype_of(s) {
        Some(d) => {
            let bits = crate::text::decimal(8 * crate::safetensors::format::dtype_size(d));
            match d {
                DType::Bool => s == "BOOL"@ && crate::safetensors::format::dtype_size(d) == 1,
                DType::U8 => s == "U"@ + bits && s == "U8"@,
                DType::U16 => s == "U"@ + bits && s == "U16"@,
                DType::U32 => s == "U"@ + bits && s == "U32"@,
                DType::U64 => s == "U"@ + bits && s == "U64"@,
                DType::I8 => s == "I"@ + bits && s == "I8"@,
                DType::I16 => s == "I"@ + bits && s == "I16"@,
                DType::I32 => s == "I"@ + bits && s == "I32"@,
                DType::I64 => s == "I"@ + bits && s == "I64"@,
                DType::F16 => s == "F"@ + bits && s == "F16"@,
                DType::F32 => s == "F"@ + bits && s == "F32"@,
                DType::F64 => s == "F"@ + bits && s == "F64"@,
                DType::BF16 => s == "BF"@ + bits && s == "BF16"@,
            }
        },
        None => s != "BOOL"@ && s != "U8"@ && s != "U16"@ && s != "U32"@ && s != "U64"@ && s
            != "I8"@ && s != "I16"@ && s != "I32"@ && s != "I64"@ && s != "F16"@ && s != "F32"@
            && s != "F64"@ && s != "BF16"@,
    }
}

/// Only a tensor of `F32` that is there and starts at a multiple of four is taken as
/// such.
pub proof fn only_aligned_tensors_are_taken_as_f32(tensors: Seq<Tensor>, name: Seq<char>)
    ensures
        match crate::safetensors::format::f32_tensor(tensors, name) {
            Ok(t) => t.dtype == DType::F32 && t.offset % 4 == 0 && t.name == name && exists|i: int|
                0 <= i < tensors.len() && #[trigger] tensors[i] == t,
            Err(_) => crate::safetensors::format::find_tensor(tensors, name) matches Some(t) ==> (
            t.dtype != DType::F32 || t.offset % 4 != 0),
        },
{
    lemma_found(tensors, name);
}

/// What is read of a tensor is what it is, field by field.
pub proof fn entries_are_their_fields(t: TensorInfo)
    ensures
        t@.name == t.name@,
        t@.dtype == t.dtype,
        t@.shape == t.shape@,
        t@.offset == t.offset,
        t@.nbytes == t.nbytes,
{
}

/// Lists of entries, names and pairs are taken one by one, in their order.
pub proof fn lists_are_taken_one_by_one(
    v: Seq<TensorInfo>,
    n: Seq<String>,
    p: Seq<(String, String)>,
    t: Seq<Tensor>,
    i: int,
)
    ensures
        crate::safetensors::infos(v).len() == v.len(),
        0 <= i < v.len() ==> crate::safetensors::infos(v)[i] == v[i]@,
        crate::safetensors::names(n).len() == n.len(),
        0 <= i < n.len() ==> crate::safetensors::names(n)[i] == n[i]@,
        crate::safetensors::pairs(p).len() == p.len(),
        0 <= i < p.len() ==> crate::safetensors::pairs(p)[i] == (p[i].0@, p[i].1@),
        crate::safetensors::format::tensor_names(t).len() == t.len(),
        0 <= i < t.len() ==> crate::safetensors::format::tensor_names(t)[i] == t[i].name,
{
}

/// The number that metadata holds under a key is the number that its text is, and the
/// key is named where there is none.
pub proof fn metadata_numbers_are_read_from_their_text(
    c: crate::safetensors::format::Contents,
    key: Seq<char>,
    n: nat,
)
    ensures
        match crate::safetensors::format::metadata_number(c, key) {
            Ok(k) => crate::safetensors::format::find_text(c.metadata, key) matches Some(s)
                && crate::text::usize_value(s) == Ok::<nat, crate::text::UsizeFault>(k),
            Err(e) => (crate::safetensors::format::find_text(c.metadata, key) matches Some(s)
                ==> crate::text::usize_value(s) is Err),
        },
        n <= usize::MAX && crate::safetensors::format::find_text(c.metadata, key) == Some(
            crate::text::decimal(n),
        ) ==> crate::safetensors::format::metadata_number(c, key) == Ok::<nat, Seq<char>>(n),
{
    if n <= usize::MAX {
        crate::text::decimal_notation_is_read_back(n);
    }
}

/// What is said of the fault of a tensor begins with its name.
pub proof fn faults_name_the_tensor(f: crate::safetensors::format::TensorFault, name: Seq<char>)
    ensures
        ({
            let head = "tensor `"@ + name + "`"@;
            let s = f.message(name);
            s.len() >= head.len() && s.take(head.len() as int) == head
        }),
{
    let head = "tensor `"@ + name;
    let s = f.message(name);
    reveal_strlit("`");
    reveal_strlit("` has no dtype");
    reveal_strlit("`: unknown safetensors dtype `");
    reveal_strlit("` has no shape");
    reveal_strlit("`: shape entries must be non-negative integers");
    reveal_strlit("` has no data_offsets");
    reveal_strlit("`: data_offsets has ");
    reveal_strlit("`: data_offsets[0] is not a non-negative integer");
    reveal_strlit("`: data_offsets[1] is not a non-negative integer");
    reveal_strlit("`: data_offsets [");
    reveal_strlit("`: shape overflows");
    reveal_strlit("`: data_offsets span ");
    reveal_strlit("`: offset overflows");
    reveal_strlit("`: payload at ");
    let n = head.len() as int;
    assert(s.len() > n);
    assert(s[n] == '`');
    assert(s.take(n + 1) =~= head + "`"@);
}

/// Are these the type and the dimensions that an entry gives?
pub open spec fn gives(entry: Json, dtype: DType, shape: Seq<usize>) -> bool {
    &&& crate::json::grammar::member(entry, "dtype"@) matches Some(Json::Str(d))
    &&& crate::safetensors::format::dtype_of(d) == Some(dtype)
    &&& crate::json::grammar::member(entry, "shape"@) matches Some(Json::Arr(a))
    &&& shape.len() == a.len()
    &&& forall|k: int| 0 <= k < a.len() ==> is_integer(#[trigger] a[k], shape[k])
}

/// Is the entry wrong in the way that is named?
pub open spec fn has_fault(
    entry: Json,
    f: TensorFault,
    header_end: int,
    file_len: int,
) -> bool {
    let shape_entry = crate::json::grammar::member(entry, "shape"@);
    let offsets_entry = crate::json::grammar::member(entry, "data_offsets"@);
    match f {
        TensorFault::NoDtype => !(crate::json::grammar::member(entry, "dtype"@) matches Some(
            Json::Str(_),
        )),
        TensorFault::UnknownDtype(d) => crate::json::grammar::member(entry, "dtype"@) == Some(
            Json::Str(d),
        ) && crate::safetensors::format::dtype_of(d) is None,
        TensorFault::NoShape => !(shape_entry matches Some(Json::Arr(_))),
        TensorFault::ShapeEntry => shape_entry matches Some(Json::Arr(a)) && exists|i: int|
            0 <= i < a.len() && !has_integer(#[trigger] a[i]),
        TensorFault::NoOffsets => !(offsets_entry matches Some(Json::Arr(_))),
        TensorFault::OffsetCount(n) => offsets_entry matches Some(Json::Arr(o)) && o.len() == n
            && n != 2,
        TensorFault::LowOffset => offsets_entry matches Some(Json::Arr(o)) && o.len() == 2
            && !has_integer(o[0]),
        TensorFault::HighOffset => offsets_entry matches Some(Json::Arr(o)) && o.len() == 2
            && has_integer(o[0]) && !has_integer(o[1]),
        TensorFault::Reversed { lo, hi } => offsets_entry matches Some(Json::Arr(o)) && o.len() == 2
            && 0 <= hi < lo <= usize::MAX && is_integer(o[0], lo as usize) && is_integer(
            o[1],
            hi as usize,
        ),
        TensorFault::ShapeOverflow => exists|dtype: DType, shape: Seq<usize>| #[trigger]
            gives(entry, dtype, shape) && (!crate::safetensors::format::product_fits(shape)
                || crate::safetensors::format::product(shape)
                * crate::safetensors::format::dtype_size(dtype) > usize::MAX),
        TensorFault::Size { nbytes, shape, dtype, expect } => {
            &&& gives(entry, dtype, shape)
            &&& expect == crate::safetensors::format::product(shape)
                * crate::safetensors::format::dtype_size(dtype)
            &&& nbytes != expect
            &&& offsets_entry matches Some(Json::Arr(o))
            &&& o.len() == 2
            &&& exists|lo: usize, hi: usize|
                #![trigger is_integer(o[0], lo), is_integer(o[1], hi)]
                is_integer(o[0], lo) && is_integer(o[1], hi) && nbytes == hi - lo
        },
        TensorFault::OffsetOverflow => offsets_entry matches Some(Json::Arr(o)) && o.len() == 2
            && exists|hi: usize|
            #![trigger is_integer(o[1], hi)]
            is_integer(o[1], hi) && header_end + hi > usize::MAX,
        TensorFault::Outside { offset, end, file_len: len } => {
            &&& len == file_len
            &&& end > file_len
            &&& offsets_entry matches Some(Json::Arr(o))
            &&& o.len() == 2
            &&& is_integer(o[0], (offset - header_end) as usize)
            &&& is_integer(o[1], (end - header_end) as usize)
        },
    }
}

/// A tensor that is refused has the fault that is named.
pub proof fn faults_are_what_they_say(
    name: Seq<char>,
    entry: Json,
    header_end: int,
    file_len: int,
)
    ensures
        crate::safetensors::format::tensor_of(name, entry, header_end, file_len) matches Err(f)
            ==> has_fault(entry, f, header_end, file_len),
{
    if let Some(Json::Arr(a)) = crate::json::grammar::member(entry, "shape"@) {
        dimensions_are_the_elements(a);
        if let (Ok(dtype), Ok(shape)) = (
            crate::safetensors::format::entry_dtype(entry),
            crate::safetensors::format::entry_shape(entry),
        ) {
            assert(gives(entry, dtype, shape));
        }
    }
    if let Some(Json::Arr(o)) = crate::json::grammar::member(entry, "data_offsets"@) {
        if o.len() == 2 {
            lemma_usize_of(o[0]);
            lemma_usize_of(o[1]);
            if let (Some(lo), Some(hi)) = (
                crate::json::grammar::usize_of(o[0]),
                crate::json::grammar::usize_of(o[1]),
            ) {
                assert(is_integer(o[0], lo) && is_integer(o[1], hi));
            }
        }
    }
}

/// What is looked at when: the type, the dimensions, the offsets, then whether the
/// elements can be counted, whether the span is as long as they take, and whether it ends
/// inside the file.
pub open spec fn looked_at(f: TensorFault) -> int {
    match f {
        TensorFault::NoDtype | TensorFault::UnknownDtype(_) => 0,
        TensorFault::NoShape | TensorFault::ShapeEntry => 1,
        TensorFault::NoOffsets | TensorFault::OffsetCount(_) | TensorFault::LowOffset
        | TensorFault::HighOffset | TensorFault::Reversed { .. } => 2,
        TensorFault::ShapeOverflow => 3,
        TensorFault::Size { .. } => 4,
        TensorFault::OffsetOverflow => 5,
        TensorFault::Outside { .. } => 6,
    }
}

/// Of several faults of a tensor the one that is looked at first is named.
pub proof fn the_first_fault_of_a_tensor_is_named(
    name: Seq<char>,
    entry: Json,
    header_end: int,
    file_len: int,
    other: TensorFault,
)
    requires
        crate::safetensors::format::tensor_of(name, entry, header_end, file_len) matches Err(f)
            && looked_at(other) < looked_at(f),
    ensures
        !has_fault(entry, other, header_end, file_len),
{
    let dtype = crate::safetensors::format::entry_dtype(entry);
    let shape = crate::safetensors::format::entry_shape(entry);
    assert(dtype is Ok);
    if let Some(Json::Arr(a)) = crate::json::grammar::member(entry, "shape"@) {
        dimensions_are_the_elements(a);
        assert forall|i: int| 0 <= i < a.len() implies #[trigger] crate::json::grammar::usize_of(
            a[i],
        ) is Some || !has_integer(a[i]) by {
            lemma_usize_of(a[i]);
        }
        assert forall|d: DType, s: Seq<usize>| #[trigger] gives(entry, d, s) && shape is Ok implies d
            == dtype->Ok_0 && s == shape->Ok_0 by {
            let own = shape->Ok_0;
            assert forall|k: int| 0 <= k < a.len() implies s[k] == own[k] by {
                assert(is_integer(a[k], s[k]));
                assert(is_integer(a[k], own[k]));
            }
            assert(s =~= own);
        }
    }
    if let Some(Json::Arr(o)) = crate::json::grammar::member(entry, "data_offsets"@) {
        if o.len() == 2 {
            lemma_usize_of(o[0]);
            lemma_usize_of(o[1]);
        }
    }
}

/// What is said of a file that is no container: of the first thing that is wrong with it.
pub proof fn refusals_say_what_is_wrong(bytes: Seq<u8>, path: Seq<char>)
    ensures
        ({
            let r = crate::safetensors::format::container(bytes, path);
            let hlen = crate::safetensors::format::header_len(bytes);
            &&& bytes.len() < 8 ==> r == Err::<crate::safetensors::format::Contents, Seq<char>>(
                path + ": too small to be safetensors"@,
            )
            &&& bytes.len() >= 8 && 8 + hlen > usize::MAX ==> r == Err::<
                crate::safetensors::format::Contents,
                Seq<char>,
            >("safetensors header length overflows"@)
            &&& bytes.len() >= 8 && 8 + hlen <= usize::MAX && 8 + hlen > bytes.len() ==> r == Err::<
                crate::safetensors::format::Contents,
                Seq<char>,
            >(
                path + ": header length "@ + crate::text::decimal(hlen) + " exceeds file size "@
                    + crate::text::decimal(bytes.len()),
            )
            &&& bytes.len() >= 8 && 8 + hlen <= usize::MAX && 8 + hlen <= bytes.len() ==> (
            match crate::json::grammar::document(bytes.subrange(8, 8 + hlen as int)) {
                Err(f) => r == Err::<crate::safetensors::format::Contents, Seq<char>>(
                    path + ": safetensors header: "@ + f.message(),
                ),
                Ok(Json::Obj(m)) => m.len() == 0 ==> r == Err::<
                    crate::safetensors::format::Contents,
                    Seq<char>,
                >(path + ": header declares no tensors"@),
                Ok(_) => r == Err::<crate::safetensors::format::Contents, Seq<char>>(
                    "safetensors header is not a JSON object"@,
                ),
            })
        }),
{
}

/// What is said of a tensor's fault, behind the name of the tensor.
pub proof fn faults_are_told_with_what_was_found(
    name: Seq<char>,
    d: Seq<char>,
    n: nat,
    lo: nat,
    hi: nat,
    len: nat,
    shape: Seq<usize>,
    dtype: DType,
)
    ensures
        ({
            let head = "tensor `"@ + name;
            &&& TensorFault::NoDtype.message(name) == head + "` has no dtype"@
            &&& TensorFault::UnknownDtype(d).message(name) == head + (
            "`: unknown safetensors dtype `"@ + d + "`"@)
            &&& TensorFault::NoShape.message(name) == head + "` has no shape"@
            &&& TensorFault::ShapeEntry.message(name) == head
                + "`: shape entries must be non-negative integers"@
            &&& TensorFault::NoOffsets.message(name) == head + "` has no data_offsets"@
            &&& TensorFault::OffsetCount(n as int).message(name) == head + ("`: data_offsets has "@
                + crate::text::decimal(n) + " entries, expected 2"@)
            &&& TensorFault::LowOffset.message(name) == head
                + "`: data_offsets[0] is not a non-negative integer"@
            &&& TensorFault::HighOffset.message(name) == head
                + "`: data_offsets[1] is not a non-negative integer"@
            &&& (TensorFault::Reversed { lo: lo as int, hi: hi as int }).message(name) == head + (
            "`: data_offsets ["@ + crate::text::decimal(lo) + ", "@ + crate::text::decimal(hi)
                + "] are reversed"@)
            &&& TensorFault::ShapeOverflow.message(name) == head + "`: shape overflows"@
            &&& (TensorFault::Size {
                nbytes: hi as int,
                shape,
                dtype,
                expect: n as int,
            }).message(name) == head + ("`: data_offsets span "@ + crate::text::decimal(hi)
                + " bytes but shape "@ + crate::text::bracketed_list(shape) + " of "@
                + crate::safetensors::format::dtype_text(dtype) + " needs "@
                + crate::text::decimal(n))
            &&& TensorFault::OffsetOverflow.message(name) == head + "`: offset overflows"@
            &&& (TensorFault::Outside {
                offset: lo as int,
                end: hi as int,
                file_len: len as int,
            }).message(name) == head + ("`: payload at "@ + crate::text::decimal(lo) + ".."@
                + crate::text::decimal(hi) + " is outside the "@ + crate::text::decimal(len)
                + "-byte file"@)
        }),
{
}

/// The sum of the lengths grows by one payload at a time, and the line about a file has
/// its path, its length, where its payloads start and how many tensors it has.
pub proof fn files_are_described_by_their_numbers(
    path: Seq<char>,
    len: nat,
    c: crate::safetensors::format::Contents,
    t: Tensor,
)
    requires
        c.data_start >= 0,
    ensures
        crate::safetensors::format::debug_line(path, len, c) == "safetensors::File { path: "@
            + crate::text::path_debug_text(path) + ", len: "@ + crate::text::decimal(len)
            + ", data_start: "@ + crate::text::decimal(c.data_start as nat) + ", tensors: "@
            + crate::text::decimal(c.tensors.len()) + " }"@,
        crate::safetensors::format::total_bytes(c.tensors.push(t))
            == crate::safetensors::format::total_bytes(c.tensors) + t.nbytes,
        crate::safetensors::format::total_bytes(Seq::empty()) == 0,
        crate::safetensors::format::no_tensor(path) == "no tensor `"@ + path
            + "` in the checkpoint"@,
{
    assert(c.tensors.push(t).drop_last() =~= c.tensors);
}

/// Messages name a type as a header does, but for the one of booleans.
pub proof fn types_are_named_as_they_are_read(d: DType)
    ensures
        d != DType::Bool ==> crate::safetensors::format::dtype_of(
            crate::safetensors::format::dtype_text(d),
        ) == Some(d),
        crate::safetensors::format::dtype_text(DType::Bool) == "Bool"@,
{
    reveal_strlit("BOOL");
    reveal_strlit("U8");
    reveal_strlit("I8");
    reveal_strlit("U16");
    reveal_strlit("I16");
    reveal_strlit("U32");
    reveal_strlit("I32");
    reveal_strlit("U64");
    reveal_strlit("I64");
    reveal_strlit("F16");
    reveal_strlit("BF16");
    reveal_strlit("F32");
    reveal_strlit("F64");
    let s = crate::safetensors::format::dtype_text(d);
    if d != DType::Bool {
        let (a, b) = (s[0], s[1]);
        assert("BOOL"@[1] == 'O');
        assert("U8"@[0] == 'U' && "U8"@[1] == '8');
        assert("I8"@[0] == 'I' && "I8"@[1] == '8');
        assert("U16"@[0] == 'U' && "U16"@[1] == '1');
        assert("I16"@[0] == 'I' && "I16"@[1] == '1');
        assert("U32"@[0] == 'U' && "U32"@[1] == '3');
        assert("I32"@[0] == 'I' && "I32"@[1] == '3');
        assert("U64"@[0] == 'U' && "U64"@[1] == '6');
        assert("I64"@[0] == 'I' && "I64"@[1] == '6');
        assert("F16"@[0] == 'F' && "F16"@[1] == '1');
        assert("BF16"@[0] == 'B' && "BF16"@[1] == 'F');
        assert("F32"@[0] == 'F' && "F32"@[1] == '3');
        assert("F64"@[0] == 'F' && "F64"@[1] == '6');
    }
}

/// What is said of a tensor that cannot be taken as `F32`: that there is none of the name,
/// or of which type it is, or where it starts.
pub proof fn refusals_of_f32_say_why(tensors: Seq<Tensor>, name: Seq<char>)
    ensures
        crate::safetensors::format::f32_tensor(tensors, name) matches Err(e) ==> (
        match crate::safetensors::format::find_tensor(tensors, name) {
            None => e == "no tensor `"@ + name + "` in the checkpoint"@,
            Some(t) => if t.dtype != DType::F32 {
                e == "tensor `"@ + name + ("` is "@ + crate::safetensors::format::dtype_text(
                    t.dtype,
                ) + ", not F32"@)
            } else {
                t.offset % 4 != 0 && e == "tensor `"@ + name + ("` starts at byte "@
                    + crate::text::decimal(t.offset as nat)
                    + " in the file, which is not 4-byte aligned"@)
            },
        }),
{
}

} // verus!

//! What the header of a safetensors file says of its tensors.
use vstd::prelude::*;

use crate::json::{json_entries, json_models, json_value, law_members_are_found, parse_json, Json, JsonModel};
use crate::text::{decimal, decimal_string, same, texts};
use crate::tree::{Layout, LayoutModel, MetadataInfo, MetadataModel, Storage, StorageModel};
use crate::tree::{TensorInfo, TensorModel};

verus! {

/// The largest header that is read.
pub const MAX_HEADER_SIZE: u64 = 100_000_000;

/// The number that bytes denote, the lowest first.
pub open spec fn little_endian(bytes: Seq<u8>) -> nat
    decreases bytes.len(),
{
    if bytes.len() == 0 {
        0
    } else {
        bytes[0] as nat + 256 * little_endian(bytes.skip(1))
    }
}

/// The length of the header, from the first eight bytes of the file.
pub fn header_len(bytes: &[u8]) -> (r: u64)
    requires
        bytes.len() == 8,
    ensures
        r == little_endian(bytes@),
{
    let ghost all = bytes@;
    proof {
        reveal_with_fuel(little_endian, 9);
        assert(all.skip(1).skip(1) =~= all.skip(2));
        assert(all.skip(2).skip(1) =~= all.skip(3));
        assert(all.skip(3).skip(1) =~= all.skip(4));
        assert(all.skip(4).skip(1) =~= all.skip(5));
        assert(all.skip(5).skip(1) =~= all.skip(6));
        assert(all.skip(6).skip(1) =~= all.skip(7));
        assert(all.skip(7).skip(1) =~= all.skip(8));
    }
    bytes[0] as u64 + 256 * (bytes[1] as u64 + 256 * (bytes[2] as u64 + 256 * (bytes[3] as u64 + 256
        * (bytes[4] as u64 + 256 * (bytes[5] as u64 + 256 * (bytes[6] as u64 + 256 * (
    bytes[7] as u64)))))))
}

/// The complaint about a header that is too large.
pub open spec fn too_large(len: nat, path: Seq<char>) -> Seq<char> {
    "SafeTensors header too large ("@ + decimal(len) + " bytes): "@ + path
}

/// The length of the header, unless it is too large to be one.
pub fn checked_header_len(bytes: &[u8], path: &str) -> (r: Result<u64, String>)
    requires
        bytes.len() == 8,
    ensures
        match r {
            Ok(n) => n == little_endian(bytes@) && n <= MAX_HEADER_SIZE,
            Err(e) => little_endian(bytes@) > MAX_HEADER_SIZE && e@ == too_large(
                little_endian(bytes@),
                path@,
            ),
        },
{
    let n = header_len(bytes);
    if n > MAX_HEADER_SIZE {
        Err(
            "SafeTensors header too large (".to_owned().concat(
                decimal_string(n as u128).as_str(),
            ).concat(" bytes): ").concat(path),
        )
    } else {
        Ok(n)
    }
}

/// The natural numbers in a list, other items left out.
pub open spec fn naturals(items: Seq<JsonModel>) -> Seq<usize>
    decreases items.len(),
{
    if items.len() == 0 {
        Seq::empty()
    } else {
        match items.last().as_u64() {
            Some(n) => naturals(items.drop_last()).push(n as usize),
            None => naturals(items.drop_last()),
        }
    }
}

/// The natural numbers of a list.
pub fn natural_numbers(items: &Vec<Json>) -> (r: Vec<usize>)
    ensures
        r@ == naturals(json_models(items@)),
{
    let ghost all = json_models(items@);
    let mut r: Vec<usize> = Vec::new();
    let mut i: usize = 0;
    proof {
        assert(all.take(0) =~= Seq::empty());
    }
    while i < items.len()
        invariant
            i <= items.len(),
            all == json_models(items@),
            r@ == naturals(all.take(i as int)),
        decreases items.len() - i,
    {
        proof {
            assert(all.take(i + 1).drop_last() =~= all.take(i as int));
            assert(all.take(i + 1).last() == items@[i as int].model());
        }
        match items[i].as_u64() {
            Some(n) => {
                r.push(n as usize);
            },
            None => {},
        }
        i = i + 1;
    }
    proof {
        assert(all.take(i as int) =~= all);
    }
    r
}

/// The product of the dimensions, modulo the range of a `usize`.
pub open spec fn element_count(shape: Seq<usize>) -> usize
    decreases shape.len(),
{
    if shape.len() == 0 {
        1
    } else {
        element_count(shape.drop_last()).wrapping_mul(shape.last())
    }
}

/// The number of elements of a shape.
pub fn count_elements(shape: &Vec<usize>) -> (r: usize)
    ensures
        r == element_count(shape@),
{
    let mut r: usize = 1;
    let mut i: usize = 0;
    while i < shape.len()
        invariant
            i <= shape.len(),
            r == element_count(shape@.take(i as int)),
        decreases shape.len() - i,
    {
        proof {
            assert(shape@.take(i + 1).drop_last() =~= shape@.take(i as int));
        }
        r = r.wrapping_mul(shape[i]);
        i = i + 1;
    }
    proof {
        assert(shape@.take(i as int) =~= shape@);
    }
    r
}

/// The two data offsets that an entry gives.
pub open spec fn offsets_of(entry: JsonModel) -> Option<(u64, u64)> {
    match entry.list_at("data_offsets"@) {
        Some(list) => if list.len() == 2 && list[0].as_u64() is Some && list[1].as_u64() is Some {
            Some((list[0].as_u64()->0, list[1].as_u64()->0))
        } else {
            None
        },
        None => None,
    }
}

/// The tensor that an entry describes.
pub open spec fn tensor_of(name: Seq<char>, entry: JsonModel, source: Seq<char>) -> TensorModel {
    let shape = match entry.list_at("shape"@) {
        Some(list) => naturals(list),
        None => Seq::empty(),
    };
    TensorModel {
        name,
        dtype: match entry.text_at("dtype"@) {
            Some(s) => s,
            None => "?"@,
        },
        shape,
        size_bytes: match offsets_of(entry) {
            Some((start, end)) => if end >= start {
                (end - start) as usize
            } else {
                0
            },
            None => 0,
        },
        num_elements: element_count(shape),
        storage: StorageModel::Unknown,
        source_path: source,
        layout: match offsets_of(entry) {
            Some((start, end)) => LayoutModel::ByteRange { start, end },
            None => LayoutModel::Untracked,
        },
    }
}

/// The tensors that the entries describe.
pub open spec fn tensors_of(entries: Seq<(Seq<char>, JsonModel)>, source: Seq<char>) -> Seq<
    TensorModel,
>
    decreases entries.len(),
{
    if entries.len() == 0 {
        Seq::empty()
    } else {
        let r = tensors_of(entries.drop_last(), source);
        let (key, value) = entries.last();
        if key == "__metadata__"@ {
            r
        } else {
            r.push(tensor_of(key, value, source))
        }
    }
}

/// The metadata that a `__metadata__` entry holds.
pub open spec fn strings_of(entries: Seq<(Seq<char>, JsonModel)>) -> Seq<MetadataModel> {
    entries.map_values(
        |e: (Seq<char>, JsonModel)|
            MetadataModel { name: e.0, value: e.1.shown(), value_type: "string"@ },
    )
}

/// The metadata among the entries.
pub open spec fn metadata_of(entries: Seq<(Seq<char>, JsonModel)>) -> Seq<MetadataModel>
    decreases entries.len(),
{
    if entries.len() == 0 {
        Seq::empty()
    } else {
        let r = metadata_of(entries.drop_last());
        let (key, value) = entries.last();
        match value.as_object() {
            Some(m) => if key == "__metadata__"@ {
                r + strings_of(m)
            } else {
                r
            },
            None => r,
        }
    }
}

fn entry_offsets(entry: &Json) -> (r: Option<(u64, u64)>)
    ensures
        r == offsets_of(entry.model()),
{
    match entry.list_at("data_offsets") {
        Some(list) => {
            let ghost m = json_models(list@);
            if list.len() != 2 {
                return None;
            }
            proof {
                assert(m[0] == list@[0].model());
                assert(m[1] == list@[1].model());
            }
            match (list[0].as_u64(), list[1].as_u64()) {
                (Some(a), Some(b)) => Some((a, b)),
                _ => None,
            }
        },
        None => None,
    }
}

/// The tensor that a header entry describes.
pub fn entry_tensor(name: &str, entry: &Json, source: &str) -> (r: TensorInfo)
    ensures
        r.deep_view() == tensor_of(name@, entry.model(), source@),
{
    let dtype = match entry.text_at("dtype") {
        Some(s) => s.to_owned(),
        None => "?".to_owned(),
    };
    let shape = match entry.list_at("shape") {
        Some(list) => natural_numbers(list),
        None => Vec::new(),
    };
    let offsets = entry_offsets(entry);
    let size_bytes: usize = match offsets {
        Some((start, end)) => {
            if end >= start {
                (end - start) as usize
            } else {
                0
            }
        },
        None => 0,
    };
    let layout = match offsets {
        Some((start, end)) => Layout::ByteRange { start, end },
        None => Layout::Untracked,
    };
    let num_elements = count_elements(&shape);
    let r = TensorInfo {
        name: name.to_owned(),
        dtype,
        shape,
        size_bytes,
        num_elements,
        storage: Storage::Unknown,
        source_path: source.to_owned(),
        layout,
    };
    proof {
        assert(r.deep_view().shape =~= tensor_of(name@, entry.model(), source@).shape);
    }
    r
}

fn add_strings(out: &mut Vec<MetadataInfo>, entries: &Vec<(String, Json)>)
    ensures
        final(out).deep_view() == old(out).deep_view() + strings_of(json_entries(entries@)),
{
    let ghost all = strings_of(json_entries(entries@));
    let ghost before = out.deep_view();
    let mut i: usize = 0;
    while i < entries.len()
        invariant
            i <= entries.len(),
            all == strings_of(json_entries(entries@)),
            out.deep_view() =~= before + all.take(i as int),
        decreases entries.len() - i,
    {
        let m = MetadataInfo {
            name: entries[i].0.clone(),
            value: entries[i].1.shown(),
            value_type: "string".to_owned(),
        };
        let ghost so_far = out.deep_view();
        out.push(m);
        proof {
            assert(m.deep_view() == all[i as int]);
            assert(out.deep_view() =~= so_far.push(m.deep_view()));
        }
        i = i + 1;
    }
    proof {
        assert(all.take(i as int) =~= all);
    }
}

/// The tensors and the metadata that the entries of a header describe.
pub fn read_entries(entries: &Vec<(String, Json)>, source: &str) -> (r: (
    Vec<TensorInfo>,
    Vec<MetadataInfo>,
))
    ensures
        r.0.deep_view() == tensors_of(json_entries(entries@), source@),
        r.1.deep_view() == metadata_of(json_entries(entries@)),
{
    let ghost all = json_entries(entries@);
    let mut tensors: Vec<TensorInfo> = Vec::new();
    let mut metadata: Vec<MetadataInfo> = Vec::new();
    let mut i: usize = 0;
    proof {
        assert(tensors.deep_view() =~= tensors_of(all.take(0), source@));
        assert(metadata.deep_view() =~= metadata_of(all.take(0)));
    }
    while i < entries.len()
        invariant
            i <= entries.len(),
            all == json_entries(entries@),
            tensors.deep_view() == tensors_of(all.take(i as int), source@),
            metadata.deep_view() == metadata_of(all.take(i as int)),
        decreases entries.len() - i,
    {
        proof {
            assert(all.take(i + 1).drop_last() =~= all.take(i as int));
            assert(all.take(i + 1).last() == (
                entries@[i as int].0@,
                entries@[i as int].1.model(),
            ));
        }
        if same(entries[i].0.as_str(), "__metadata__") {
            match entries[i].1.as_object() {
                Some(m) => add_strings(&mut metadata, m),
                None => {},
            }
        } else {
            let ghost before = tensors.deep_view();
            let t = entry_tensor(entries[i].0.as_str(), &entries[i].1, source);
            tensors.push(t);
            proof {
                assert(tensors.deep_view() =~= before.push(t.deep_view()));
            }
        }
        i = i + 1;
    }
    proof {
        assert(all.take(i as int) =~= all);
    }
    (tensors, metadata)
}

/// The tensors and the metadata that a header describes. `source` is recorded with each
/// tensor, `path` names the file in a complaint.
pub fn read_header(header: &[u8], source: &str, path: &str) -> (r: Result<
    (Vec<TensorInfo>, Vec<MetadataInfo>),
    String,
>)
    ensures
        match json_value(header@) {
            None => r is Err && r->Err_0@ == "Failed to parse SafeTensors header: "@ + path@,
            Some(v) => match v.as_object() {
                None => r is Err && r->Err_0@ == "Invalid SafeTensors header: "@ + path@,
                Some(entries) => r is Ok && r->Ok_0.0.deep_view() == tensors_of(entries, source@)
                    && r->Ok_0.1.deep_view() == metadata_of(entries),
            },
        },
{
    match parse_json(header) {
        None => Err("Failed to parse SafeTensors header: ".to_owned().concat(path)),
        Some(v) => match v.as_object() {
            None => Err("Invalid SafeTensors header: ".to_owned().concat(path)),
            Some(entries) => Ok(read_entries(entries, source)),
        },
    }
}

/// The names of the tensors among the entries.
pub open spec fn names_among(entries: Seq<(Seq<char>, JsonModel)>) -> Seq<Seq<char>>
    decreases entries.len(),
{
    if entries.len() == 0 {
        Seq::empty()
    } else {
        let r = names_among(entries.drop_last());
        if entries.last().0 == "__metadata__"@ {
            r
        } else {
            r.push(entries.last().0)
        }
    }
}

/// The names of the tensors that a header describes; none if it is no object.
pub open spec fn header_names(v: JsonModel) -> Seq<Seq<char>> {
    match v.as_object() {
        Some(entries) => names_among(entries),
        None => Seq::empty(),
    }
}

/// The names of the tensors in a header that was read.
pub fn tensor_names(v: &Json) -> (r: Vec<String>)
    ensures
        texts(r@) == header_names(v.model()),
{
    let mut r: Vec<String> = Vec::new();
    proof {
        assert(texts(r@) =~= Seq::empty());
    }
    match v.as_object() {
        None => {},
        Some(entries) => {
            let ghost all = json_entries(entries@);
            let mut i: usize = 0;
            proof {
                assert(texts(r@) =~= names_among(all.take(0)));
            }
            while i < entries.len()
                invariant
                    i <= entries.len(),
                    all == json_entries(entries@),
                    texts(r@) == names_among(all.take(i as int)),
                decreases entries.len() - i,
            {
                proof {
                    assert(all.take(i + 1).drop_last() =~= all.take(i as int));
                    assert(all.take(i + 1).last().0 == entries@[i as int].0@);
                }
                if !same(entries[i].0.as_str(), "__metadata__") {
                    let ghost before = texts(r@);
                    r.push(entries[i].0.clone());
                    proof {
                        assert(texts(r@) =~= before.push(entries@[i as int].0@));
                    }
                }
                i = i + 1;
            }
            proof {
                assert(all.take(i as int) =~= all);
            }
        },
    }
    r
}

/// The names of the tensors that a header describes; `None` where it is malformed.
pub fn read_tensor_names(header: &[u8]) -> (r: Option<Vec<String>>)
    ensures
        match json_value(header@) {
            None => r is None,
            Some(v) => r is Some && texts(r->0@) == header_names(v),
        },
{
    match parse_json(header) {
        None => None,
        Some(v) => Some(tensor_names(&v)),
    }
}

// ---------------------------------------------------------------------------
// What is read from an entry

/// An object has one entry under a key.
pub open spec fn only_entry(entries: Seq<(Seq<char>, JsonModel)>, key: Seq<char>, i: int) -> bool {
    &&& 0 <= i < entries.len()
    &&& entries[i].0 == key
    &&& forall|j: int| 0 <= j < entries.len() && (#[trigger] entries[j]).0 == key ==> j == i
}

/// An object has no entry under a key.
pub open spec fn no_entry(entries: Seq<(Seq<char>, JsonModel)>, key: Seq<char>) -> bool {
    forall|j: int| 0 <= j < entries.len() ==> (#[trigger] entries[j]).0 != key
}

proof fn lemma_only_entry(entries: Seq<(Seq<char>, JsonModel)>, text: Seq<char>, key: Seq<char>)
    ensures
        forall|i: int|
            #[trigger] only_entry(entries, key, i) ==> JsonModel::Object(entries, text).get(key)
                == Some(entries[i].1),
        no_entry(entries, key) ==> JsonModel::Object(entries, text).get(key) is None,
{
    law_members_are_found(entries, text, key);
    assert forall|i: int| #[trigger] only_entry(entries, key, i) implies JsonModel::Object(
        entries,
        text,
    ).get(key) == Some(entries[i].1) by {
        assert(entries[i].0 == key);
    }
}

proof fn lemma_naturals(items: Seq<JsonModel>)
    requires
        forall|i: int|
            0 <= i < items.len() ==> (#[trigger] items[i]) is Number && items[i]->Number_0 is Some,
    ensures
        naturals(items).len() == items.len(),
        forall|i: int|
            0 <= i < items.len() ==> #[trigger] naturals(items)[i] == items[i]->Number_0->0 as usize,
    decreases items.len(),
{
    if items.len() > 0 {
        let t = items.drop_last();
        let n = items.len() - 1;
        assert forall|i: int| 0 <= i < t.len() implies (#[trigger] t[i]) is Number
            && t[i]->Number_0 is Some by {
            assert(t[i] == items[i]);
        }
        lemma_naturals(t);
        assert(items[n] is Number && items[n]->Number_0 is Some);
        assert forall|i: int| 0 <= i < items.len() implies #[trigger] naturals(items)[i]
            == items[i]->Number_0->0 as usize by {
            if i < n {
                assert(t[i] == items[i]);
                assert(naturals(items)[i] == naturals(t)[i]);
            }
        }
    }
}

/// A tensor has its name from the header's entry, and the file it is read from; the text
/// under `dtype` as its dtype, or `?` where there is none; the numbers under `shape` as
/// its shape; and the two numbers under `data_offsets` as the range of its bytes, whose
/// length is its size.
pub proof fn law_entries_are_read_whole(
    name: Seq<char>,
    members: Seq<(Seq<char>, JsonModel)>,
    text: Seq<char>,
    source: Seq<char>,
)
    ensures
        ({
            let t = tensor_of(name, JsonModel::Object(members, text), source);
            &&& t.name == name
            &&& t.source_path == source
            &&& t.storage == StorageModel::Unknown
            &&& forall|i: int|
                #[trigger] only_entry(members, "dtype"@, i) && members[i].1 is Text ==> t.dtype
                    == members[i].1->Text_0
            &&& no_entry(members, "dtype"@) ==> t.dtype == "?"@
            &&& forall|i: int|
                #[trigger] only_entry(members, "shape"@, i) && members[i].1 is List && (forall|j: int|
                    0 <= j < members[i].1->List_0.len() ==> (#[trigger] members[i].1->List_0[j])
                        is Number && members[i].1->List_0[j]->Number_0 is Some) ==> t.shape.len()
                    == members[i].1->List_0.len() && forall|j: int|
                    0 <= j < t.shape.len() ==> #[trigger] t.shape[j]
                        == members[i].1->List_0[j]->Number_0->0 as usize
            &&& no_entry(members, "shape"@) ==> t.shape.len() == 0
            &&& forall|i: int|
                #[trigger] only_entry(members, "data_offsets"@, i) && members[i].1 is List
                    && members[i].1->List_0.len() == 2 && members[i].1->List_0[0] is Number
                    && members[i].1->List_0[0]->Number_0 is Some && members[i].1->List_0[1] is Number
                    && members[i].1->List_0[1]->Number_0 is Some ==> {
                    let a = members[i].1->List_0[0]->Number_0->0;
                    let b = members[i].1->List_0[1]->Number_0->0;
                    &&& t.layout == LayoutModel::ByteRange { start: a, end: b }
                    &&& a <= b && b - a <= usize::MAX ==> t.size_bytes == b - a
                }
            &&& no_entry(members, "data_offsets"@) ==> t.layout == LayoutModel::Untracked
                && t.size_bytes == 0
        }),
{
    let entry = JsonModel::Object(members, text);
    let t = tensor_of(name, entry, source);
    lemma_only_entry(members, text, "dtype"@);
    lemma_only_entry(members, text, "shape"@);
    lemma_only_entry(members, text, "data_offsets"@);
    assert forall|i: int|
        #[trigger] only_entry(members, "shape"@, i) && members[i].1 is List && (forall|j: int|
            0 <= j < members[i].1->List_0.len() ==> (#[trigger] members[i].1->List_0[j]) is Number
                && members[i].1->List_0[j]->Number_0 is Some) implies t.shape.len()
        == members[i].1->List_0.len() && forall|j: int|
        0 <= j < t.shape.len() ==> #[trigger] t.shape[j] == members[i].1->List_0[j]->Number_0->0
            as usize by {
        lemma_naturals(members[i].1->List_0);
    }
}

/// The number of elements of a shape is the product of its dimensions, where it fits.
pub proof fn law_elements_multiply(shape: Seq<usize>, d: usize)
    ensures
        element_count(Seq::<usize>::empty()) == 1,
        element_count(shape) * d <= usize::MAX ==> element_count(shape.push(d)) == element_count(
            shape,
        ) * d,
{
    assert(shape.push(d).drop_last() =~= shape);
    let (a, b) = (element_count(shape) as int, d as int);
    assert(a * b >= 0) by (nonlinear_arith)
        requires
            a >= 0,
            b >= 0,
    ;
}

/// A header gives one tensor for each of its entries but `__metadata__`, in their order, and
/// with each of them read whole.
pub proof fn law_headers_give_every_entry(
    entries: Seq<(Seq<char>, JsonModel)>,
    e: (Seq<char>, JsonModel),
    source: Seq<char>,
)
    ensures
        tensors_of(Seq::empty(), source) == Seq::<TensorModel>::empty(),
        e.0 != "__metadata__"@ ==> tensors_of(entries.push(e), source) == tensors_of(
            entries,
            source,
        ).push(tensor_of(e.0, e.1, source)),
        e.0 == "__metadata__"@ ==> tensors_of(entries.push(e), source) == tensors_of(
            entries,
            source,
        ),
        tensors_of(entries, source).map_values(|t: TensorModel| t.name) == names_among(entries),
    decreases entries.len(),
{
    assert(entries.push(e).drop_last() =~= entries);
    let name = |t: TensorModel| t.name;
    if entries.len() > 0 {
        law_headers_give_every_entry(entries.drop_last(), e, source);
        assert(tensors_of(entries, source).map_values(name) =~= names_among(entries));
    } else {
        assert(tensors_of(entries, source).map_values(name) =~= names_among(entries));
    }
}

/// The metadata of a header are the members of `__metadata__`, each under its own name: a
/// text as it is, as a string.
pub proof fn law_metadata_is_read_whole(
    members: Seq<(Seq<char>, JsonModel)>,
    text: Seq<char>,
    before: Seq<(Seq<char>, JsonModel)>,
    i: int,
)
    requires
        0 <= i < members.len(),
        forall|j: int| 0 <= j < before.len() ==> (#[trigger] before[j]).0 != "__metadata__"@,
    ensures
        ({
            let got = metadata_of(before.push(("__metadata__"@, JsonModel::Object(members, text))));
            &&& got.len() == members.len()
            &&& got[i].name == members[i].0
            &&& members[i].1 is Text ==> got[i].value == members[i].1->Text_0
            &&& members[i].1 is Number ==> got[i].value == members[i].1->Number_1
            &&& members[i].1 is List ==> got[i].value == members[i].1->List_1
            &&& members[i].1 is Object ==> got[i].value == members[i].1->Object_1
            &&& members[i].1 is Plain ==> got[i].value == members[i].1->Plain_0
            &&& got[i].value_type == "string"@
        }),
    decreases before.len(),
{
    let all = before.push(("__metadata__"@, JsonModel::Object(members, text)));
    assert(all.drop_last() =~= before);
    lemma_no_metadata(before);
    assert(metadata_of(all) =~= strings_of(members));
}

proof fn lemma_no_metadata(entries: Seq<(Seq<char>, JsonModel)>)
    requires
        forall|j: int| 0 <= j < entries.len() ==> (#[trigger] entries[j]).0 != "__metadata__"@,
    ensures
        metadata_of(entries) == Seq::<MetadataModel>::empty(),
    decreases entries.len(),
{
    if entries.len() > 0 {
        let t = entries.drop_last();
        assert forall|j: int| 0 <= j < t.len() implies (#[trigger] t[j]).0 != "__metadata__"@ by {
            assert(t[j] == entries[j]);
        }
        lemma_no_metadata(t);
        assert(entries[entries.len() - 1].0 != "__metadata__"@);
    }
}

/// The length of a header is the number whose eight bytes, the lowest first, stand before it.
pub proof fn law_lengths_read_back(n: u64, bytes: Seq<u8>)
    requires
        bytes.len() == 8,
        n == bytes[0] + 0x100 * bytes[1] + 0x1_0000 * bytes[2] + 0x100_0000 * bytes[3]
            + 0x1_0000_0000 * bytes[4] + 0x100_0000_0000 * bytes[5] + 0x1_0000_0000_0000 * bytes[6]
            + 0x100_0000_0000_0000 * bytes[7],
    ensures
        little_endian(bytes) == n,
{
    reveal_with_fuel(little_endian, 9);
    assert(bytes.skip(1).skip(1) =~= bytes.skip(2));
    assert(bytes.skip(2).skip(1) =~= bytes.skip(3));
    assert(bytes.skip(3).skip(1) =~= bytes.skip(4));
    assert(bytes.skip(4).skip(1) =~= bytes.skip(5));
    assert(bytes.skip(5).skip(1) =~= bytes.skip(6));
    assert(bytes.skip(6).skip(1) =~= bytes.skip(7));
    assert(bytes.skip(7).skip(1) =~= bytes.skip(8));
}

/// The names of a header are those of its entries, in order, without the metadata.
pub proof fn law_header_names_are_the_tensors(
    entries: Seq<(Seq<char>, JsonModel)>,
    text: Seq<char>,
    name: Seq<char>,
    v: JsonModel,
)
    ensures
        name != "__metadata__"@ ==> header_names(JsonModel::Object(entries.push((name, v)), text))
            == header_names(JsonModel::Object(entries, text)).push(name),
        header_names(JsonModel::Object(entries.push(("__metadata__"@, v)), text)) == header_names(
            JsonModel::Object(entries, text),
        ),
        header_names(JsonModel::Plain(text)).len() == 0,
{
    assert(entries.push((name, v)).drop_last() =~= entries);
    assert(entries.push(("__metadata__"@, v)).drop_last() =~= entries);
}

} // verus!

//! What an HDF5 checkpoint says of its tensors and metadata.
use vstd::prelude::*;

use crate::header::{count_elements, element_count};
use crate::json::{json_lines, json_member_lines, json_value, parse_json, pretty, pretty_member};
use crate::json::{Json, JsonModel};
use crate::plain::{decode_lossy, lossy_text};
use crate::prompts::optional;
use crate::schema::{signed, signed_string};
use crate::text::{chars_of, matches_at, occurs_at};
use crate::tree::{
    dup_numbers, Layout, LayoutModel, MetadataInfo, MetadataModel, Storage, StorageModel, TensorInfo,
    TensorModel,
};

verus! {

// ---------------------------------------------------------------------------
// Names

/// The value of a hexadecimal digit.
pub open spec fn hex_digit(b: u8) -> Option<u8> {
    if 48 <= b <= 57 {
        Some((b - 48) as u8)
    } else if 97 <= b <= 102 {
        Some((b - 87) as u8)
    } else if 65 <= b <= 70 {
        Some((b - 55) as u8)
    } else {
        None
    }
}

pub fn hex_val(b: u8) -> (r: Option<u8>)
    ensures
        r == hex_digit(b),
        r is Some ==> r->0 < 16,
{
    if 48 <= b && b <= 57 {
        Some(b - 48)
    } else if 97 <= b && b <= 102 {
        Some(b - 87)
    } else if 65 <= b && b <= 70 {
        Some(b - 55)
    } else {
        None
    }
}

/// Whether an escape such as `%2F` begins the bytes.
pub open spec fn escape_begins(bytes: Seq<u8>) -> bool {
    bytes.len() > 2 && bytes[0] == 37 && hex_digit(bytes[1]) is Some && hex_digit(bytes[2]) is Some
}

/// Bytes with their escapes decoded. What is no escape stays.
pub open spec fn unescaped(bytes: Seq<u8>) -> Seq<u8>
    decreases bytes.len(),
{
    if bytes.len() == 0 {
        bytes
    } else if escape_begins(bytes) {
        seq![(hex_digit(bytes[1])->0 * 16 + hex_digit(bytes[2])->0) as u8] + unescaped(bytes.skip(3))
    } else {
        seq![bytes[0]] + unescaped(bytes.skip(1))
    }
}

/// Decode the escapes in some bytes.
pub fn unescape(bytes: &[u8]) -> (r: Vec<u8>)
    ensures
        r@ == unescaped(bytes@),
{
    let n: usize = bytes.len();
    let mut out: Vec<u8> = Vec::new();
    let mut i: usize = 0;
    proof {
        assert(bytes@.skip(0) =~= bytes@);
        assert(out@ + unescaped(bytes@) =~= unescaped(bytes@));
    }
    while i < n
        invariant
            i <= n,
            n == bytes@.len(),
            out@ + unescaped(bytes@.skip(i as int)) == unescaped(bytes@),
        decreases n - i,
    {
        let ghost rest = bytes@.skip(i as int);
        let ghost had = out@;
        proof {
            assert(rest.skip(1) =~= bytes@.skip(i + 1));
        }
        if bytes[i] == 37 && n - i > 2 {
            let hi = hex_val(bytes[i + 1]);
            let lo = hex_val(bytes[i + 2]);
            if let Some(h) = hi {
                if let Some(l) = lo {
                    out.push(h * 16 + l);
                    proof {
                        assert(rest.skip(3) =~= bytes@.skip(i + 3));
                        assert(out@ + unescaped(rest.skip(3)) =~= had + unescaped(rest));
                    }
                    i = i + 3;
                    continue;
                }
            }
        }
        out.push(bytes[i]);
        proof {
            assert(out@ + unescaped(rest.skip(1)) =~= had + unescaped(rest));
        }
        i = i + 1;
    }
    proof {
        assert(bytes@.skip(i as int) =~= Seq::empty());
        assert(out@ + Seq::<u8>::empty() =~= out@);
    }
    out
}

/// The name of a tensor from the name of its dataset, in which a `/` is escaped as `%2F`.
pub fn percent_decode(s: &str) -> (r: String)
    ensures
        r@ == lossy_text(unescaped(vstd::utf8::encode_utf8(s@))),
        vstd::utf8::valid_utf8(unescaped(vstd::utf8::encode_utf8(s@))) ==> r@
            == vstd::utf8::decode_utf8(unescaped(vstd::utf8::encode_utf8(s@))),
{
    let bytes = unescape(s.as_bytes());
    decode_lossy(bytes.as_slice())
}

/// A hexadecimal digit, with a capital or a small letter.
pub open spec fn digit_of(n: u8, capital: bool) -> u8 {
    if n < 10 {
        (48 + n) as u8
    } else if capital {
        (55 + n) as u8
    } else {
        (87 + n) as u8
    }
}

/// How a byte of a name is written: as it is, or escaped with digits in either case.
pub enum Spelling {
    Kept,
    Escaped { high_capital: bool, low_capital: bool },
}

/// Bytes with each written in its own way.
pub open spec fn spelled(bytes: Seq<u8>, how: Seq<Spelling>) -> Seq<u8>
    decreases bytes.len(),
{
    if bytes.len() == 0 {
        bytes
    } else {
        (match how[0] {
            Spelling::Kept => seq![bytes[0]],
            Spelling::Escaped { high_capital, low_capital } => seq![
                37u8,
                digit_of(bytes[0] / 16, high_capital),
                digit_of(bytes[0] % 16, low_capital),
            ],
        }) + spelled(bytes.skip(1), how.skip(1))
    }
}

/// No byte that is kept begins an escape, as a `%` before two digits would.
pub open spec fn unambiguous(bytes: Seq<u8>, how: Seq<Spelling>) -> bool {
    forall|i: int|
        0 <= i < bytes.len() && #[trigger] how[i] is Kept ==> !escape_begins(
            spelled(bytes.skip(i), how.skip(i)),
        )
}

/// Decoding undoes escaping, whichever places are escaped and in whichever case the
/// digits are written, as long as nothing that is kept reads as an escape.
pub proof fn law_unescaping_undoes_escaping(bytes: Seq<u8>, how: Seq<Spelling>)
    requires
        how.len() == bytes.len(),
        unambiguous(bytes, how),
    ensures
        unescaped(spelled(bytes, how)) == bytes,
    decreases bytes.len(),
{
    if bytes.len() > 0 {
        let rest = bytes.skip(1);
        let others = how.skip(1);
        let e = spelled(bytes, how);
        assert forall|i: int| 0 <= i < rest.len() && #[trigger] others[i] is Kept implies
            !escape_begins(spelled(rest.skip(i), others.skip(i))) by {
            assert(how[i + 1] is Kept);
            assert(rest.skip(i) =~= bytes.skip(i + 1));
            assert(others.skip(i) =~= how.skip(i + 1));
        }
        law_unescaping_undoes_escaping(rest, others);
        match how[0] {
            Spelling::Kept => {
                assert(bytes.skip(0) =~= bytes);
                assert(how.skip(0) =~= how);
                assert(e[0] == bytes[0]);
                assert(e.skip(1) =~= spelled(rest, others));
            },
            Spelling::Escaped { high_capital, low_capital } => {
                let b = bytes[0];
                assert(e[1] == digit_of(b / 16, high_capital));
                assert(e[2] == digit_of(b % 16, low_capital));
                assert(e.skip(3) =~= spelled(rest, others));
                assert(hex_digit(digit_of(b / 16, high_capital)) == Some((b / 16) as u8));
                assert(hex_digit(digit_of(b % 16, low_capital)) == Some((b % 16) as u8));
            },
        }
        assert(unescaped(e) =~= seq![bytes[0]] + rest);
        assert(seq![bytes[0]] + rest =~= bytes);
    }
}

/// A dataset's name in which bytes of a tensor's name are escaped gives the tensor's name
/// back, whichever bytes those are.
pub proof fn law_escaped_names_read_back(name: Seq<char>, key: Seq<char>, how: Seq<Spelling>)
    requires
        how.len() == vstd::utf8::encode_utf8(name).len(),
        unambiguous(vstd::utf8::encode_utf8(name), how),
        vstd::utf8::encode_utf8(key) == spelled(vstd::utf8::encode_utf8(name), how),
    ensures
        vstd::utf8::valid_utf8(unescaped(vstd::utf8::encode_utf8(key))),
        vstd::utf8::decode_utf8(unescaped(vstd::utf8::encode_utf8(key))) == name,
{
    law_unescaping_undoes_escaping(vstd::utf8::encode_utf8(name), how);
    vstd::utf8::encode_utf8_valid_utf8(name);
    vstd::utf8::encode_utf8_decode_utf8(name);
}

// ---------------------------------------------------------------------------
// Filters and dtypes

/// A filter that the data of a dataset passes through.
#[derive(Clone, Copy, Debug, PartialEq, Eq, Structural)]
pub enum Filter {
    Deflate,
    Shuffle,
    Fletcher32,
    SZip,
    NBit,
    ScaleOffset,
    /// A registered filter, by its number.
    User(i32),
    Other,
}

/// The compressor that a registered filter is; bitshuffle only reorders.
pub open spec fn registered_codec(id: i32) -> Option<Seq<char>> {
    if id == 305 {
        Some("lzo"@)
    } else if id == 307 {
        Some("bzip2"@)
    } else if id == 32000 {
        Some("lzf"@)
    } else if id == 32001 {
        Some("blosc"@)
    } else if id == 32004 {
        Some("lz4"@)
    } else if id == 32013 {
        Some("zfp"@)
    } else if id == 32015 {
        Some("zstd"@)
    } else if id == 32008 {
        None
    } else {
        Some("filter#"@ + signed(id as int))
    }
}

/// The name of a registered filter, or `None` for one that does not compress.
pub fn user_filter_codec(id: i32) -> (r: Option<String>)
    ensures
        optional(r) == registered_codec(id),
{
    let name: &'static str = if id == 305 {
        "lzo"
    } else if id == 307 {
        "bzip2"
    } else if id == 32000 {
        "lzf"
    } else if id == 32001 {
        "blosc"
    } else if id == 32004 {
        "lz4"
    } else if id == 32013 {
        "zfp"
    } else if id == 32015 {
        "zstd"
    } else if id == 32008 {
        return None;
    } else {
        return Some("filter#".to_owned().concat(signed_string(id as i128).as_str()));
    };
    Some(name.to_owned())
}

/// The compressor that a filter is.
pub open spec fn codec_of(f: Filter) -> Option<Seq<char>> {
    match f {
        Filter::Deflate => Some("gzip"@),
        Filter::SZip => Some("szip"@),
        Filter::ScaleOffset => Some("scaleoffset"@),
        Filter::NBit => Some("nbit"@),
        Filter::User(id) => registered_codec(id),
        _ => None,
    }
}

/// The name of the compressor that a filter is; `None` for one that reorders or checks.
pub fn compression_codec(filter: &Filter) -> (r: Option<String>)
    ensures
        optional(r) == codec_of(*filter),
{
    match filter {
        Filter::Deflate => Some("gzip".to_owned()),
        Filter::SZip => Some("szip".to_owned()),
        Filter::ScaleOffset => Some("scaleoffset".to_owned()),
        Filter::NBit => Some("nbit".to_owned()),
        Filter::User(id) => user_filter_codec(*id),
        _ => None,
    }
}

/// The compressor of the first filter, from the `i`-th on, that is one.
pub open spec fn first_codec(fs: Seq<Filter>, i: int) -> Option<Seq<char>>
    decreases fs.len() - i,
{
    if i < 0 || i >= fs.len() {
        None
    } else if codec_of(fs[i]) is Some {
        codec_of(fs[i])
    } else {
        first_codec(fs, i + 1)
    }
}

fn find_codec(fs: &Vec<Filter>) -> (r: Option<String>)
    ensures
        optional(r) == first_codec(fs@, 0),
{
    let mut i: usize = 0;
    while i < fs.len()
        invariant
            i <= fs.len(),
            first_codec(fs@, i as int) == first_codec(fs@, 0),
        decreases fs.len() - i,
    {
        let c = compression_codec(&fs[i]);
        if c.is_some() {
            return c;
        }
        i = i + 1;
    }
    None
}

/// How many bytes a number takes.
#[derive(Clone, Copy, Debug, PartialEq, Eq, Structural)]
pub enum Width {
    One,
    Two,
    Four,
    Eight,
}

/// The type of a dataset's elements.
#[derive(Debug)]
pub enum ElementType {
    Integer(Width),
    Unsigned(Width),
    Float(Width),
    Boolean,
    /// Anything else, described.
    Other(String),
}

/// What the library calls a type.
pub open spec fn type_label(t: ElementType) -> Seq<char> {
    match t {
        ElementType::Integer(Width::One) => "I8"@,
        ElementType::Integer(Width::Two) => "I16"@,
        ElementType::Integer(Width::Four) => "I32"@,
        ElementType::Integer(Width::Eight) => "I64"@,
        ElementType::Unsigned(Width::One) => "U8"@,
        ElementType::Unsigned(Width::Two) => "U16"@,
        ElementType::Unsigned(Width::Four) => "U32"@,
        ElementType::Unsigned(Width::Eight) => "U64"@,
        ElementType::Float(Width::One) => "F8"@,
        ElementType::Float(Width::Two) => "F16"@,
        ElementType::Float(Width::Four) => "F32"@,
        ElementType::Float(Width::Eight) => "F64"@,
        ElementType::Boolean => "BOOL"@,
        ElementType::Other(s) => s@,
    }
}

/// What the library calls a type.
pub fn dtype_name(t: &ElementType) -> (r: String)
    ensures
        r@ == type_label(*t),
{
    match t {
        ElementType::Integer(Width::One) => "I8".to_owned(),
        ElementType::Integer(Width::Two) => "I16".to_owned(),
        ElementType::Integer(Width::Four) => "I32".to_owned(),
        ElementType::Integer(Width::Eight) => "I64".to_owned(),
        ElementType::Unsigned(Width::One) => "U8".to_owned(),
        ElementType::Unsigned(Width::Two) => "U16".to_owned(),
        ElementType::Unsigned(Width::Four) => "U32".to_owned(),
        ElementType::Unsigned(Width::Eight) => "U64".to_owned(),
        ElementType::Float(Width::One) => "F8".to_owned(),
        ElementType::Float(Width::Two) => "F16".to_owned(),
        ElementType::Float(Width::Four) => "F32".to_owned(),
        ElementType::Float(Width::Eight) => "F64".to_owned(),
        ElementType::Boolean => "BOOL".to_owned(),
        ElementType::Other(s) => s.clone(),
    }
}

// ---------------------------------------------------------------------------
// Tensors

/// What a file says of a dataset.
#[derive(Debug)]
pub struct Dataset {
    /// Its name, escaped.
    pub key: String,
    pub shape: Vec<usize>,
    /// The type of its elements, where it can be described.
    pub element: Option<ElementType>,
    /// How many bytes an element takes; 0 where that cannot be read.
    pub item_size: usize,
    pub filters: Vec<Filter>,
    /// How many bytes it takes in the file.
    pub storage_size: u64,
    pub chunk: Option<Vec<usize>>,
    pub num_chunks: Option<usize>,
}

/// How a dataset is stored.
pub open spec fn storage_of(d: Dataset) -> StorageModel {
    match first_codec(d.filters@, 0) {
        Some(codec) => if d.storage_size as usize > 0 {
            StorageModel::Compressed { codec, stored_bytes: d.storage_size as usize }
        } else {
            StorageModel::Raw
        },
        None => StorageModel::Raw,
    }
}

/// The tensor that a dataset is.
pub open spec fn dataset_tensor(d: Dataset, path: Seq<char>) -> TensorModel {
    TensorModel {
        name: lossy_text(unescaped(vstd::utf8::encode_utf8(d.key@))),
        dtype: match d.element {
            Some(t) => type_label(t),
            None => "?"@,
        },
        shape: d.shape@,
        size_bytes: element_count(d.shape@).wrapping_mul(d.item_size),
        num_elements: element_count(d.shape@),
        storage: storage_of(d),
        source_path: path,
        layout: match (d.chunk, d.num_chunks) {
            (Some(chunk), Some(n)) => LayoutModel::Chunked { chunk: chunk@, num_chunks: n },
            _ => LayoutModel::Untracked,
        },
    }
}

/// The tensor that a dataset is. Its stored size is reported where a compressor is among
/// its filters.
pub fn dataset_info(d: &Dataset, source_path: &str) -> (t: TensorInfo)
    ensures
        t.deep_view() == dataset_tensor(*d, source_path@),
{
    let num_elements: usize = count_elements(&d.shape);
    let dtype = match &d.element {
        Some(t) => dtype_name(t),
        None => "?".to_owned(),
    };
    let stored: usize = d.storage_size as usize;
    let storage = match find_codec(&d.filters) {
        Some(codec) => if stored > 0 {
            Storage::Compressed { codec, stored_bytes: stored }
        } else {
            Storage::Raw
        },
        None => Storage::Raw,
    };
    let layout = match (&d.chunk, d.num_chunks) {
        (Some(chunk), Some(n)) => Layout::Chunked { chunk: dup_numbers(chunk), num_chunks: n },
        _ => Layout::Untracked,
    };
    TensorInfo {
        name: percent_decode(d.key.as_str()),
        dtype,
        shape: dup_numbers(&d.shape),
        size_bytes: num_elements.wrapping_mul(d.item_size),
        num_elements,
        storage,
        source_path: source_path.to_owned(),
        layout,
    }
}

/// The tensors of a file, one for each dataset.
pub fn read_tensors(datasets: &Vec<Dataset>, source_path: &str) -> (r: Vec<TensorInfo>)
    ensures
        r.deep_view() == datasets@.map_values(|d: Dataset| dataset_tensor(d, source_path@)),
{
    let ghost want = datasets@.map_values(|d: Dataset| dataset_tensor(d, source_path@));
    let mut r: Vec<TensorInfo> = Vec::new();
    let mut i: usize = 0;
    while i < datasets.len()
        invariant
            i <= datasets.len(),
            want == datasets@.map_values(|d: Dataset| dataset_tensor(d, source_path@)),
            r.deep_view() =~= want.take(i as int),
        decreases datasets.len() - i,
    {
        let t = dataset_info(&datasets[i], source_path);
        let ghost had = r.deep_view();
        r.push(t);
        proof {
            assert(r.deep_view() =~= had.push(t.deep_view()));
            assert(want.take(i + 1) =~= want.take(i as int).push(want[i as int]));
        }
        i = i + 1;
    }
    proof {
        assert(r.deep_view() =~= want);
    }
    r
}

// ---------------------------------------------------------------------------
// Metadata

/// What a metadata attribute holds.
#[derive(Debug)]
pub enum Payload {
    /// Nothing that can be unwrapped.
    Nothing,
    /// A string.
    Text(String),
    /// Another value.
    Other,
}

/// The mathematical content of a [`Payload`].
pub enum PayloadModel {
    Nothing,
    Text(Seq<char>),
    Other,
}

impl DeepView for Payload {
    type V = PayloadModel;

    open spec fn deep_view(&self) -> PayloadModel {
        match *self {
            Payload::Nothing => PayloadModel::Nothing,
            Payload::Text(s) => PayloadModel::Text(s@),
            Payload::Other => PayloadModel::Other,
        }
    }
}

/// What stands under the attribute's own name: the string in it, or another value.
pub open spec fn payload_in(document: Option<JsonModel>, name: Seq<char>) -> PayloadModel {
    match document {
        None => PayloadModel::Nothing,
        Some(j) => match j.get(name) {
            None => PayloadModel::Nothing,
            Some(p) => match p.text_at("string_value"@) {
                Some(s) => PayloadModel::Text(s),
                None => PayloadModel::Other,
            },
        },
    }
}

/// Find what a metadata attribute holds in its parsed value.
pub fn find_payload(document: &Option<Json>, name: &str) -> (r: Payload)
    ensures
        r.deep_view() == payload_in(
            match *document {
                Some(j) => Some(j.model()),
                None => None,
            },
            name@,
        ),
{
    match document {
        None => Payload::Nothing,
        Some(j) => match j.get(name) {
            None => Payload::Nothing,
            Some(p) => match p.text_at("string_value") {
                Some(s) => Payload::Text(s.to_owned()),
                None => Payload::Other,
            },
        },
    }
}

/// A name ends with a suffix.
pub open spec fn ends_with(s: Seq<char>, end: Seq<char>) -> bool {
    occurs_at(s, end, s.len() - end.len())
}

fn has_suffix(s: &str, end: &str) -> (b: bool)
    ensures
        b == ends_with(s@, end@),
{
    let v = chars_of(s);
    let e = chars_of(end);
    e.len() <= v.len() && matches_at(&v, &e, v.len() - e.len())
}

/// The value and the kind of what a metadata attribute holds. `lines` is its JSON over
/// several lines, where there is any.
pub open spec fn unwrapped_as(
    payload: PayloadModel,
    lines: Option<Seq<char>>,
    raw: Seq<char>,
) -> Option<(Seq<char>, Seq<char>)> {
    match payload {
        PayloadModel::Nothing => None,
        PayloadModel::Text(s) => Some(
            (
                match lines {
                    Some(l) => l,
                    None => s,
                },
                "string"@,
            ),
        ),
        PayloadModel::Other => Some(
            (
                match lines {
                    Some(l) => l,
                    None => raw,
                },
                "json"@,
            ),
        ),
    }
}

/// The value and the kind of what a metadata attribute holds: a string, over several
/// lines where it is itself JSON, or another value over several lines.
pub fn unwrap_payload(payload: Payload, lines: Option<String>, raw: &str) -> (r: Option<
    (String, String),
>)
    ensures
        match r {
            Some((value, kind)) => unwrapped_as(payload.deep_view(), optional(lines), raw@) == Some(
                (value@, kind@),
            ),
            None => unwrapped_as(payload.deep_view(), optional(lines), raw@) is None,
        },
{
    match payload {
        Payload::Nothing => None,
        Payload::Text(s) => {
            let value = match lines {
                Some(l) => l,
                None => s,
            };
            Some((value, "string".to_owned()))
        },
        Payload::Other => {
            let value = match lines {
                Some(l) => l,
                None => raw.to_owned(),
            };
            Some((value, "json".to_owned()))
        },
    }
}

/// The value and the kind of what a metadata attribute holds.
pub open spec fn unwrapped(name: Seq<char>, raw: Seq<char>) -> Option<(Seq<char>, Seq<char>)> {
    if !ends_with(name, ".__metadata__"@) {
        None
    } else {
        let payload = payload_in(json_value(vstd::utf8::encode_utf8(raw)), name);
        unwrapped_as(
            payload,
            match payload {
                PayloadModel::Text(s) => json_lines(s),
                _ => json_member_lines(raw, name),
            },
            raw,
        )
    }
}

/// Unwrap an `<object>.__metadata__` attribute to what it holds: a string, over several
/// lines where it is itself JSON, or another value over several lines. `None` for other
/// attributes and for what cannot be read.
pub fn unwrap_metadata_value(attr_name: &str, raw: &str) -> (r: Option<(String, String)>)
    ensures
        match r {
            Some((value, kind)) => unwrapped(attr_name@, raw@) == Some((value@, kind@)),
            None => unwrapped(attr_name@, raw@) is None,
        },
{
    if !has_suffix(attr_name, ".__metadata__") {
        return None;
    }
    let document = parse_json(raw.as_bytes());
    let payload = find_payload(&document, attr_name);
    let lines = match &payload {
        Payload::Text(s) => pretty(s.as_str()),
        _ => pretty_member(raw, attr_name),
    };
    unwrap_payload(payload, lines, raw)
}

/// An attribute as it was read: its name, its value and its kind.
#[derive(Debug)]
pub struct Attribute {
    pub name: String,
    pub value: String,
    pub value_type: String,
}

/// The metadata entry that an attribute is.
pub open spec fn attribute_entry(a: Attribute) -> MetadataModel {
    match unwrapped(a.name@, a.value@) {
        Some((value, kind)) => MetadataModel { name: a.name@, value, value_type: kind },
        None => MetadataModel { name: a.name@, value: a.value@, value_type: a.value_type@ },
    }
}

/// The metadata of a file, one entry for each attribute that was read.
pub fn read_metadata(attributes: &Vec<Attribute>) -> (r: Vec<MetadataInfo>)
    ensures
        r.deep_view() == attributes@.map_values(|a: Attribute| attribute_entry(a)),
{
    let ghost want = attributes@.map_values(|a: Attribute| attribute_entry(a));
    let mut r: Vec<MetadataInfo> = Vec::new();
    let mut i: usize = 0;
    while i < attributes.len()
        invariant
            i <= attributes.len(),
            want == attributes@.map_values(|a: Attribute| attribute_entry(a)),
            r.deep_view() =~= want.take(i as int),
        decreases attributes.len() - i,
    {
        let a = &attributes[i];
        let m = match unwrap_metadata_value(a.name.as_str(), a.value.as_str()) {
            Some((value, value_type)) => MetadataInfo { name: a.name.clone(), value, value_type },
            None => MetadataInfo {
                name: a.name.clone(),
                value: a.value.clone(),
                value_type: a.value_type.clone(),
            },
        };
        let ghost had = r.deep_view();
        r.push(m);
        proof {
            assert(r.deep_view() =~= had.push(m.deep_view()));
            assert(want.take(i + 1) =~= want.take(i as int).push(want[i as int]));
        }
        i = i + 1;
    }
    proof {
        assert(r.deep_view() =~= want);
    }
    r
}

// ---------------------------------------------------------------------------
// What is read of a dataset

/// A type's dtype begins with the letter of its kind and goes on with its bits.
pub proof fn law_types_are_named_by_bits(w: Width)
    ensures
        ({
            let bits = match w {
                Width::One => "8"@,
                Width::Two => "16"@,
                Width::Four => "32"@,
                Width::Eight => "64"@,
            };
            &&& type_label(ElementType::Integer(w)) == "I"@ + bits
            &&& type_label(ElementType::Unsigned(w)) == "U"@ + bits
            &&& type_label(ElementType::Float(w)) == "F"@ + bits
            &&& type_label(ElementType::Boolean) == "BOOL"@
        }),
{
    reveal_strlit("8");
    reveal_strlit("16");
    reveal_strlit("32");
    reveal_strlit("64");
    reveal_strlit("I");
    reveal_strlit("U");
    reveal_strlit("F");
    reveal_strlit("I8");
    reveal_strlit("I16");
    reveal_strlit("I32");
    reveal_strlit("I64");
    reveal_strlit("U8");
    reveal_strlit("U16");
    reveal_strlit("U32");
    reveal_strlit("U64");
    reveal_strlit("F8");
    reveal_strlit("F16");
    reveal_strlit("F32");
    reveal_strlit("F64");
    let bits = match w {
        Width::One => "8"@,
        Width::Two => "16"@,
        Width::Four => "32"@,
        Width::Eight => "64"@,
    };
    assert(type_label(ElementType::Integer(w)) =~= "I"@ + bits);
    assert(type_label(ElementType::Unsigned(w)) =~= "U"@ + bits);
    assert(type_label(ElementType::Float(w)) =~= "F"@ + bits);
}

/// A filter names a compressor unless it only reorders or checks: shuffling, checksums and
/// bitshuffle do not compress, every other registered filter does.
pub proof fn law_compressors_are_told_apart(id: i32)
    ensures
        codec_of(Filter::Deflate) == Some("gzip"@),
        codec_of(Filter::User(32004)) == Some("lz4"@),
        codec_of(Filter::User(32015)) == Some("zstd"@),
        codec_of(Filter::Shuffle) is None,
        codec_of(Filter::Fletcher32) is None,
        codec_of(Filter::User(id)) is None <==> id == 32008,
{
}

proof fn lemma_first_codec(fs: Seq<Filter>, from: int, i: int)
    requires
        0 <= from <= i < fs.len(),
        codec_of(fs[i]) is Some,
        forall|j: int| from <= j < i ==> codec_of(#[trigger] fs[j]) is None,
    ensures
        first_codec(fs, from) == codec_of(fs[i]),
    decreases i - from,
{
    if from < i {
        assert(codec_of(fs[from]) is None);
        lemma_first_codec(fs, from + 1, i);
    }
}

proof fn lemma_no_codec(fs: Seq<Filter>, from: int)
    requires
        0 <= from <= fs.len(),
        forall|j: int| from <= j < fs.len() ==> codec_of(#[trigger] fs[j]) is None,
    ensures
        first_codec(fs, from) is None,
    decreases fs.len() - from,
{
    if from < fs.len() {
        assert(codec_of(fs[from]) is None);
        lemma_no_codec(fs, from + 1);
    }
}

/// A tensor has the shape of its dataset, as its size the elements times what each takes,
/// and the dtype of the elements, or `?` where they cannot be described. It is compressed
/// by the first of its filters that compresses, to what the file stores of it; without
/// such a filter it is not.
pub proof fn law_datasets_are_read_whole(d: Dataset, path: Seq<char>, i: int)
    ensures
        ({
            let t = dataset_tensor(d, path);
            &&& t.shape == d.shape@
            &&& t.source_path == path
            &&& t.num_elements == element_count(d.shape@)
            &&& element_count(d.shape@) * d.item_size <= usize::MAX ==> t.size_bytes
                == element_count(d.shape@) * d.item_size
            &&& d.element is Some ==> t.dtype == type_label(d.element->0)
            &&& d.element is None ==> t.dtype == "?"@
            &&& 0 <= i < d.filters@.len() && codec_of(d.filters@[i]) is Some && (forall|j: int|
                0 <= j < i ==> codec_of(#[trigger] d.filters@[j]) is None) && 0 < d.storage_size
                <= usize::MAX ==> t.storage == (StorageModel::Compressed {
                codec: codec_of(d.filters@[i])->0,
                stored_bytes: d.storage_size as usize,
            })
            &&& (forall|j: int| 0 <= j < d.filters@.len() ==> codec_of(#[trigger] d.filters@[j]) is None)
                ==> t.storage == StorageModel::Raw
            &&& d.chunk is Some && d.num_chunks is Some ==> t.layout == (LayoutModel::Chunked {
                chunk: d.chunk->0@,
                num_chunks: d.num_chunks->0,
            })
            &&& d.chunk is None || d.num_chunks is None ==> t.layout == LayoutModel::Untracked
        }),
{
    let (x, y): (usize, usize) = (element_count(d.shape@), d.item_size);
    assert(x * y >= 0) by (nonlinear_arith)
        requires
            x >= 0,
            y >= 0,
    ;
    if x * y <= usize::MAX {
        vstd::arithmetic::div_mod::lemma_small_mod((x * y) as nat, (usize::MAX + 1) as nat);
        assert(x as nat * y as nat == x * y);
        assert(x.wrapping_mul(y) == x * y);
    }
    if 0 <= i < d.filters@.len() && codec_of(d.filters@[i]) is Some && (forall|j: int|
        0 <= j < i ==> codec_of(#[trigger] d.filters@[j]) is None) {
        lemma_first_codec(d.filters@, 0, i);
    }
    if forall|j: int| 0 <= j < d.filters@.len() ==> codec_of(#[trigger] d.filters@[j]) is None {
        lemma_no_codec(d.filters@, 0);
    }
}

/// An attribute whose name ends in `.__metadata__` shows the string in what stands under
/// its own name, over several lines where that is JSON. Any other attribute shows what
/// was read.
pub proof fn law_attributes_show_what_they_hold(a: Attribute)
    ensures
        attribute_entry(a).name == a.name@,
        !occurs_at(a.name@, ".__metadata__"@, a.name@.len() - ".__metadata__"@.len())
            ==> attribute_entry(a).value == a.value@ && attribute_entry(a).value_type
            == a.value_type@,
        occurs_at(a.name@, ".__metadata__"@, a.name@.len() - ".__metadata__"@.len()) && (json_value(
            vstd::utf8::encode_utf8(a.value@),
        ) matches Some(j) && j.get(a.name@) matches Some(p) && p.get("string_value"@) matches Some(v)
            && v is Text) ==> ({
            let s = json_value(vstd::utf8::encode_utf8(a.value@))->0.get(a.name@)->0.get(
                "string_value"@,
            )->0->Text_0;
            &&& attribute_entry(a).value_type == "string"@
            &&& json_lines(s) is None ==> attribute_entry(a).value == s
            &&& json_lines(s) is Some ==> attribute_entry(a).value == json_lines(s)->0
        }),
{
}

/// A metadata attribute is unwrapped where its name ends so and its own name stands in its
/// JSON; a string in it is of kind `string`, anything else of kind `json`; where it can be
/// laid out over several lines it is.
pub proof fn law_metadata_attributes_are_unwrapped(name: Seq<char>, raw: Seq<char>)
    ensures
        ({
            let document = json_value(vstd::utf8::encode_utf8(raw));
            let own = if document is Some {
                document->0.get(name)
            } else {
                None
            };
            &&& !ends_with(name, ".__metadata__"@) || own is None ==> unwrapped(name, raw) is None
            &&& ends_with(name, ".__metadata__"@) && own is Some && own->0.text_at("string_value"@)
                is Some ==> ({
                let s = own->0.text_at("string_value"@)->0;
                unwrapped(name, raw) == Some(
                    (
                        if json_lines(s) is Some {
                            json_lines(s)->0
                        } else {
                            s
                        },
                        "string"@,
                    ),
                )
            })
            &&& ends_with(name, ".__metadata__"@) && own is Some && own->0.text_at("string_value"@)
                is None ==> unwrapped(name, raw) == Some(
                (
                    if json_member_lines(raw, name) is Some {
                        json_member_lines(raw, name)->0
                    } else {
                        raw
                    },
                    "json"@,
                ),
            )
        }),
{
}

} // verus!

//! What the files of a checkpoint say of its tensors.
use vstd::prelude::*;

use crate::commands::is_hdf5;
use crate::explorer::{Browsing, Explorer};
use crate::hdf5::ends_with;
use crate::header::{count_elements, element_count};
use crate::open::{OpenMode, OpenRequest, OpenView};
use crate::paths::{extension, name_in, name_of, path_extension, split_name, stem_of};
use crate::screens::{History, Screen};
use crate::text::{chars_of, matches_at, same, substring};
use crate::tree::{
    dup_numbers, Layout, LayoutModel, MetadataInfo, MetadataModel, Storage, StorageModel, TensorInfo,
    TensorModel,
};

verus! {

/// The format of a checkpoint file.
#[derive(Clone, Copy, Debug, PartialEq, Eq, Structural)]
pub enum FileFormat {
    Safetensors,
    Gguf,
    Npy,
    Npz,
    Hdf5,
    Unsupported,
}

/// The format of a file by its extension.
pub open spec fn format_by(ext: Option<Seq<char>>) -> FileFormat {
    if ext == Some("safetensors"@) {
        FileFormat::Safetensors
    } else if ext == Some("gguf"@) {
        FileFormat::Gguf
    } else if ext == Some("npy"@) {
        FileFormat::Npy
    } else if ext == Some("npz"@) {
        FileFormat::Npz
    } else if ext == Some("h5"@) || ext == Some("hdf5"@) {
        FileFormat::Hdf5
    } else {
        FileFormat::Unsupported
    }
}

/// The format of a file.
pub fn file_format(path: &str) -> (r: FileFormat)
    ensures
        r == format_by(path_extension(path@)),
{
    match extension(path) {
        None => FileFormat::Unsupported,
        Some(e) => {
            let s = e.as_str();
            if same(s, "safetensors") {
                FileFormat::Safetensors
            } else if same(s, "gguf") {
                FileFormat::Gguf
            } else if same(s, "npy") {
                FileFormat::Npy
            } else if same(s, "npz") {
                FileFormat::Npz
            } else if same(s, "h5") || same(s, "hdf5") {
                FileFormat::Hdf5
            } else {
                FileFormat::Unsupported
            }
        },
    }
}

/// What is said of a file that cannot be read here: its format is not known, or HDF5 is
/// not supported.
pub fn format_warning(path: &str, hdf5: bool) -> (r: Option<String>)
    ensures
        match format_by(path_extension(path@)) {
            FileFormat::Unsupported => r is Some && r->0@ == "Warning: Unsupported file format: "@
                + path@,
            FileFormat::Hdf5 => if hdf5 {
                r is None
            } else {
                r is Some && r->0@
                    == "Warning: HDF5 support is not compiled in; rebuild with `--features hdf5` to read "@
                    + path@
            },
            _ => r is None,
        },
{
    match file_format(path) {
        FileFormat::Unsupported => Some(
            "Warning: Unsupported file format: ".to_owned().concat(path),
        ),
        FileFormat::Hdf5 => if hdf5 {
            None
        } else {
            Some(
                "Warning: HDF5 support is not compiled in; rebuild with `--features hdf5` to read ".to_owned().concat(
                    path,
                ),
            )
        },
        _ => None,
    }
}

// ---------------------------------------------------------------------------
// NumPy

/// What the header of an array says.
#[derive(Debug)]
pub struct ArrayHeader {
    pub dtype: String,
    pub shape: Vec<usize>,
    /// Where the data begins.
    pub data_offset: usize,
}

/// How many bytes are left behind an offset.
pub open spec fn left_behind(len: usize, offset: usize) -> usize {
    if len > offset {
        (len - offset) as usize
    } else {
        0
    }
}

fn behind(len: usize, offset: usize) -> (r: usize)
    ensures
        r == left_behind(len, offset),
{
    if len > offset {
        len - offset
    } else {
        0
    }
}

/// The tensor of a NumPy file: it is named after the file, and its data run to the end.
pub open spec fn array_tensor(path: Seq<char>, source: Seq<char>, h: ArrayHeader, len: u64) -> TensorModel {
    TensorModel {
        name: match name_of(path) {
            Some(n) => stem_of(n),
            None => "array"@,
        },
        dtype: h.dtype@,
        shape: h.shape@,
        size_bytes: left_behind(len as usize, h.data_offset),
        num_elements: element_count(h.shape@),
        storage: StorageModel::Unknown,
        source_path: source,
        layout: LayoutModel::ByteRange { start: h.data_offset as u64, end: len },
    }
}

/// The tensor of a NumPy file of `file_len` bytes.
pub fn read_numpy_file(file: &str, source_path: &str, header: &ArrayHeader, file_len: u64) -> (t:
    TensorInfo)
    ensures
        t.deep_view() == array_tensor(file@, source_path@, *header, file_len),
{
    let name = match name_in(file) {
        Some(n) => split_name(n.as_str()).0,
        None => "array".to_owned(),
    };
    TensorInfo {
        name,
        dtype: header.dtype.clone(),
        shape: dup_numbers(&header.shape),
        size_bytes: behind(file_len as usize, header.data_offset),
        num_elements: count_elements(&header.shape),
        storage: Storage::Unknown,
        source_path: source_path.to_owned(),
        layout: Layout::ByteRange { start: header.data_offset as u64, end: file_len },
    }
}

/// An entry of a NumPy archive.
#[derive(Debug)]
pub struct ArchiveEntry {
    pub name: String,
    /// Its size in the archive.
    pub stored: u64,
    /// Its size without compression.
    pub size: u64,
    pub compressed: bool,
}

/// The name of the array that an entry is, if it is one.
pub open spec fn array_name(entry: Seq<char>) -> Option<Seq<char>> {
    if ends_with(entry, ".npy"@) {
        Some(entry.take(entry.len() - 4))
    } else {
        None
    }
}

/// The name of the array that an entry of an archive is, if it is one.
pub fn entry_array(entry: &str) -> (r: Option<String>)
    ensures
        match r {
            Some(s) => array_name(entry@) == Some(s@),
            None => array_name(entry@) is None,
        },
{
    let v = chars_of(entry);
    let e = chars_of(".npy");
    proof {
        reveal_strlit(".npy");
    }
    if v.len() >= 4 && matches_at(&v, &e, v.len() - 4) {
        let name = substring(&v, 0, v.len() - 4);
        proof {
            assert(name@ =~= entry@.take(entry@.len() - 4));
        }
        Some(name)
    } else {
        None
    }
}

/// The tensor that an entry of an archive is.
pub open spec fn entry_tensor(name: Seq<char>, e: ArchiveEntry, h: ArrayHeader, source: Seq<char>) -> TensorModel {
    TensorModel {
        name,
        dtype: h.dtype@,
        shape: h.shape@,
        size_bytes: left_behind(e.size as usize, h.data_offset),
        num_elements: element_count(h.shape@),
        storage: if e.compressed {
            StorageModel::Compressed { codec: "deflate"@, stored_bytes: e.stored as usize }
        } else {
            StorageModel::Raw
        },
        source_path: source,
        layout: LayoutModel::Untracked,
    }
}

/// The tensor that an entry of an archive is: its data are what is left behind its
/// header. `None` for an entry that is no array.
pub fn read_npz_entry(entry: &ArchiveEntry, header: &ArrayHeader, source_path: &str) -> (r: Option<
    TensorInfo,
>)
    ensures
        match r {
            Some(t) => array_name(entry.name@) is Some && t.deep_view() == entry_tensor(
                array_name(entry.name@)->0,
                *entry,
                *header,
                source_path@,
            ),
            None => array_name(entry.name@) is None,
        },
{
    match entry_array(entry.name.as_str()) {
        None => None,
        Some(name) => Some(
            TensorInfo {
                name,
                dtype: header.dtype.clone(),
                shape: dup_numbers(&header.shape),
                size_bytes: behind(entry.size as usize, header.data_offset),
                num_elements: count_elements(&header.shape),
                storage: if entry.compressed {
                    Storage::Compressed {
                        codec: "deflate".to_owned(),
                        stored_bytes: entry.stored as usize,
                    }
                } else {
                    Storage::Raw
                },
                source_path: source_path.to_owned(),
                layout: Layout::Untracked,
            },
        ),
    }
}

// ---------------------------------------------------------------------------
// GGUF

/// The kind of a GGUF value.
#[derive(Clone, Copy, Debug, PartialEq, Eq, Structural)]
pub enum GgufKind {
    U8,
    I8,
    U16,
    I16,
    U32,
    I32,
    F32,
    U64,
    I64,
    F64,
    Bool,
    Text,
    List,
}

impl GgufKind {
    pub open spec fn label_text(self) -> Seq<char> {
        match self {
            GgufKind::U8 => "u8"@,
            GgufKind::I8 => "i8"@,
            GgufKind::U16 => "u16"@,
            GgufKind::I16 => "i16"@,
            GgufKind::U32 => "u32"@,
            GgufKind::I32 => "i32"@,
            GgufKind::F32 => "f32"@,
            GgufKind::U64 => "u64"@,
            GgufKind::I64 => "i64"@,
            GgufKind::F64 => "f64"@,
            GgufKind::Bool => "bool"@,
            GgufKind::Text => "string"@,
            GgufKind::List => "array"@,
        }
    }

    pub fn label(self) -> (r: &'static str)
        ensures
            r@ == self.label_text(),
    {
        match self {
            GgufKind::U8 => "u8",
            GgufKind::I8 => "i8",
            GgufKind::U16 => "u16",
            GgufKind::I16 => "i16",
            GgufKind::U32 => "u32",
            GgufKind::I32 => "i32",
            GgufKind::F32 => "f32",
            GgufKind::U64 => "u64",
            GgufKind::I64 => "i64",
            GgufKind::F64 => "f64",
            GgufKind::Bool => "bool",
            GgufKind::Text => "string",
            GgufKind::List => "array",
        }
    }
}

/// The metadata entry of a GGUF value, which is given as text.
pub fn gguf_metadata(key: &str, value: &str, kind: GgufKind) -> (m: MetadataInfo)
    ensures
        m.deep_view() == (MetadataModel {
            name: key@,
            value: value@,
            value_type: kind.label_text(),
        }),
{
    MetadataInfo {
        name: key.to_owned(),
        value: value.to_owned(),
        value_type: kind.label().to_owned(),
    }
}

/// The tensor of a GGUF file. `size_bytes` is its size by its type.
pub fn gguf_tensor(
    name: &str,
    dtype: &str,
    shape: &Vec<usize>,
    size_bytes: usize,
    offset: u64,
    source_path: &str,
) -> (t: TensorInfo)
    ensures
        t.deep_view() == (TensorModel {
            name: name@,
            dtype: dtype@,
            shape: shape@,
            size_bytes,
            num_elements: element_count(shape@),
            storage: StorageModel::Unknown,
            source_path: source_path@,
            layout: LayoutModel::Offset(offset),
        }),
{
    TensorInfo {
        name: name.to_owned(),
        dtype: dtype.to_owned(),
        shape: dup_numbers(shape),
        size_bytes,
        num_elements: count_elements(shape),
        storage: Storage::Unknown,
        source_path: source_path.to_owned(),
        layout: Layout::Offset(offset),
    }
}

// ---------------------------------------------------------------------------
// Starting

impl Explorer {
    /// Whether one tensor can be read without the rest of the checkpoint: the request is
    /// for a view of a named tensor, and the checkpoint is a single HDF5 file. Gives the
    /// tensor's name.
    pub fn quick_target<'a>(&self, req: &'a OpenRequest) -> (r: Option<&'a String>)
        ensures
            r == if req.metadata is None && !(req.view is Tree) && req.tensor is Some
                && self.files.len() == 1 && is_hdf5(self.files@[0]@) {
                Some(&req.tensor->0)
            } else {
                None
            },
    {
        if req.metadata.is_some() || req.view == OpenView::Tree {
            return None;
        }
        match &req.tensor {
            Some(name) => if self.repack_input().is_some() {
                Some(name)
            } else {
                None
            },
            None => None,
        }
    }

    /// Take over a single tensor that was read without the rest.
    pub fn load_single(&mut self, tensor: TensorInfo, metadata: Vec<MetadataInfo>)
        ensures
            final(self).deep_view() == (Browsing {
                tensors: seq![tensor.deep_view()],
                metadata: metadata.deep_view(),
                parameters: tensor.num_elements,
                ..old(self).deep_view()
            }),
    {
        self.total_parameters = tensor.num_elements;
        let mut tensors: Vec<TensorInfo> = Vec::new();
        tensors.push(tensor);
        self.tensors = tensors;
        self.metadata = metadata;
        proof {
            assert(self.tensors.deep_view() =~= seq![tensor.deep_view()]);
        }
    }
}

/// How a request is shown: once, or as the first screen of the browser.
pub fn open_mode(req: &OpenRequest) -> (m: OpenMode)
    ensures
        m == if req.exit_after {
            OpenMode::OneShot
        } else {
            OpenMode::Interactive
        },
{
    if req.exit_after {
        OpenMode::OneShot
    } else {
        OpenMode::Interactive
    }
}

/// What is to be done when a screen was left.
#[derive(Debug)]
pub enum Landing {
    /// Nothing: another screen is shown.
    Elsewhere,
    /// The tree is shown: read the rest of the checkpoint if it was not read.
    Tree,
    /// The same, then reveal the tensor whose screen was left.
    TreeAt(String),
}

/// What is to be done when a screen was left, whose tensor is given: back on the tree,
/// the tensor is revealed in it.
pub fn landing(history: &History, left: Option<String>) -> (r: Landing)
    requires
        history.wf(),
    ensures
        if history.visited()[history.position()] is Tree {
            match left {
                Some(name) => r matches Landing::TreeAt(n) && n@ == name@,
                None => r is Tree,
            }
        } else {
            r is Elsewhere
        },
{
    match history.current() {
        Screen::Tree => match left {
            Some(name) => Landing::TreeAt(name),
            None => Landing::Tree,
        },
        _ => Landing::Elsewhere,
    }
}

/// What a request asks for beside its screen when it is written as text, and the request
/// for the screen alone.
#[derive(Debug)]
pub struct PlainRequest {
    pub histogram: bool,
    pub stats: bool,
    pub legend: bool,
    pub bins: Option<usize>,
    pub screen: OpenRequest,
}

/// Split a request that is written as text: what is computed beside the screen, and the
/// screen.
pub fn plain_request(req: OpenRequest) -> (r: PlainRequest)
    ensures
        r.histogram == (req.histogram || req.bins is Some),
        r.stats == req.compute_stats,
        r.legend == req.legend,
        r.bins == req.bins,
        r.screen == (OpenRequest { histogram: false, bins: None, exit_after: false, ..req }),
{
    let mut screen = req;
    let histogram = screen.histogram || screen.bins.is_some();
    let (stats, legend, bins) = (screen.compute_stats, screen.legend, screen.bins);
    screen.histogram = false;
    screen.bins = None;
    screen.exit_after = false;
    PlainRequest { histogram, stats, legend, bins, screen }
}

// ---------------------------------------------------------------------------
// What is read

/// A NumPy file's tensor has the dtype and the shape of its header, and its bytes are those
/// from behind the header to the end of the file. An array in an archive likewise, with
/// what it is compressed to.
pub proof fn law_arrays_are_read_whole(
    path: Seq<char>,
    source: Seq<char>,
    h: ArrayHeader,
    len: u64,
    name: Seq<char>,
    e: ArchiveEntry,
)
    requires
        len <= usize::MAX,
        e.size <= usize::MAX,
        e.stored <= usize::MAX,
    ensures
        ({
            let t = array_tensor(path, source, h, len);
            &&& t.dtype == h.dtype@
            &&& t.shape == h.shape@
            &&& t.num_elements == element_count(h.shape@)
            &&& t.source_path == source
            &&& t.layout == (LayoutModel::ByteRange { start: h.data_offset as u64, end: len })
            &&& h.data_offset <= len ==> t.size_bytes == len - h.data_offset
        }),
        ({
            let t = entry_tensor(name, e, h, source);
            &&& t.name == name
            &&& t.dtype == h.dtype@
            &&& t.shape == h.shape@
            &&& t.num_elements == element_count(h.shape@)
            &&& t.source_path == source
            &&& h.data_offset <= e.size ==> t.size_bytes == e.size - h.data_offset
            &&& e.compressed ==> t.storage == (StorageModel::Compressed {
                codec: "deflate"@,
                stored_bytes: e.stored as usize,
            })
            &&& !e.compressed ==> t.storage == StorageModel::Raw
        }),
        array_name(name + ".npy"@) == Some(name),
{
    reveal_strlit(".npy");
    let full = name + ".npy"@;
    assert(full.subrange(full.len() - 4, full.len() as int) =~= ".npy"@);
    assert(full.take(full.len() - 4) =~= name);
}

/// A file can be read where its format is known, and only there; NumPy's two formats and
/// HDF5's two endings are told apart.
pub proof fn law_formats_follow_the_ending(ext: Option<Seq<char>>)
    ensures
        format_by(ext) != FileFormat::Unsupported <==> crate::files::is_readable(ext),
        format_by(Some("safetensors"@)) == FileFormat::Safetensors,
        format_by(ext) == FileFormat::Safetensors ==> ext == Some("safetensors"@),
        format_by(ext) == FileFormat::Gguf <==> ext == Some("gguf"@) && ext != Some("safetensors"@),
        format_by(ext) == FileFormat::Hdf5 ==> ext == Some("h5"@) || ext == Some("hdf5"@),
        format_by(ext) == FileFormat::Npy ==> ext == Some("npy"@),
        format_by(ext) == FileFormat::Npz ==> ext == Some("npz"@),
{
}

} // verus!

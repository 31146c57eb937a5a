//! Repacking a checkpoint with another codec.
use vstd::prelude::*;

use crate::codec::Codec;
use crate::commands::is_hdf5;
use crate::hdf5::{Dataset, ElementType, Filter, Width};
use crate::header::{count_elements, element_count};
use crate::paths::has_extension;
use crate::prompts::optional;
use crate::text::{decimal, decimal_string, occurs, same};
use crate::units::{format_size, ratio, ratio_text, size_text};

verus! {

/// The number of the LZ4 filter.
pub const LZ4_FILTER_ID: i32 = 32004;

/// The number of the Zstandard filter.
pub const ZSTD_FILTER_ID: i32 = 32015;

/// How to repack.
#[derive(Debug)]
pub struct Options {
    pub codec: Codec,
    /// Ignored by codecs without levels.
    pub level: u8,
    /// How many bytes are read and written at a time.
    pub buffer_bytes: usize,
}

/// What came of a repack.
#[derive(Debug)]
pub struct Report {
    /// The datasets that were copied.
    pub tensors: usize,
    /// The datasets that were left out.
    pub skipped: usize,
    /// The size of the source on disk.
    pub in_bytes: u64,
    /// The size of the repacked file on disk.
    pub out_bytes: u64,
    /// The size of all datasets without compression.
    pub logical_bytes: u64,
    /// The codec of the source, where all its datasets share one.
    pub source_codec: Option<Codec>,
}

/// At least one.
pub open spec fn at_least_one(n: u64) -> nat {
    if n > 0 {
        n as nat
    } else {
        1
    }
}

impl Report {
    /// The size of the source over that of the repacked file.
    pub open spec fn ratio_of(self) -> Seq<char> {
        ratio(self.in_bytes as nat, at_least_one(self.out_bytes))
    }

    /// How the size on disk changed. `percent` is the change in whole percent.
    pub open spec fn change_of(self, percent: Seq<char>) -> Seq<char> {
        if self.out_bytes < self.in_bytes {
            percent + "% smaller ("@ + self.ratio_of() + "×)"@
        } else if self.out_bytes > self.in_bytes {
            percent + "% LARGER — the source compressed better"@
        } else {
            "same size"@
        }
    }

    pub open spec fn summary_of(self, new: Codec, percent: Seq<char>) -> Seq<char> {
        decimal(self.tensors as nat) + " datasets"@ + (if self.skipped > 0 {
            ", "@ + decimal(self.skipped as nat) + " skipped"@
        } else {
            ""@
        }) + " · on disk "@ + size_text(self.in_bytes as nat) + " ("@ + (match self.source_codec {
            Some(c) => c.spec_label(),
            None => "uncompressed/mixed"@,
        }) + ") → "@ + size_text(self.out_bytes as nat) + " ("@ + new.spec_label() + "): "@
            + self.change_of(percent) + " · "@ + ratio(
            self.logical_bytes as nat,
            at_least_one(self.out_bytes),
        ) + "× vs uncompressed"@
    }

    /// The size of the source over that of the repacked file, with two digits behind the
    /// point.
    pub fn ratio(&self) -> (r: String)
        ensures
            r@ == self.ratio_of(),
    {
        ratio_text(
            self.in_bytes,
            if self.out_bytes > 0 {
                self.out_bytes
            } else {
                1
            },
        )
    }

    /// What came of the repack, in words. `percent` is by how much the size on disk
    /// changed, in whole percent.
    pub fn summary(&self, new: Codec, percent: &str) -> (r: String)
        ensures
            r@ == self.summary_of(new, percent@),
    {
        let change = if self.out_bytes < self.in_bytes {
            percent.to_owned().concat("% smaller (").concat(self.ratio().as_str()).concat("×)")
        } else if self.out_bytes > self.in_bytes {
            percent.to_owned().concat("% LARGER — the source compressed better")
        } else {
            "same size".to_owned()
        };
        let from: &'static str = match self.source_codec {
            Some(c) => c.label(),
            None => "uncompressed/mixed",
        };
        let skipped = if self.skipped > 0 {
            ", ".to_owned().concat(decimal_string(self.skipped as u128).as_str()).concat(
                " skipped",
            )
        } else {
            "".to_owned()
        };
        let vs_logical = ratio_text(
            self.logical_bytes,
            if self.out_bytes > 0 {
                self.out_bytes
            } else {
                1
            },
        );
        decimal_string(self.tensors as u128).concat(" datasets").concat(skipped.as_str()).concat(
            " · on disk ",
        ).concat(format_size(self.in_bytes).as_str()).concat(" (").concat(from).concat(
            ") → ",
        ).concat(format_size(self.out_bytes).as_str()).concat(" (").concat(new.label()).concat(
            "): ",
        ).concat(change.as_str()).concat(" · ").concat(vs_logical.as_str()).concat(
            "× vs uncompressed",
        )
    }
}

// ---------------------------------------------------------------------------
// The source's codec

/// The codec that a filter is.
pub open spec fn filter_codec(f: Filter) -> Option<Codec> {
    match f {
        Filter::Deflate => Some(Codec::Gzip),
        Filter::User(id) => if id == LZ4_FILTER_ID {
            Some(Codec::Lz4)
        } else if id == ZSTD_FILTER_ID {
            Some(Codec::Zstd)
        } else {
            None
        },
        _ => None,
    }
}

/// The codec of the first filter, from the `i`-th on, that is one.
pub open spec fn codec_from(fs: Seq<Filter>, i: int) -> Option<Codec>
    decreases fs.len() - i,
{
    if i < 0 || i >= fs.len() {
        None
    } else if filter_codec(fs[i]) is Some {
        filter_codec(fs[i])
    } else {
        codec_from(fs, i + 1)
    }
}

/// The codec that a dataset is compressed with, from its filters.
pub fn dataset_codec(fs: &Vec<Filter>) -> (r: Option<Codec>)
    ensures
        r == codec_from(fs@, 0),
{
    let mut i: usize = 0;
    while i < fs.len()
        invariant
            i <= fs.len(),
            codec_from(fs@, i as int) == codec_from(fs@, 0),
        decreases fs.len() - i,
    {
        let c = match fs[i] {
            Filter::Deflate => Some(Codec::Gzip),
            Filter::User(id) => if id == LZ4_FILTER_ID {
                Some(Codec::Lz4)
            } else if id == ZSTD_FILTER_ID {
                Some(Codec::Zstd)
            } else {
                None
            },
            _ => None,
        };
        if c.is_some() {
            return c;
        }
        i = i + 1;
    }
    None
}

/// The codec that all compressed datasets share; `None` where none is compressed or two
/// differ.
pub open spec fn shared_codec(codecs: Seq<Option<Codec>>) -> Option<Codec> {
    let used = codecs.filter(|c: Option<Codec>| c is Some);
    if used.len() > 0 && (forall|i: int| 0 <= i < used.len() ==> #[trigger] used[i] == used[0]) {
        used[0]
    } else {
        None
    }
}

/// The codec that all compressed datasets of a file share.
pub fn source_codec(codecs: &Vec<Option<Codec>>) -> (r: Option<Codec>)
    ensures
        r == shared_codec(codecs@),
{
    let ghost keep = |c: Option<Codec>| c is Some;
    let ghost all = codecs@;
    let mut found: Option<Codec> = None;
    let mut mixed = false;
    let mut i: usize = 0;
    proof {
        reveal(Seq::filter);
        assert(all.take(0).filter(keep) =~= Seq::empty());
    }
    while i < codecs.len()
        invariant
            i <= codecs.len(),
            all == codecs@,
            keep == (|c: Option<Codec>| c is Some),
            ({
                let used = all.take(i as int).filter(keep);
                &&& found is Some <==> used.len() > 0
                &&& used.len() > 0 ==> found == used[0]
                &&& mixed <==> exists|k: int| 0 <= k < used.len() && #[trigger] used[k] != used[0]
            }),
        decreases codecs.len() - i,
    {
        let ghost used = all.take(i as int).filter(keep);
        proof {
            reveal(Seq::filter);
            assert(all.take(i + 1).drop_last() =~= all.take(i as int));
            assert(all.take(i + 1).last() == all[i as int]);
        }
        let ghost next = all.take(i + 1).filter(keep);
        if let Some(c) = codecs[i] {
            proof {
                assert(next == used.push(Some(c)));
                assert forall|k: int| 0 <= k < used.len() implies next[k] == #[trigger] used[k] by {}
            }
            match found {
                None => {
                    found = Some(c);
                },
                Some(p) => {
                    if p != c {
                        mixed = true;
                        proof {
                            assert(next[used.len() as int] != next[0]);
                        }
                    } else {
                        proof {
                            if exists|k: int| 0 <= k < next.len() && #[trigger] next[k] != next[0] {
                                let k = choose|k: int|
                                    0 <= k < next.len() && #[trigger] next[k] != next[0];
                                assert(used[k] != used[0]);
                            }
                        }
                    }
                    proof {
                        if exists|k: int| 0 <= k < used.len() && #[trigger] used[k] != used[0] {
                            let k = choose|k: int|
                                0 <= k < used.len() && #[trigger] used[k] != used[0];
                            assert(next[k] != next[0]);
                        }
                    }
                },
            }
        }
        i = i + 1;
    }
    proof {
        assert(all.take(i as int) =~= all);
    }
    if mixed {
        None
    } else {
        found
    }
}

/// How a dataset's stored chunks can be read.
#[derive(Clone, Copy, Debug, PartialEq, Eq, Structural)]
pub enum Pipeline {
    /// They are not compressed.
    Plain,
    /// They are compressed with one codec.
    Packed(Codec),
    /// Only the HDF5 library can read them.
    Involved,
}

/// How a dataset's stored chunks can be read: directly where it has no filter, or one
/// that is a codec.
pub open spec fn pipeline_of(fs: Seq<Filter>) -> Pipeline {
    if fs.len() == 0 {
        Pipeline::Plain
    } else if fs.len() == 1 && codec_from(fs, 0) is Some {
        Pipeline::Packed(codec_from(fs, 0)->0)
    } else {
        Pipeline::Involved
    }
}

/// How a dataset's stored chunks can be read.
pub fn source_filters_simple(fs: &Vec<Filter>) -> (r: Pipeline)
    ensures
        r == pipeline_of(fs@),
{
    if fs.len() == 0 {
        return Pipeline::Plain;
    }
    if fs.len() > 1 {
        return Pipeline::Involved;
    }
    match dataset_codec(fs) {
        Some(c) => Pipeline::Packed(c),
        None => Pipeline::Involved,
    }
}

// ---------------------------------------------------------------------------
// Blocks

pub open spec fn one_or(n: int) -> int {
    if n > 1 {
        n
    } else {
        1
    }
}

/// How many rows a block has: about as many as fit in the buffer, but whole chunks.
pub open spec fn rows_in_block(buffer: int, item: int, inner: int, chunk: int) -> int {
    one_or(one_or(one_or(buffer / one_or(item)) / one_or(inner)) / one_or(chunk)) * one_or(chunk)
}

fn or_one(n: usize) -> (r: usize)
    ensures
        r == one_or(n as int),
        r > 0,
{
    if n > 1 {
        n
    } else {
        1
    }
}

/// How many rows of `inner` elements are copied at a time: about as many as fit in the
/// buffer, but whole chunks of `chunk` rows.
pub fn block_rows(buffer_bytes: usize, item: usize, inner: usize, chunk: usize) -> (r: usize)
    ensures
        r == rows_in_block(buffer_bytes as int, item as int, inner as int, chunk as int),
        r > 0,
{
    let elements: usize = or_one(buffer_bytes / or_one(item));
    let rows: usize = or_one(elements / or_one(inner));
    let c: usize = or_one(chunk);
    let n: usize = or_one(rows / c);
    proof {
        let (a, b) = (rows as int, c as int);
        assert(a / b * b <= a) by (nonlinear_arith)
            requires
                a >= 0,
                b > 0,
        ;
        assert(1 * b == b) by (nonlinear_arith);
        let (x, y) = (n as int, c as int);
        assert(x * y > 0) by (nonlinear_arith)
            requires
                x > 0,
                y > 0,
        ;
    }
    n * c
}

/// How many chunks are read before they are written.
pub fn chunks_per_batch(buffer_bytes: usize, chunk_raw: usize) -> (r: usize)
    ensures
        r == one_or(buffer_bytes as int / one_or(chunk_raw as int)),
        r > 0,
{
    or_one(buffer_bytes / or_one(chunk_raw))
}

/// `0..n` in runs of `per`, the last of them shorter where that does not come out even.
pub open spec fn runs_from(i: int, n: int, per: int) -> Seq<(usize, usize)>
    decreases n - i,
{
    if i >= n || per <= 0 {
        Seq::empty()
    } else if n - i <= per {
        seq![(i as usize, n as usize)]
    } else {
        seq![(i as usize, (i + per) as usize)] + runs_from(i + per, n, per)
    }
}

/// `0..n` in runs of `per`.
pub fn runs(n: usize, per: usize) -> (r: Vec<(usize, usize)>)
    requires
        per > 0,
    ensures
        r@ == runs_from(0, n as int, per as int),
{
    let mut r: Vec<(usize, usize)> = Vec::new();
    let mut i: usize = 0;
    let ghost all = runs_from(0, n as int, per as int);
    proof {
        assert(r@ + all =~= all);
    }
    while i < n
        invariant
            i <= n,
            per > 0,
            r@ + runs_from(i as int, n as int, per as int) == all,
        decreases n - i,
    {
        let end: usize = if n - i <= per {
            n
        } else {
            i + per
        };
        let ghost had = r@;
        r.push((i, end));
        proof {
            assert(r@ + runs_from(end as int, n as int, per as int) =~= had + runs_from(
                i as int,
                n as int,
                per as int,
            ));
        }
        i = end;
    }
    proof {
        assert(r@ + Seq::<(usize, usize)>::empty() =~= r@);
    }
    r
}

/// The runs follow each other without gaps from the first index to the last, and none is
/// empty or longer than asked for.
pub proof fn law_runs_cover(i: int, n: int, per: int)
    requires
        0 <= i < n <= usize::MAX,
        per > 0,
    ensures
        ({
            let r = runs_from(i, n, per);
            &&& r.len() > 0
            &&& r[0].0 == i
            &&& r.last().1 == n
            &&& forall|k: int|
                0 <= k < r.len() ==> (#[trigger] r[k]).0 < r[k].1 && r[k].1 - r[k].0 <= per
            &&& forall|k: int, l: int|
                #![trigger r[k], r[l]]
                0 <= k < r.len() && l == k + 1 && l < r.len() ==> r[k].1 == r[l].0
        }),
    decreases n - i,
{
    if n - i > per {
        law_runs_cover(i + per, n, per);
        let t = runs_from(i + per, n, per);
        let r = runs_from(i, n, per);
        assert(r.last() == t.last());
        assert forall|k: int| 0 <= k < r.len() implies (#[trigger] r[k]).0 < r[k].1 && r[k].1
            - r[k].0 <= per by {
            if k > 0 {
                assert(r[k] == t[k - 1]);
            }
        }
        assert forall|k: int, l: int|
            #![trigger r[k], r[l]]
            0 <= k < r.len() && l == k + 1 && l < r.len() implies r[k].1 == r[l].0 by {
            assert(r[l] == t[l - 1]);
            if k > 0 {
                assert(r[k] == t[k - 1]);
            }
        }
    }
}

// ---------------------------------------------------------------------------
// Copying a dataset

/// Whether values of a type can be copied.
pub open spec fn copies(t: ElementType) -> bool {
    match t {
        ElementType::Integer(_) => true,
        ElementType::Unsigned(_) => true,
        ElementType::Float(w) => w != Width::One,
        _ => false,
    }
}

/// How a dataset is copied.
#[derive(Clone, Copy, Debug, PartialEq, Eq, Structural)]
pub enum CopyPlan {
    /// Not at all: its type cannot be copied.
    Skip,
    /// All at once: it has no chunks.
    Verbatim,
    /// Chunk by chunk, each decoded from one codec to bytes, so many at a time.
    Transcode { from: Option<Codec>, per_batch: usize },
    /// In blocks of so many rows.
    Blocks { rows: usize },
}

/// How a dataset is copied.
pub open spec fn plan_for(d: Dataset, buffer: usize) -> CopyPlan {
    if d.element is None || !copies(d.element->0) {
        CopyPlan::Skip
    } else {
        match d.chunk {
            None => CopyPlan::Verbatim,
            Some(chunk) => match pipeline_of(d.filters@) {
                Pipeline::Plain => CopyPlan::Transcode {
                    from: None,
                    per_batch: batch_size(d, buffer) as usize,
                },
                Pipeline::Packed(c) => CopyPlan::Transcode {
                    from: Some(c),
                    per_batch: batch_size(d, buffer) as usize,
                },
                Pipeline::Involved => CopyPlan::Blocks {
                    rows: rows_in_block(
                        buffer as int,
                        d.item_size as int,
                        element_count(d.shape@.skip(1)) as int,
                        if chunk.len() > 0 {
                            chunk@[0] as int
                        } else {
                            d.shape@[0] as int
                        },
                    ) as usize,
                },
            },
        }
    }
}

/// How many of a dataset's chunks are read before they are written.
pub open spec fn batch_size(d: Dataset, buffer: usize) -> int {
    one_or(
        buffer as int / one_or(
            match d.chunk {
                Some(c) => element_count(c@).wrapping_mul(d.item_size) as int,
                None => 0,
            },
        ),
    )
}

fn tail_count(shape: &Vec<usize>) -> (r: usize)
    requires
        shape.len() > 0,
    ensures
        r == element_count(shape@.skip(1)),
{
    let mut tail: Vec<usize> = Vec::new();
    let mut i: usize = 1;
    while i < shape.len()
        invariant
            1 <= i <= shape.len(),
            tail@ =~= shape@.subrange(1, i as int),
        decreases shape.len() - i,
    {
        tail.push(shape[i]);
        i = i + 1;
    }
    proof {
        assert(tail@ =~= shape@.skip(1));
    }
    count_elements(&tail)
}

/// Decide how a dataset is copied. Chunks whose filters are one codec or none are
/// decoded directly; others go through the HDF5 library, a block of rows at a time.
pub fn plan_copy(d: &Dataset, buffer_bytes: usize) -> (r: CopyPlan)
    requires
        d.chunk is Some ==> d.shape.len() > 0,
    ensures
        r == plan_for(*d, buffer_bytes),
{
    let copied = match &d.element {
        Some(ElementType::Integer(_)) => true,
        Some(ElementType::Unsigned(_)) => true,
        Some(ElementType::Float(w)) => *w != Width::One,
        _ => false,
    };
    if !copied {
        return CopyPlan::Skip;
    }
    let chunk = match &d.chunk {
        None => {
            return CopyPlan::Verbatim;
        },
        Some(c) => c,
    };
    let per_batch: usize = chunks_per_batch(
        buffer_bytes,
        count_elements(chunk).wrapping_mul(d.item_size),
    );
    match source_filters_simple(&d.filters) {
        Pipeline::Plain => CopyPlan::Transcode { from: None, per_batch },
        Pipeline::Packed(c) => CopyPlan::Transcode { from: Some(c), per_batch },
        Pipeline::Involved => {
            let first: usize = if chunk.len() > 0 {
                chunk[0]
            } else {
                d.shape[0]
            };
            CopyPlan::Blocks {
                rows: block_rows(buffer_bytes, d.item_size, tail_count(&d.shape), first),
            }
        },
    }
}

/// Count a dataset that was copied, with its size, or left out.
pub fn tally(report: &mut Report, copied: Option<u64>)
    requires
        old(report).tensors < usize::MAX,
        old(report).skipped < usize::MAX,
        copied is Some ==> old(report).logical_bytes + copied->0 <= u64::MAX,
    ensures
        *final(report) == match copied {
            Some(bytes) => (Report {
                tensors: (old(report).tensors + 1) as usize,
                logical_bytes: (old(report).logical_bytes + bytes) as u64,
                ..*old(report)
            }),
            None => (Report { skipped: (old(report).skipped + 1) as usize, ..*old(report) }),
        },
{
    match copied {
        Some(bytes) => {
            report.tensors = report.tensors + 1;
            report.logical_bytes = report.logical_bytes + bytes;
        },
        None => {
            report.skipped = report.skipped + 1;
        },
    }
}

/// Why a file is not repacked, if it is not: it would be written over, or something else
/// would. `from` and `to` are the absolute paths, where they can be had.
pub open spec fn refusal(
    input: Seq<char>,
    output: Seq<char>,
    from: Option<Seq<char>>,
    to: Option<Seq<char>>,
    exists_already: bool,
) -> Option<Seq<char>> {
    if from is Some && to is Some && from == to {
        Some("input and output are the same file: "@ + input)
    } else if exists_already {
        Some("output already exists: "@ + output)
    } else {
        None
    }
}

/// Refuse to write over the source or over an existing file.
pub fn check_paths(
    input: &str,
    output: &str,
    from: &Option<String>,
    to: &Option<String>,
    exists_already: bool,
) -> (r: Result<(), String>)
    ensures
        match r {
            Ok(_) => refusal(input@, output@, optional(*from), optional(*to), exists_already) is None,
            Err(e) => refusal(input@, output@, optional(*from), optional(*to), exists_already)
                == Some(e@),
        },
{
    if let Some(a) = from {
        if let Some(b) = to {
            if same(a.as_str(), b.as_str()) {
                return Err("input and output are the same file: ".to_owned().concat(input));
            }
        }
    }
    if exists_already {
        return Err("output already exists: ".to_owned().concat(output));
    }
    Ok(())
}

// ---------------------------------------------------------------------------
// Chunks

/// What a Zstandard frame holds; `None` where it is damaged.
pub uninterp spec fn zstd_content(bytes: Seq<u8>) -> Option<Seq<u8>>;

/// The Zstandard frame of some bytes at a level; `None` where the encoder refuses them.
pub uninterp spec fn zstd_frame(raw: Seq<u8>, level: u8) -> Option<Seq<u8>>;

/// What a zlib stream holds; `None` where it is damaged.
pub uninterp spec fn zlib_content(bytes: Seq<u8>) -> Option<Seq<u8>>;

/// Where a zlib encoder failed.
#[derive(Clone, Copy, Debug, PartialEq, Eq, Structural)]
pub enum ZlibFault {
    /// While it took the bytes in.
    Write,
    /// While it closed the stream.
    Finish,
}

/// The zlib stream of some bytes at a level, or where the encoder failed.
pub uninterp spec fn zlib_stream(raw: Seq<u8>, level: u8) -> Result<Seq<u8>, ZlibFault>;

/// Calls `zstd::decode_all`, whose result is named `zstd_content`.
#[verifier::external_body]
fn zstd_decode(bytes: &[u8]) -> (r: Option<Vec<u8>>)
    ensures
        (match r {
            Some(v) => Some(v@),
            None => None,
        }) == zstd_content(bytes@),
{
    zstd::decode_all(bytes).ok()
}

/// Calls `zstd::encode_all`, whose result is named `zstd_frame`. Where there is a frame,
/// decoding it gives the bytes back.
#[verifier::external_body]
fn zstd_encode(raw: &[u8], level: u8) -> (r: Option<Vec<u8>>)
    ensures
        (match r {
            Some(v) => Some(v@),
            None => None,
        }) == zstd_frame(raw@, level),
        r matches Some(v) ==> zstd_content(v@) == Some(raw@),
{
    zstd::encode_all(raw, level as i32).ok()
}

/// Calls `flate2::read::ZlibDecoder::read_to_end`, whose result is named `zlib_content`.
#[verifier::external_body]
fn zlib_decode(bytes: &[u8]) -> (r: Option<Vec<u8>>)
    ensures
        (match r {
            Some(v) => Some(v@),
            None => None,
        }) == zlib_content(bytes@),
{
    let mut out = Vec::new();
    let mut decoder = flate2::read::ZlibDecoder::new(bytes);
    std::io::Read::read_to_end(&mut decoder, &mut out).ok()?;
    Some(out)
}

/// Calls `flate2::write::ZlibEncoder::write_all` and `finish`, whose result is named
/// `zlib_stream`. Where there is a stream, decoding it gives the bytes back.
#[verifier::external_body]
fn zlib_encode(raw: &[u8], level: u8) -> (r: Result<Vec<u8>, ZlibFault>)
    requires
        level <= 9,
    ensures
        (match r {
            Ok(v) => Ok(v@),
            Err(e) => Err(e),
        }) == zlib_stream(raw@, level),
        r matches Ok(v) ==> zlib_content(v@) == Some(raw@),
{
    let mut encoder = flate2::write::ZlibEncoder::new(
        Vec::new(),
        flate2::Compression::new(level as u32),
    );
    std::io::Write::write_all(&mut encoder, raw).map_err(|_| ZlibFault::Write)?;
    encoder.finish().map_err(|_| ZlibFault::Finish)
}

/// What a stored chunk is.
#[derive(Debug)]
pub enum Chunk {
    /// The bytes of the chunk.
    Bytes(Vec<u8>),
    /// LZ4 blocks or bytes for them: the LZ4 filter's work.
    ForLz4,
}

/// Whether a stored chunk holds plain bytes: its codec is none, or was left out for this
/// chunk, as the lowest bit of its mask says.
pub open spec fn stored_plain(source: Option<Codec>, mask: u32) -> bool {
    mask % 2 == 1 || source is None || source == Some(Codec::Uncompressed)
}

/// Decode a stored chunk to its bytes. The lowest bit of `mask` tells that the codec was
/// left out for this chunk. LZ4 is left to its filter.
pub fn decompress_chunk(source: Option<Codec>, mask: u32, filtered: &Vec<u8>) -> (r: Result<
    Chunk,
    String,
>)
    ensures
        if stored_plain(source, mask) {
            r matches Ok(Chunk::Bytes(v)) && v@ == filtered@
        } else {
            match source->0 {
                Codec::Lz4 => r matches Ok(Chunk::ForLz4),
                Codec::Zstd => match zstd_content(filtered@) {
                    Some(raw) => r matches Ok(Chunk::Bytes(v)) && v@ == raw,
                    None => r matches Err(e) && e@ == "zstd chunk decompress failed"@,
                },
                Codec::Gzip => match zlib_content(filtered@) {
                    Some(raw) => r matches Ok(Chunk::Bytes(v)) && v@ == raw,
                    None => r matches Err(e) && e@ == "zlib chunk decompress failed"@,
                },
                Codec::Uncompressed => true,
            }
        },
{
    let codec = match source {
        Some(c) => c,
        None => Codec::Uncompressed,
    };
    if mask % 2 == 1 || codec == Codec::Uncompressed {
        return Ok(Chunk::Bytes(copy_bytes(filtered)));
    }
    match codec {
        Codec::Lz4 => Ok(Chunk::ForLz4),
        Codec::Zstd => match zstd_decode(filtered.as_slice()) {
            Some(v) => Ok(Chunk::Bytes(v)),
            None => Err("zstd chunk decompress failed".to_owned()),
        },
        Codec::Gzip => match zlib_decode(filtered.as_slice()) {
            Some(v) => Ok(Chunk::Bytes(v)),
            None => Err("zlib chunk decompress failed".to_owned()),
        },
        Codec::Uncompressed => Ok(Chunk::Bytes(copy_bytes(filtered))),
    }
}

fn copy_bytes(v: &Vec<u8>) -> (r: Vec<u8>)
    ensures
        r@ == v@,
{
    let r = v.clone();
    proof {
        assert(r@ =~= v@);
    }
    r
}

/// The bytes that a codec's filter stores for a chunk, or what is said where they cannot
/// be had; `None` for LZ4, which is left to its filter.
pub open spec fn chunk_stored(target: Codec, level: u8, raw: Seq<u8>) -> Option<
    Result<Seq<u8>, Seq<char>>,
> {
    match target {
        Codec::Uncompressed => Some(Ok(raw)),
        Codec::Lz4 => None,
        Codec::Zstd => Some(
            match zstd_frame(raw, level) {
                Some(f) => Ok(f),
                None => Err("zstd chunk compress failed"@),
            },
        ),
        Codec::Gzip => Some(
            match zlib_stream(raw, level) {
                Ok(f) => Ok(f),
                Err(ZlibFault::Write) => Err("zlib chunk compress failed"@),
                Err(ZlibFault::Finish) => Err("zlib chunk finish failed"@),
            },
        ),
    }
}

/// Whether a result is what is stored for a chunk.
pub open spec fn is_stored(r: Result<Chunk, String>, stored: Option<Result<Seq<u8>, Seq<char>>>) -> bool {
    match stored {
        None => r matches Ok(Chunk::ForLz4),
        Some(Ok(f)) => r matches Ok(Chunk::Bytes(v)) && v@ == f,
        Some(Err(m)) => r matches Err(e) && e@ == m,
    }
}

/// Encode the bytes of a chunk as a codec's filter stores them. LZ4 is left to its
/// filter. What is stored reads back as the bytes.
pub fn compress_chunk(target: Codec, level: u8, raw: &Vec<u8>) -> (r: Result<Chunk, String>)
    requires
        target == Codec::Gzip ==> level <= 9,
    ensures
        is_stored(r, chunk_stored(target, level, raw@)),
        r matches Ok(Chunk::Bytes(v)) ==> chunk_content(Some(target), 0, v@) == Some(raw@),
{
    match target {
        Codec::Uncompressed => Ok(Chunk::Bytes(copy_bytes(raw))),
        Codec::Lz4 => Ok(Chunk::ForLz4),
        Codec::Zstd => match zstd_encode(raw.as_slice(), level) {
            Some(v) => Ok(Chunk::Bytes(v)),
            None => Err("zstd chunk compress failed".to_owned()),
        },
        Codec::Gzip => match zlib_encode(raw.as_slice(), level) {
            Ok(v) => Ok(Chunk::Bytes(v)),
            Err(ZlibFault::Write) => Err("zlib chunk compress failed".to_owned()),
            Err(ZlibFault::Finish) => Err("zlib chunk finish failed".to_owned()),
        },
    }
}

/// The bytes that a stored chunk holds; `None` where it is damaged or LZ4.
pub open spec fn chunk_content(source: Option<Codec>, mask: u32, stored: Seq<u8>) -> Option<Seq<u8>> {
    if stored_plain(source, mask) {
        Some(stored)
    } else {
        match source->0 {
            Codec::Zstd => zstd_content(stored),
            Codec::Gzip => zlib_content(stored),
            _ => None,
        }
    }
}

/// What is said of a stored chunk that is damaged.
pub open spec fn damage(source: Option<Codec>) -> Seq<char> {
    if source == Some(Codec::Zstd) {
        "zstd chunk decompress failed"@
    } else {
        "zlib chunk decompress failed"@
    }
}

/// What comes of decoding a stored chunk and encoding it by another codec; `None` where
/// the LZ4 filter is needed.
pub open spec fn recoded(
    source: Option<Codec>,
    mask: u32,
    filtered: Seq<u8>,
    target: Codec,
    level: u8,
) -> Option<Result<Seq<u8>, Seq<char>>> {
    if source == Some(Codec::Lz4) && !stored_plain(source, mask) {
        None
    } else {
        match chunk_content(source, mask, filtered) {
            Some(raw) => chunk_stored(target, level, raw),
            None => Some(Err(damage(source))),
        }
    }
}

/// Decode a stored chunk and encode it by another codec. What is stored then holds the
/// same bytes. Where LZ4 is involved it is left to its filter.
pub fn recode_chunk(source: Option<Codec>, mask: u32, filtered: &Vec<u8>, target: Codec, level: u8) -> (r:
    Result<Chunk, String>)
    requires
        target == Codec::Gzip ==> level <= 9,
    ensures
        is_stored(r, recoded(source, mask, filtered@, target, level)),
        r matches Ok(Chunk::Bytes(v)) ==> chunk_content(source, mask, filtered@) is Some
            && chunk_content(Some(target), 0, v@) == chunk_content(source, mask, filtered@),
{
    match decompress_chunk(source, mask, filtered) {
        Ok(Chunk::Bytes(raw)) => compress_chunk(target, level, &raw),
        Ok(Chunk::ForLz4) => Ok(Chunk::ForLz4),
        Err(e) => Err(e),
    }
}

// ---------------------------------------------------------------------------
// A repack from the command line

/// What is wrong with a repack before anything is read; `None` where it can begin.
pub open spec fn repack_refusal(
    input: Seq<char>,
    from: Option<Seq<char>>,
    to: Option<Seq<char>>,
) -> Option<Seq<char>> {
    if !is_hdf5(input) {
        Some("convert only supports HDF5 inputs (.h5/.hdf5), got: "@ + input)
    } else if from is Some && from == to {
        Some("input and output are the same file: "@ + input)
    } else {
        None
    }
}

/// Check a repack before an existing output is removed: only HDF5 files are repacked, and
/// none over itself. `from` and `to` are the absolute paths, where they are known.
pub fn check_repack(input: &str, from: &Option<String>, to: &Option<String>) -> (r: Result<
    (),
    String,
>)
    ensures
        match r {
            Ok(_) => repack_refusal(input@, optional(*from), optional(*to)) is None,
            Err(e) => repack_refusal(input@, optional(*from), optional(*to)) == Some(e@),
        },
{
    if !has_extension(input, "h5") && !has_extension(input, "hdf5") {
        return Err(
            "convert only supports HDF5 inputs (.h5/.hdf5), got: ".to_owned().concat(input),
        );
    }
    if let Some(a) = from {
        if let Some(b) = to {
            if same(a.as_str(), b.as_str()) {
                return Err("input and output are the same file: ".to_owned().concat(input));
            }
        }
    }
    Ok(())
}

/// The level that a repack uses.
pub open spec fn level_used(codec: Codec, level: Option<u8>) -> int {
    let asked = match level {
        Some(l) => l as int,
        None => match codec {
            Codec::Gzip => 6,
            Codec::Zstd => 3,
            _ => 0,
        },
    };
    let (low, high) = codec.level_range();
    if asked < low {
        low
    } else if asked > high {
        high
    } else {
        asked
    }
}

/// How to repack: the level given, or the codec's own, brought into its range.
pub fn repack_options(codec: Codec, level: Option<u8>, buffer_bytes: usize) -> (r: Options)
    ensures
        r.codec == codec,
        r.level == level_used(codec, level),
        r.buffer_bytes == buffer_bytes,
{
    let asked: u8 = match level {
        Some(l) => l,
        None => codec.default_level(),
    };
    Options { codec, level: codec.clamp_level(asked), buffer_bytes }
}

/// The line that announces a repack.
pub open spec fn repack_line(input: Seq<char>, output: Seq<char>, opts: Options) -> Seq<char> {
    "Repacking "@ + input + " → "@ + output + " ("@ + opts.codec.spec_label() + (if opts.codec
        == Codec::Gzip || opts.codec == Codec::Zstd {
        " level "@ + decimal(opts.level as nat)
    } else {
        ""@
    }) + ", "@ + size_text(opts.buffer_bytes as nat) + " buffer)"@
}

/// Announce a repack.
pub fn announce_repack(input: &str, output: &str, opts: &Options) -> (r: String)
    ensures
        r@ == repack_line(input@, output@, *opts),
{
    let mut s = "Repacking ".to_owned();
    s.append(input);
    s.append(" → ");
    s.append(output);
    s.append(" (");
    s.append(opts.codec.label());
    if opts.codec.uses_level() {
        let level = decimal_string(opts.level as u128);
        s.append(" level ");
        s.append(level.as_str());
    }
    let size = format_size(opts.buffer_bytes as u64);
    s.append(", ");
    s.append(size.as_str());
    s.append(" buffer)");
    proof {
        reveal_strlit("");
        assert(s@ =~= repack_line(input@, output@, *opts));
    }
    s
}

/// The warning that the source already has the codec asked for; `None` where it has not.
pub fn same_codec_warning(source: Option<Codec>, codec: Codec) -> (r: Option<String>)
    ensures
        match r {
            Some(s) => source == Some(codec) && s@ == "warning: source is already "@
                + codec.spec_label()
                + "; repacking just re-encodes it — a plain copy would be equivalent"@,
            None => source != Some(codec),
        },
{
    if source != Some(codec) {
        return None;
    }
    let mut s = "warning: source is already ".to_owned();
    s.append(codec.label());
    s.append("; repacking just re-encodes it — a plain copy would be equivalent");
    Some(s)
}

// ---------------------------------------------------------------------------
// What a repack does

/// Deflate is gzip, filter 32004 is LZ4 and filter 32015 is Zstandard; the first filter of a
/// dataset that is a codec is its codec, and a dataset without one has none.
pub proof fn law_first_codec_counts(fs: Seq<Filter>, i: int)
    requires
        0 <= i < fs.len(),
        forall|j: int| 0 <= j < i ==> filter_codec(#[trigger] fs[j]) is None,
    ensures
        fs[i] == Filter::Deflate ==> codec_from(fs, 0) == Some(Codec::Gzip),
        fs[i] == Filter::User(32004) ==> codec_from(fs, 0) == Some(Codec::Lz4),
        fs[i] == Filter::User(32015) ==> codec_from(fs, 0) == Some(Codec::Zstd),
        filter_codec(fs[i]) is Some ==> fs[i] == Filter::Deflate || fs[i] == Filter::User(32004)
            || fs[i] == Filter::User(32015),
        filter_codec(fs[i]) is None && i == fs.len() - 1 ==> codec_from(fs, 0) is None,
{
    lemma_codec_from(fs, 0, i);
    reveal_with_fuel(codec_from, 2);
}

proof fn lemma_codec_from(fs: Seq<Filter>, from: int, i: int)
    requires
        0 <= from <= i < fs.len(),
        forall|j: int| from <= j < i ==> filter_codec(#[trigger] fs[j]) is None,
    ensures
        codec_from(fs, from) == codec_from(fs, i),
    decreases i - from,
{
    if from < i {
        lemma_codec_from(fs, from + 1, i);
    }
}

/// A file has a codec where one of its datasets has it and none has another.
pub proof fn law_shared_codec_is_of_all(codecs: Seq<Option<Codec>>, c: Codec)
    ensures
        shared_codec(codecs) == Some(c) <==> (exists|i: int|
            0 <= i < codecs.len() && #[trigger] codecs[i] == Some(c)) && forall|i: int|
            0 <= i < codecs.len() && (#[trigger] codecs[i]) is Some ==> codecs[i] == Some(c),
{
    broadcast use vstd::seq_lib::group_filter_ensures;

    let keep = |c: Option<Codec>| c is Some;
    let used = codecs.filter(keep);
    if shared_codec(codecs) == Some(c) {
        assert(used.contains(used[0]));
        codecs.lemma_filter_contains_rev(keep, used[0]);
        let i = codecs.index_of(used[0]);
        assert(codecs[i] == Some(c));
        assert forall|i: int| 0 <= i < codecs.len() && (#[trigger] codecs[i]) is Some implies codecs[i]
            == Some(c) by {
            assert(keep(codecs[i]));
            codecs.lemma_filter_contains(keep, i);
            let k = used.index_of(codecs[i]);
            assert(used[k] == used[0]);
        }
    }
    if (exists|i: int| 0 <= i < codecs.len() && #[trigger] codecs[i] == Some(c)) && forall|i: int|
        0 <= i < codecs.len() && (#[trigger] codecs[i]) is Some ==> codecs[i] == Some(c) {
        let i = choose|i: int| 0 <= i < codecs.len() && #[trigger] codecs[i] == Some(c);
        assert(keep(codecs[i]));
        codecs.lemma_filter_contains(keep, i);
        assert(used.len() > 0);
        assert forall|k: int| 0 <= k < used.len() implies #[trigger] used[k] == Some(c) by {
            assert(keep(used[k]));
            assert(used.contains(used[k]));
            codecs.lemma_filter_contains_rev(keep, used[k]);
            let j = codecs.index_of(used[k]);
            assert(codecs[j] is Some);
        }
    }
}

/// A block is made of whole chunks, at least one; it fits in the buffer where it is more than
/// one chunk, and one chunk more would not fit.
pub proof fn law_blocks_fill_the_buffer(buffer: int, item: int, inner: int, chunk: int)
    requires
        buffer >= 0,
        item > 0,
        inner > 0,
        chunk > 0,
    ensures
        ({
            let rows = rows_in_block(buffer, item, inner, chunk);
            &&& rows >= chunk
            &&& rows % chunk == 0
            &&& rows > chunk ==> rows * inner * item <= buffer
            &&& buffer < (rows + chunk) * inner * item
        }),
{
    let a = buffer / item;
    let b = one_or(a) / inner;
    let c = one_or(b) / chunk;
    let n = one_or(c);
    let rows = rows_in_block(buffer, item, inner, chunk);
    assert(rows == n * chunk);
    vstd::arithmetic::div_mod::lemma_fundamental_div_mod(buffer, item);
    vstd::arithmetic::div_mod::lemma_fundamental_div_mod(one_or(a), inner);
    vstd::arithmetic::div_mod::lemma_fundamental_div_mod(one_or(b), chunk);
    vstd::arithmetic::div_mod::lemma_mod_multiples_basic(n, chunk);
    assert(n * chunk >= chunk) by (nonlinear_arith)
        requires
            n >= 1,
            chunk > 0,
    ;
    let (x, y, z) = (one_or(a), one_or(b), n);
    assert(buffer < (a + 1) * item) by (nonlinear_arith)
        requires
            buffer == item * a + buffer % item,
            buffer % item < item,
    ;
    assert(x < (b + 1) * inner) by (nonlinear_arith)
        requires
            x == inner * b + x % inner,
            x % inner < inner,
    ;
    assert(y < (c + 1) * chunk) by (nonlinear_arith)
        requires
            y == chunk * c + y % chunk,
            y % chunk < chunk,
    ;
    assert(a + 1 <= (b + 1) * inner) by (nonlinear_arith)
        requires
            a <= x < (b + 1) * inner,
    ;
    assert(b + 1 <= (c + 1) * chunk) by (nonlinear_arith)
        requires
            b <= y < (c + 1) * chunk,
    ;
    assert((c + 1) * chunk <= rows + chunk) by (nonlinear_arith)
        requires
            c <= n,
            rows == n * chunk,
            chunk > 0,
    ;
    assert((b + 1) * inner <= (rows + chunk) * inner) by (nonlinear_arith)
        requires
            b + 1 <= rows + chunk,
            inner > 0,
    ;
    assert(buffer < (rows + chunk) * inner * item) by (nonlinear_arith)
        requires
            buffer < (a + 1) * item,
            a + 1 <= (rows + chunk) * inner,
            item > 0,
    ;
    if rows > chunk {
        assert(n > 1) by (nonlinear_arith)
            requires
                n * chunk > chunk,
                chunk > 0,
        ;
        assert(n == c);
        assert(rows <= y) by (nonlinear_arith)
            requires
                rows == c * chunk,
                y == chunk * c + y % chunk,
                y % chunk >= 0,
        ;
        assert(y == b);
        assert(b * inner <= x) by (nonlinear_arith)
            requires
                x == inner * b + x % inner,
                x % inner >= 0,
        ;
        assert(b * inner >= 2) by (nonlinear_arith)
            requires
                b >= 2,
                inner >= 1,
        ;
        assert(x == a);
        assert(a * item <= buffer) by (nonlinear_arith)
            requires
                buffer == item * a + buffer % item,
                buffer % item >= 0,
        ;
        assert(rows * inner <= b * inner) by (nonlinear_arith)
            requires
                rows <= b,
                inner > 0,
        ;
        assert(rows * inner * item <= a * item) by (nonlinear_arith)
            requires
                rows * inner <= a,
                item > 0,
        ;
    }
}

/// A dataset whose numbers cannot be copied is left out; one without chunks is copied all at
/// once; one whose chunks have no filter, or one codec for their only filter, is copied chunk
/// by chunk, decoded from that codec; any other in blocks of rows.
pub proof fn law_plans_follow_the_filters(d: Dataset, buffer: usize)
    ensures
        ({
            let known = match d.element {
                Some(ElementType::Integer(_)) => true,
                Some(ElementType::Unsigned(_)) => true,
                Some(ElementType::Float(w)) => w == Width::Two || w == Width::Four || w == Width::Eight,
                _ => false,
            };
            let plan = plan_for(d, buffer);
            &&& plan == CopyPlan::Skip <==> !known
            &&& known && d.chunk is None ==> plan == CopyPlan::Verbatim
            &&& known && d.chunk is Some && d.filters.len() == 0 ==> plan is Transcode
                && plan->from is None
            &&& known && d.chunk is Some && d.filters@ == seq![Filter::Deflate] ==> plan is Transcode
                && plan->from == Some(Codec::Gzip)
            &&& known && d.chunk is Some && d.filters@ == seq![Filter::User(32004)] ==> plan
                is Transcode && plan->from == Some(Codec::Lz4)
            &&& known && d.chunk is Some && d.filters@ == seq![Filter::User(32015)] ==> plan
                is Transcode && plan->from == Some(Codec::Zstd)
            &&& known && d.chunk is Some && d.filters.len() > 1 ==> plan is Blocks
        }),
{
    reveal_with_fuel(codec_from, 2);
}

/// As many chunks are read at a time as fit in the buffer, and at least one.
pub proof fn law_batches_fill_the_buffer(d: Dataset, buffer: usize)
    requires
        d.chunk is Some,
        element_count(d.chunk->0@).wrapping_mul(d.item_size) > 0,
    ensures
        ({
            let raw = element_count(d.chunk->0@).wrapping_mul(d.item_size) as int;
            let n = batch_size(d, buffer);
            &&& n >= 1
            &&& n > 1 ==> n * raw <= buffer
            &&& buffer < (n + 1) * raw
        }),
{
    let raw = element_count(d.chunk->0@).wrapping_mul(d.item_size) as int;
    let b = buffer as int;
    let q = b / raw;
    vstd::arithmetic::div_mod::lemma_fundamental_div_mod(b, raw);
    assert(q * raw <= b < (q + 1) * raw) by (nonlinear_arith)
        requires
            b == raw * q + b % raw,
            0 <= b % raw < raw,
    ;
    let n = batch_size(d, buffer);
    assert((q + 1) * raw <= (n + 1) * raw) by (nonlinear_arith)
        requires
            q <= n,
            raw > 0,
    ;
}

/// What a chunk is recoded to holds what it held, for every codec that is not left to its
/// filter; a chunk marked as left plain is taken as it stands.
pub proof fn law_recoding_keeps_the_content(
    source: Option<Codec>,
    mask: u32,
    stored: Seq<u8>,
    target: Codec,
    level: u8,
)
    ensures
        mask % 2 == 1 ==> chunk_content(source, mask, stored) == Some(stored),
        chunk_content(None, mask, stored) == Some(stored),
        mask % 2 == 1 ==> recoded(source, mask, stored, Codec::Uncompressed, level) == Some(
            Ok::<Seq<u8>, Seq<char>>(stored),
        ),
        recoded(source, mask, stored, Codec::Uncompressed, level) matches Some(Ok(raw))
            ==> chunk_content(source, mask, stored) == Some(raw),
        mask % 2 == 0 && source == Some(Codec::Zstd) ==> chunk_content(source, mask, stored)
            == zstd_content(stored),
        mask % 2 == 0 && source == Some(Codec::Gzip) ==> chunk_content(source, mask, stored)
            == zlib_content(stored),
        chunk_content(source, mask, stored) is Some ==> recoded(source, mask, stored, target, level)
            == recoded(None, 0, chunk_content(source, mask, stored)->0, target, level),
        chunk_content(source, mask, stored) is None && source != Some(Codec::Lz4) ==> recoded(
            source,
            mask,
            stored,
            target,
            level,
        ) is Some && recoded(source, mask, stored, target, level)->0 is Err,
{
}

/// A level within the codec's range is used as it is; one outside it is brought to its nearer
/// end; without one, gzip takes 6 and Zstandard 3.
pub proof fn law_levels_are_brought_into_range(level: u8)
    ensures
        level_used(Codec::Gzip, None) == 6,
        level_used(Codec::Zstd, None) == 3,
        level <= 9 ==> level_used(Codec::Gzip, Some(level)) == level,
        level > 9 ==> level_used(Codec::Gzip, Some(level)) == 9,
        1 <= level <= 22 ==> level_used(Codec::Zstd, Some(level)) == level,
        level > 22 ==> level_used(Codec::Zstd, Some(level)) == 22,
        level == 0 ==> level_used(Codec::Zstd, Some(level)) == 1,
        level_used(Codec::Lz4, Some(level)) == 0,
        level_used(Codec::Uncompressed, Some(level)) == 0,
{
}

/// A file is refused as its own output, and an output that is there already; nothing else.
pub proof fn law_nothing_is_written_over(
    input: Seq<char>,
    output: Seq<char>,
    from: Seq<char>,
    to: Seq<char>,
    there: bool,
)
    ensures
        refusal(input, output, Some(from), Some(to), there) is None <==> from != to && !there,
        refusal(input, output, None, None, there) is None <==> !there,
        from == to ==> refusal(input, output, Some(from), Some(to), there)
            == Some("input and output are the same file: "@ + input),
        from != to && there ==> refusal(input, output, Some(from), Some(to), there)
            == Some("output already exists: "@ + output),
        is_hdf5(input) && from == to ==> repack_refusal(input, Some(from), Some(to)) is Some,
        is_hdf5(input) && from != to ==> repack_refusal(input, Some(from), Some(to)) is None,
        !is_hdf5(input) ==> repack_refusal(input, Some(from), Some(to)) is Some,
{
}

proof fn lemma_occurs(a: Seq<char>, b: Seq<char>, c: Seq<char>)
    ensures
        occurs(a + b + c, b),
{
    let s = a + b + c;
    let n = a.len() as int;
    assert(s.subrange(n, n + b.len()) =~= b);
    assert(crate::text::occurs_at(s, b, n));
}

/// The summary of a repack gives the size of the source with its codec before that of the
/// result with the new one; it tells a smaller result from a larger; and it compares the
/// result with the size without compression.
pub proof fn law_summaries_compare_the_sizes(r: Report, new: Codec, percent: Seq<char>)
    ensures
        occurs(
            r.summary_of(new, percent),
            " · on disk "@ + size_text(r.in_bytes as nat) + " ("@ + (match r.source_codec {
                Some(c) => c.spec_label(),
                None => "uncompressed/mixed"@,
            }) + ") → "@ + size_text(r.out_bytes as nat) + " ("@ + new.spec_label() + "): "@,
        ),
        r.out_bytes < r.in_bytes ==> r.change_of(percent) == percent + "% smaller ("@ + ratio(
            r.in_bytes as nat,
            if r.out_bytes > 0 {
                r.out_bytes as nat
            } else {
                1
            },
        ) + "×)"@,
        r.out_bytes > r.in_bytes ==> r.change_of(percent) == percent
            + "% LARGER — the source compressed better"@,
        r.out_bytes == r.in_bytes ==> r.change_of(percent) == "same size"@,
        r.out_bytes > 0 ==> occurs(
            r.summary_of(new, percent),
            " · "@ + ratio(r.logical_bytes as nat, r.out_bytes as nat) + "× vs uncompressed"@,
        ),
{
    let s = r.summary_of(new, percent);
    let lead = decimal(r.tensors as nat) + " datasets"@ + (if r.skipped > 0 {
        ", "@ + decimal(r.skipped as nat) + " skipped"@
    } else {
        ""@
    });
    let codec = match r.source_codec {
        Some(c) => c.spec_label(),
        None => "uncompressed/mixed"@,
    };
    let sizes = " · on disk "@ + size_text(r.in_bytes as nat) + " ("@ + codec + ") → "@ + size_text(
        r.out_bytes as nat,
    ) + " ("@ + new.spec_label() + "): "@;
    let last = " · "@ + ratio(r.logical_bytes as nat, at_least_one(r.out_bytes))
        + "× vs uncompressed"@;
    let change = r.change_of(percent);
    assert(s =~= lead + sizes + (change + last));
    lemma_occurs(lead, sizes, change + last);
    assert(s =~= (lead + sizes + change) + last + Seq::empty());
    lemma_occurs(lead + sizes + change, last, Seq::empty());
}

/// A repack is announced with its input before its output, its codec, the level where the
/// codec has one, and the buffer.
pub proof fn law_repacks_are_announced(input: Seq<char>, output: Seq<char>, opts: Options)
    ensures
        opts.codec == Codec::Gzip ==> repack_line(input, output, opts) == "Repacking "@ + input
            + " → "@ + output + " ("@ + "gzip"@ + (" level "@ + decimal(opts.level as nat)) + ", "@
            + size_text(opts.buffer_bytes as nat) + " buffer)"@,
        opts.codec == Codec::Zstd ==> repack_line(input, output, opts) == "Repacking "@ + input
            + " → "@ + output + " ("@ + "zstd"@ + (" level "@ + decimal(opts.level as nat)) + ", "@
            + size_text(opts.buffer_bytes as nat) + " buffer)"@,
        opts.codec == Codec::Lz4 ==> repack_line(input, output, opts) == "Repacking "@ + input
            + " → "@ + output + " ("@ + "lz4"@ + ""@ + ", "@ + size_text(opts.buffer_bytes as nat)
            + " buffer)"@,
        opts.codec == Codec::Uncompressed ==> repack_line(input, output, opts) == "Repacking "@
            + input + " → "@ + output + " ("@ + "none"@ + ""@ + ", "@ + size_text(
            opts.buffer_bytes as nat,
        ) + " buffer)"@,
{
}

} // verus!

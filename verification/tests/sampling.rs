//! Sampling the values of a tensor.
use checkpoint_explorer::convert::{
    compress_chunk, decompress_chunk, plan_copy, recode_chunk, repack_options, runs, check_repack,
    announce_repack, same_codec_warning, source_codec, Chunk, CopyPlan, Report,
};
use checkpoint_explorer::codec::Codec;
use checkpoint_explorer::hdf5::{Dataset, ElementType, Filter, Width};
use checkpoint_explorer::sample::{
    block_regions, data_range, decode, decode_view, edge_indices, edge_total, gather_region,
    open_reader, region_for_span, sample_indices, sample_tensor, unravel, view_options,
    window_indices, Number, Reader, SampleMode, Span, ViewDtype,
};
use checkpoint_explorer::scan::{finite, place, reduce_view_bytes, tensor_stats, Stats};
use checkpoint_explorer::tree::{Layout, Storage, TensorInfo};

/// The number that a decoded value stands for.
fn value(n: Number) -> f64 {
    match n {
        Number::Int(i) => i as f64,
        Number::F64(b) => f64::from_bits(b),
        Number::F32(b) => f32::from_bits(b) as f64,
        Number::F16(b) => half::f16::from_bits(b).to_f64(),
        Number::BF16(b) => half::bf16::from_bits(b).to_f64(),
        Number::Unknown => f64::NAN,
    }
}

fn values(row: &[Number]) -> Vec<f64> {
    row.iter().map(|n| value(*n)).collect()
}

/// The number of the last indices that make up a share of an edge view.
fn tail(max: usize, share: f64) -> usize {
    (edge_total(max) as f64 * share).round() as usize
}

#[test]
fn sample_indices_includes_edges_and_is_bounded() {
    assert_eq!(sample_indices(3, 10), vec![0, 1, 2]); // n <= k: all
    let idx = sample_indices(100, 5);
    assert_eq!(idx.first(), Some(&0));
    assert_eq!(idx.last(), Some(&99));
    assert!(idx.len() <= 5);
    assert!(idx.windows(2).all(|w| w[0] < w[1])); // strictly increasing
}

#[test]
fn edge_indices_takes_first_and_last() {
    // Small enough to show whole (n <= total): no gap.
    assert_eq!(edge_indices(5, 100, tail(100, 0.5)), vec![0, 1, 2, 3, 4]);
    // Balanced (half of them at the end) fills the screen: total = 2*((max-1)/2),
    // split evenly. With max = 100 that's 49 first and 49 last of 1000.
    let e = edge_indices(1000, 100, tail(100, 0.5));
    assert_eq!(e.len(), 2 * 49);
    assert_eq!(&e[..3], &[0, 1, 2]);
    assert_eq!(e[48], 48);
    assert_eq!(e[49], 951);
    assert_eq!(e.last(), Some(&999));
    // Tight budget: total = 2*((8-1)/2) = 6, balanced = 3 + 3.
    assert_eq!(
        edge_indices(100, 8, tail(8, 0.5)),
        vec![0, 1, 2, 97, 98, 99]
    );
    // All-tail: only the last `total` indices, contiguous.
    assert_eq!(
        edge_indices(100, 8, tail(8, 1.0)),
        vec![94, 95, 96, 97, 98, 99]
    );
    // All-head: only the first `total`, contiguous.
    assert_eq!(edge_indices(100, 8, tail(8, 0.0)), vec![0, 1, 2, 3, 4, 5]);
    // Biased toward the tail: fewer first, more last (still a gap).
    let b = edge_indices(100, 14, tail(14, 0.75)); // total = 12 -> 3 first, 9 last
    assert_eq!(&b[..3], &[0, 1, 2]);
    assert_eq!(b.len(), 12);
    assert_eq!(&b[3..], &[91, 92, 93, 94, 95, 96, 97, 98, 99]);
}

#[test]
fn edges_never_exceed_what_is_asked_for() {
    for max in 1..12 {
        assert_eq!(edge_total(max), 2 * ((max - 1) / 2));
        for n in 1..20 {
            for tail in 0..12 {
                assert!(edge_indices(n, max, tail).len() <= max);
            }
        }
    }
    let t = fixture_dtype("/tmp/w.safetensors", "w", "U8", &[4, 5], (0, 20));
    let blob: Vec<u8> = (0..20).collect();
    let mode = SampleMode::Edges {
        row_tail: 0,
        col_tail: 1,
    };
    let s = sample_tensor(&t, &blob, 1, 3, 0, ViewDtype::Stored, mode).unwrap();
    assert!(s.plan.rows.len() <= 1);
    assert_eq!(s.plan.cols, vec![0, 4]);
    let s = sample_tensor(&t, &blob, 3, 1, 0, ViewDtype::Stored, mode).unwrap();
    assert_eq!(s.plan.rows, vec![0, 1]);
    assert!(s.values.iter().all(|r| r.is_empty()));
}

#[test]
fn tensors_that_cannot_be_sampled_are_refused() {
    let grid = |t: &TensorInfo, blob: &[u8], view: ViewDtype| {
        sample_tensor(t, blob, 4, 4, 0, view, SampleMode::Grid).unwrap_err()
    };
    let t = fixture_dtype("/tmp/w.safetensors", "w", "F32", &[2, 2], (0, 16));
    assert_eq!(
        grid(&t, &[0; 15], ViewDtype::Stored),
        "tensor data range is out of bounds"
    );
    assert_eq!(
        grid(&t, &[0; 16], ViewDtype::As("F16")),
        "F32 cannot be read in this view"
    );
    assert_eq!(
        tensor_stats(&t, &[0; 16], ViewDtype::As("F16")).unwrap_err(),
        "F32 cannot be read in this view"
    );
    let huge = fixture_dtype("/tmp/w.safetensors", "w", "F32", &[usize::MAX, 2], (0, 16));
    assert_eq!(
        grid(&huge, &[0; 16], ViewDtype::Stored),
        "the tensor is too large"
    );
    let wide = fixture_dtype("/tmp/w.safetensors", "w", "U8", &[usize::MAX], (0, 16));
    assert_eq!(
        grid(&wide, &[0; 16], ViewDtype::U4Packed),
        "the tensor is too large"
    );
}

#[test]
fn only_the_shown_cells_are_needed() {
    // Rows 0 and 1 of a tensor whose bytes end after the second row.
    let t = fixture_dtype("/tmp/w.safetensors", "w", "U8", &[4, 3], (0, 6));
    let blob = [1, 2, 3, 4, 5, 6];
    let first = SampleMode::Edges {
        row_tail: 0,
        col_tail: 1,
    };
    let s = sample_tensor(&t, &blob, 3, 3, 0, ViewDtype::Stored, first).unwrap();
    assert_eq!((s.plan.rows, s.plan.cols), (vec![0, 1], vec![0, 2]));
    assert_eq!(values(&s.values[0]), vec![1.0, 3.0]);
    assert_eq!(values(&s.values[1]), vec![4.0, 6.0]);
    assert!(sample_tensor(&t, &blob[..5], 3, 3, 0, ViewDtype::Stored, first).is_err());
    assert!(sample_tensor(&t, &blob, 4, 3, 0, ViewDtype::Stored, SampleMode::Grid).is_err());
    // How many elements there are beyond the shown ones does not matter.
    let n = usize::MAX / 2;
    for shape in [vec![n, 3], vec![n, n, 3], vec![2, 1 << 40, 1 << 40]] {
        let t = fixture_dtype("/tmp/w.safetensors", "w", "U8", &shape, (0, 6));
        let corner = SampleMode::Window { row: 0, col: 0 };
        let s = sample_tensor(&t, &blob, 1, 3, 0, ViewDtype::Stored, corner).unwrap();
        assert_eq!(values(&s.values[0]), vec![1.0, 2.0, 3.0]);
    }
}

#[test]
fn hdf5_has_no_bf16() {
    let mut t = fixture_dtype("/tmp/d.h5", "w", "BF16", &[1, 2], (0, 4));
    t.layout = Layout::Untracked;
    assert_eq!(open_reader(&t).unwrap(), Reader::Hdf5 { item: 2 });
    for view in [ViewDtype::Stored, ViewDtype::As("U16")] {
        assert_eq!(
            sample_tensor(&t, &[0; 4], 4, 4, 0, view, SampleMode::Grid).unwrap_err(),
            "unsupported dtype: BF16"
        );
        assert_eq!(
            tensor_stats(&t, &[0; 4], view).unwrap_err(),
            "unsupported dtype: BF16"
        );
    }
    // A dataset without a block to read has nothing that could fail.
    t.shape = vec![0, 2];
    assert_eq!(tensor_stats(&t, &[], ViewDtype::Stored).unwrap().count, 0);
    let mut t = fixture_dtype("/tmp/d.safetensors", "w", "BF16", &[1, 2], (0, 4));
    t.layout = Layout::ByteRange { start: 0, end: 4 };
    assert!(sample_tensor(&t, &[0; 4], 4, 4, 0, ViewDtype::Stored, SampleMode::Grid).is_ok());
}

#[test]
fn windows_stay_within_the_tensor() {
    assert_eq!(window_indices(10, 4, 3), vec![3, 4, 5, 6]);
    assert_eq!(window_indices(10, 4, 8), vec![6, 7, 8, 9]);
    assert_eq!(window_indices(2, 4, 0), vec![0, 1]);
}

#[test]
fn decodes_float_dtypes() {
    assert_eq!(value(decode("F32", &1.5f32.to_le_bytes())), 1.5);
    assert_eq!(value(decode("F64", &(-2.25f64).to_le_bytes())), -2.25);
    // bf16 of 1.0 is 0x3F80; f16 of 1.0 is 0x3C00.
    assert_eq!(value(decode("BF16", &0x3F80u16.to_le_bytes())), 1.0);
    assert_eq!(value(decode("F16", &0x3C00u16.to_le_bytes())), 1.0);
    assert_eq!(value(decode("I16", &(-5i16).to_le_bytes())), -5.0);
}

fn fixture_dtype(
    path: &str,
    name: &str,
    dtype: &str,
    shape: &[usize],
    offsets: (u64, u64),
) -> TensorInfo {
    TensorInfo {
        name: name.to_string(),
        dtype: dtype.to_string(),
        shape: shape.to_vec(),
        size_bytes: (offsets.1 - offsets.0) as usize,
        num_elements: shape.iter().product(),
        storage: Storage::Unknown,
        source_path: path.to_string(),
        layout: Layout::ByteRange {
            start: offsets.0,
            end: offsets.1,
        },
    }
}

fn floats(n: u32) -> Vec<u8> {
    (0..n).flat_map(|i| (i as f32).to_le_bytes()).collect()
}

#[test]
fn samples_a_safetensors_tensor_by_value() {
    // 4x5 f32, value[r][c] = r*5 + c
    let header = br#"{"w":{"dtype":"F32","shape":[4,5],"data_offsets":[0,80]}}"#;
    let mut file = (header.len() as u64).to_le_bytes().to_vec();
    file.extend(header);
    file.extend(floats(20));

    let t = fixture_dtype("/tmp/w.safetensors", "w", "F32", &[4, 5], (0, 80));
    assert_eq!(
        open_reader(&t).unwrap(),
        Reader::Safetensors {
            start: 0,
            end: 80,
            item: 4
        }
    );
    let (from, to) = data_range(header.len() as u64, 0, 80, file.len()).unwrap();
    let s = sample_tensor(
        &t,
        &file[from..to],
        10,
        10,
        0,
        ViewDtype::Stored,
        SampleMode::Grid,
    )
    .unwrap();
    assert_eq!((s.plan.total_rows, s.plan.total_cols), (4, 5));
    assert_eq!((s.plan.slices, s.plan.slice), (1, 0));
    assert!(s.plan.overridable && s.plan.view == ViewDtype::Stored);
    let all: Vec<f64> = s.values.iter().flat_map(|r| values(r)).collect();
    assert_eq!(all.iter().copied().fold(f64::INFINITY, f64::min), 0.0);
    assert_eq!(all.iter().copied().fold(f64::NEG_INFINITY, f64::max), 19.0);
    for (i, &r) in s.plan.rows.iter().enumerate() {
        for (j, &c) in s.plan.cols.iter().enumerate() {
            assert_eq!(value(s.values[i][j]), (r * 5 + c) as f64);
        }
    }
    assert!(data_range(header.len() as u64, 0, 81, file.len()).is_err());
}

#[test]
fn samples_a_3d_safetensors_slice() {
    // [2, 3, 4] f32, value[s][r][c] = s*12 + r*4 + c
    let t = fixture_dtype("/tmp/w.safetensors", "w", "F32", &[2, 3, 4], (0, 96));
    let blob = floats(24);
    // Slice 1 is the matrix [[12..16],[16..20],[20..24]].
    let s = sample_tensor(&t, &blob, 10, 10, 1, ViewDtype::Stored, SampleMode::Grid).unwrap();
    assert_eq!((s.plan.total_rows, s.plan.total_cols), (3, 4));
    assert_eq!((s.plan.slices, s.plan.slice), (2, 1));
    for (i, &r) in s.plan.rows.iter().enumerate() {
        for (j, &c) in s.plan.cols.iter().enumerate() {
            assert_eq!(value(s.values[i][j]), (12 + r * 4 + c) as f64);
        }
    }
    // An out-of-range slice clamps to the last one.
    assert_eq!(
        sample_tensor(&t, &blob, 10, 10, 99, ViewDtype::Stored, SampleMode::Grid)
            .unwrap()
            .plan
            .slice,
        1
    );
}

#[test]
fn reinterprets_packed_4bit_views() {
    // Shape [2] of F16 (2-byte containers): u16 values 0x1234 and 0x00AB.
    let mut blob = 0x1234u16.to_le_bytes().to_vec();
    blob.extend(0x00ABu16.to_le_bytes());
    let t = fixture_dtype("/tmp/w.safetensors", "w", "F16", &[2], (0, 4));
    let sample =
        |view: ViewDtype| sample_tensor(&t, &blob, 10, 10, 0, view, SampleMode::Grid).unwrap();

    // Low nibble of each container -> [0x4, 0xB]. Shape unchanged.
    let s = sample(ViewDtype::U4Lo);
    assert_eq!(s.plan.total_cols, 2);
    assert_eq!(values(&s.values[0]), vec![4.0, 11.0]);

    // High nibble (bits 12-15) of each container -> 0x1234->0x1, 0x00AB->0x0.
    let s = sample(ViewDtype::U4Hi);
    assert_eq!(s.plan.total_cols, 2);
    assert_eq!(values(&s.values[0]), vec![1.0, 0.0]);

    // Packed: four nibbles per 16-bit container, last dim ×4 -> 8 values.
    // 0x1234 -> [4,3,2,1]; 0x00AB -> [11,10,0,0].
    let s = sample(ViewDtype::U4Packed);
    assert_eq!(s.plan.total_cols, 8);
    assert_eq!(
        values(&s.values[0]),
        vec![4.0, 3.0, 2.0, 1.0, 11.0, 10.0, 0.0, 0.0]
    );

    // Signed packed: nibbles >= 8 are negative (0xB->-5, 0xA->-6).
    let s = sample(ViewDtype::I4Packed);
    assert_eq!(
        values(&s.values[0]),
        vec![4.0, 3.0, 2.0, 1.0, -5.0, -6.0, 0.0, 0.0]
    );
}

#[test]
fn dtypes_without_a_size_are_refused() {
    let t = fixture_dtype("/tmp/w.safetensors", "w", "Q4_K", &[2], (0, 4));
    assert!(open_reader(&t).is_err());
    assert!(sample_tensor(&t, &[], 10, 10, 0, ViewDtype::Stored, SampleMode::Grid).is_err());
    assert!(!view_options("F16").is_empty());
    assert_eq!(
        decode_view(ViewDtype::As("U8"), "I8", &[255], 0),
        Number::Int(255)
    );
}

#[test]
fn regions_are_gathered_from_larger_ones() {
    let span = |start: usize, end: usize| Span { start, end };
    assert_eq!(unravel(7, &vec![2, 5]), vec![1, 2]);
    assert_eq!(
        region_for_span(&vec![2, 5], 6, 8),
        vec![span(1, 2), span(1, 4)]
    );
    let src: Vec<u8> = (0..10).collect();
    assert_eq!(
        gather_region(
            &src,
            &vec![span(0, 2), span(0, 5)],
            &vec![span(1, 2), span(1, 4)],
            1
        ),
        vec![6, 7, 8]
    );
    assert_eq!(block_regions(&vec![3, 4]).len(), 1);
    // A row that fills a block is scanned alone.
    let blocks = block_regions(&vec![5, 16_777_216]);
    assert_eq!(blocks.len(), 5);
    assert_eq!(blocks[4][0], span(4, 5));
}

fn dataset(filters: Vec<Filter>, chunk: Option<Vec<usize>>) -> Dataset {
    Dataset {
        key: "w".to_string(),
        shape: vec![64, 64],
        element: Some(ElementType::Float(Width::Four)),
        item_size: 4,
        filters,
        storage_size: 1000,
        num_chunks: chunk.as_ref().map(|_| 16),
        chunk,
    }
}

#[test]
fn chunks_are_recoded_without_loss() {
    let raw: Vec<u8> = (0..4096u32).map(|i| (i % 17) as u8).collect();
    for codec in [Codec::Gzip, Codec::Zstd] {
        let Ok(Chunk::Bytes(stored)) = compress_chunk(codec, 3, &raw) else {
            panic!("{codec:?} compresses");
        };
        assert!(stored.len() < raw.len());
        let Ok(Chunk::Bytes(back)) = decompress_chunk(Some(codec), 0, &stored) else {
            panic!("{codec:?} decompresses");
        };
        assert_eq!(back, raw);
        // A chunk whose filter was left out is stored as it is.
        let Ok(Chunk::Bytes(plain)) = decompress_chunk(Some(codec), 1, &raw) else {
            panic!("plain bytes");
        };
        assert_eq!(plain, raw);
        let Ok(Chunk::Bytes(other)) = recode_chunk(Some(codec), 0, &stored, Codec::Zstd, 5) else {
            panic!("{codec:?} recodes");
        };
        let Ok(Chunk::Bytes(again)) = decompress_chunk(Some(Codec::Zstd), 0, &other) else {
            panic!("recoded chunk reads");
        };
        assert_eq!(again, raw);
        // Damaged chunks are refused.
        assert!(decompress_chunk(Some(codec), 0, &vec![1, 2, 3]).is_err());
    }
    assert!(matches!(
        compress_chunk(Codec::Lz4, 0, &raw),
        Ok(Chunk::ForLz4)
    ));
    // The level is handed on, and what is said of damage is the decoder's.
    let noisy: Vec<u8> = (0..4096u32).map(|i| (i * i / 7) as u8).collect();
    for codec in [Codec::Gzip, Codec::Zstd] {
        let Ok(Chunk::Bytes(low)) = recode_chunk(None, 0, &noisy, codec, 1) else {
            panic!("{codec:?} recodes");
        };
        let Ok(Chunk::Bytes(high)) = recode_chunk(None, 0, &noisy, codec, 9) else {
            panic!("{codec:?} recodes");
        };
        assert_ne!(low, high);
    }
    let fault = |codec| recode_chunk(Some(codec), 0, &vec![1, 2, 3], Codec::Zstd, 3).unwrap_err();
    assert_eq!(fault(Codec::Zstd), "zstd chunk decompress failed");
    assert_eq!(fault(Codec::Gzip), "zlib chunk decompress failed");
}

#[test]
fn datasets_are_copied_by_plan() {
    assert!(matches!(
        plan_copy(&dataset(vec![Filter::Deflate], Some(vec![16, 16])), 4096),
        CopyPlan::Transcode {
            from: Some(Codec::Gzip),
            ..
        }
    ));
    let mut odd = dataset(vec![], None);
    odd.element = Some(ElementType::Other("compound".to_string()));
    assert_eq!(plan_copy(&odd, 4096), CopyPlan::Skip);
    assert_eq!(runs(7, 3), vec![(0, 3), (3, 6), (6, 7)]);
    assert_eq!(
        source_codec(&vec![Some(Codec::Zstd), Some(Codec::Zstd)]),
        Some(Codec::Zstd)
    );
    assert_eq!(source_codec(&vec![Some(Codec::Zstd), Some(Codec::Gzip)]), None);
}

#[test]
fn repacks_are_checked_and_announced() {
    assert_eq!(
        check_repack("a.bin", &None, &None).unwrap_err(),
        "convert only supports HDF5 inputs (.h5/.hdf5), got: a.bin"
    );
    let path = Some("/d/a.h5".to_string());
    assert_eq!(
        check_repack("a.h5", &path, &path).unwrap_err(),
        "input and output are the same file: a.h5"
    );
    assert!(check_repack("a.h5", &path, &None).is_ok());
    let opts = repack_options(Codec::Gzip, Some(42), 256 << 20);
    assert_eq!(opts.level, 9);
    assert_eq!(
        announce_repack("a.h5", "b.h5", &opts),
        "Repacking a.h5 → b.h5 (gzip level 9, 256.0 MB buffer)"
    );
    assert_eq!(repack_options(Codec::Lz4, None, 1).level, 0);
    assert!(same_codec_warning(Some(Codec::Zstd), Codec::Zstd)
        .unwrap()
        .contains("already zstd"));
    assert!(same_codec_warning(None, Codec::Zstd).is_none());
    let report = Report {
        tensors: 3,
        skipped: 0,
        in_bytes: 2048,
        out_bytes: 1024,
        logical_bytes: 4096,
        source_codec: Some(Codec::Gzip),
    };
    assert_eq!(report.ratio(), "2.00");
}

#[test]
fn whole_tensors_are_counted_exactly() {
    // 4x5 f32, values 0..=19, so one exact zero.
    let t = fixture_dtype("/tmp/w.safetensors", "w", "F32", &[4, 5], (0, 80));
    let blob: Vec<u8> = (0..20u32).flat_map(|i| (i as f32).to_le_bytes()).collect();
    let s = tensor_stats(&t, &blob, ViewDtype::Stored).unwrap();
    assert_eq!(s.count, 20);
    assert_eq!((value(s.min.unwrap()), value(s.max.unwrap())), (0.0, 19.0));
    assert_eq!(s.zeros, 1);
    assert_eq!(s.nonfinite, 0);
}

#[test]
fn hdf5_datasets_are_sampled_and_counted() {
    let mut t = fixture_dtype("/tmp/d.h5", "w", "F32", &[4, 5], (0, 80));
    t.layout = Layout::Untracked;
    let blob: Vec<u8> = (0..20u32).flat_map(|i| (i as f32).to_le_bytes()).collect();
    let s = sample_tensor(&t, &blob, 10, 10, 0, ViewDtype::Stored, SampleMode::Grid).unwrap();
    assert_eq!((s.plan.total_rows, s.plan.total_cols), (4, 5));
    assert!(s.plan.overridable);
    for (i, &r) in s.plan.rows.iter().enumerate() {
        for (j, &c) in s.plan.cols.iter().enumerate() {
            assert_eq!(value(s.values[i][j]), (r * 5 + c) as f64);
        }
    }
    let st = tensor_stats(&t, &blob, ViewDtype::Stored).unwrap();
    assert_eq!(st.count, 20);
    assert_eq!((value(st.min.unwrap()), value(st.max.unwrap())), (0.0, 19.0));
    assert_eq!(st.zeros, 1);
    assert_eq!(st.nonfinite, 0);
}

#[test]
fn reinterprets_hdf5_dtype_bytes() {
    let mut t = fixture_dtype("/tmp/q.h5", "w", "I16", &[1, 2], (0, 4));
    t.layout = Layout::Untracked;
    assert_eq!(open_reader(&t).unwrap(), Reader::Hdf5 { item: 2 });
    // 0x21, 0x43 → low/high nibbles (1,2) and (3,4).
    let blob: Vec<u8> = [0x21i16, 0x43].iter().flat_map(|i| i.to_le_bytes()).collect();
    let s = sample_tensor(&t, &blob, 10, 10, 0, ViewDtype::Stored, SampleMode::Grid).unwrap();
    assert_eq!(values(&s.values[0]), vec![0x21 as f64, 0x43 as f64]);
    let p = sample_tensor(&t, &blob, 10, 10, 0, ViewDtype::U4Packed, SampleMode::Grid).unwrap();
    assert_eq!(p.plan.total_cols, 8);
    assert_eq!(
        values(&p.values[0]),
        vec![1.0, 2.0, 0.0, 0.0, 3.0, 4.0, 0.0, 0.0]
    );
    // Statistics under the packed view see all eight unpacked nibbles.
    let st = tensor_stats(&t, &blob, ViewDtype::U4Packed).unwrap();
    assert_eq!(st.count, 8);
    assert_eq!((value(st.min.unwrap()), value(st.max.unwrap())), (0.0, 4.0));
}

#[test]
fn samples_a_3d_hdf5_slice() {
    // Each value names its own slice, row and column.
    let mut t = fixture_dtype("/tmp/v3.h5", "w", "F32", &[2, 3, 4], (0, 96));
    t.layout = Layout::Untracked;
    let blob: Vec<u8> = (0..2)
        .flat_map(|d0| {
            (0..3).flat_map(move |d1| (0..4).map(move |d2| (d0 * 100 + d1 * 10 + d2) as f32))
        })
        .flat_map(|v| v.to_le_bytes())
        .collect();
    let s = sample_tensor(&t, &blob, 10, 10, 1, ViewDtype::Stored, SampleMode::Grid).unwrap();
    assert_eq!((s.plan.total_rows, s.plan.total_cols, s.plan.slices), (3, 4, 2));
    for (i, &r) in s.plan.rows.iter().enumerate() {
        for (j, &c) in s.plan.cols.iter().enumerate() {
            assert_eq!(value(s.values[i][j]), (100 + r * 10 + c) as f64);
        }
    }
}

#[test]
fn places_order_floats_as_their_values() {
    let vs = [
        f32::MIN, -1.5, -1.0, -f32::MIN_POSITIVE, -1e-45, -0.0, 0.0, 1e-45, 0.5, 1.0, 2.0, f32::MAX,
    ];
    for x in vs {
        assert!(finite(Number::F32(x.to_bits())));
        assert!(finite(Number::F64((x as f64).to_bits())));
        for y in vs {
            let (a, b) = (Number::F32(x.to_bits()), Number::F32(y.to_bits()));
            assert_eq!(place(a) < place(b), x < y);
            assert_eq!(place(a) == place(b), x == y);
            let (a, b) = (
                Number::F64((x as f64).to_bits()),
                Number::F64((y as f64).to_bits()),
            );
            assert_eq!(place(a) < place(b), x < y);
        }
    }
    for bits in 0..=u16::MAX {
        let (h, b) = (Number::F16(bits), Number::BF16(bits));
        assert_eq!(finite(h), value(h).is_finite());
        assert_eq!(finite(b), value(b).is_finite());
        if finite(h) {
            assert_eq!(place(h) == 0, value(h) == 0.0);
            assert_eq!(place(h) < 0, value(h) < 0.0);
        }
    }
    assert!(!finite(Number::F32(f32::NAN.to_bits())));
    assert!(!finite(Number::F64(f64::NEG_INFINITY.to_bits())));
    assert!(!finite(Number::Unknown));
}

#[test]
fn a_scan_may_be_split_anywhere() {
    let vs = [3.0f32, f32::NAN, -2.0, -0.0, f32::INFINITY, 7.5];
    let bytes: Vec<u8> = vs.iter().flat_map(|v| v.to_le_bytes()).collect();
    let whole = reduce_view_bytes(&bytes, 4, ViewDtype::Stored, "F32");
    assert_eq!((whole.count, whole.zeros, whole.nonfinite), (6, 1, 2));
    assert_eq!(whole.min.map(value), Some(-2.0));
    assert_eq!(whole.max.map(value), Some(7.5));
    for k in 0..=vs.len() {
        let a = reduce_view_bytes(&bytes[..4 * k], 4, ViewDtype::Stored, "F32");
        let b = reduce_view_bytes(&bytes[4 * k..], 4, ViewDtype::Stored, "F32");
        assert_eq!(Stats::merge(a, b), whole);
    }
    // A run with no finite element has no least and no greatest one.
    let none = reduce_view_bytes(&f32::NAN.to_le_bytes(), 4, ViewDtype::Stored, "F32");
    assert_eq!((none.min, none.max, none.nonfinite), (None, None, 1));
    // Bytes after the last whole container hold no element.
    assert_eq!(reduce_view_bytes(&[1, 2, 3], 2, ViewDtype::Stored, "U16").count, 1);
    let t = fixture_dtype("/tmp/w.safetensors", "w", "Q4_K", &[1], (0, 4));
    assert_eq!(
        tensor_stats(&t, &[], ViewDtype::Stored).unwrap_err(),
        "unsupported dtype: Q4_K"
    );
    let t = fixture_dtype("/tmp/w.bin", "w", "F32", &[1], (0, 4));
    assert_eq!(
        tensor_stats(&t, &[0; 4], ViewDtype::Stored).unwrap_err(),
        "reading tensor data is not supported for this format"
    );
}

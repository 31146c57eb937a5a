//! Statistics of a checkpoint.
use checkpoint_explorer::config::ModelConfig;
use checkpoint_explorer::stats::{
    has_saving, ratio_phrase, CheckpointStats, DiskUsage, ExpertStorage, ShardDisk,
};
use checkpoint_explorer::tree::{Layout, Storage, TensorInfo};

fn ti(name: &str, dtype: &str, shape: &[usize], dsize: usize) -> TensorInfo {
    let num_elements = shape.iter().product();
    TensorInfo {
        name: name.into(),
        dtype: dtype.into(),
        shape: shape.to_vec(),
        size_bytes: num_elements * dsize,
        num_elements,
        storage: Storage::Unknown,
        source_path: "mem.safetensors".into(),
        layout: Layout::Untracked,
    }
}

#[test]
fn overall_totals_and_extremes() {
    let tensors = vec![
        ti("embed", "F32", &[10, 10], 4), // 100 elems, 400 B
        ti("big", "F32", &[100, 100], 4), // 10_000 elems, 40_000 B
        ti("small", "F32", &[2], 4),      // 2 elems, 8 B
    ];
    let s = CheckpointStats::compute(&tensors, None, None);
    assert_eq!(s.n_tensors, 3);
    assert_eq!(s.params, 10_102);
    assert_eq!(s.logical_bytes, 40_408);
    assert_eq!(s.disk_bytes, 40_408); // no compression
    assert!(!s.compressed);
    assert_eq!(s.largest.unwrap().name, "big");
    assert_eq!(s.smallest.unwrap().name, "small");
    assert_eq!(s.mean_bytes, 40_408 / 3);
    assert_eq!(s.median_bytes, 400); // middle of {8, 400, 40000}
}

#[test]
fn dtype_breakdown_sorted_by_bytes() {
    let tensors = vec![
        ti("a", "BF16", &[1000], 2),    // 2000 B
        ti("b", "BF16", &[1000], 2),    // 2000 B
        ti("c", "F8_E4M3", &[1000], 1), // 1000 B
    ];
    let s = CheckpointStats::compute(&tensors, None, None);
    assert_eq!(s.dtypes.len(), 2);
    assert_eq!(s.dtypes[0].dtype, "BF16");
    assert_eq!(s.dtypes[0].count, 2);
    assert_eq!(s.dtypes[0].bytes, 4000);
    assert_eq!(s.dtypes[1].dtype, "F8_E4M3");
}

#[test]
fn layer_stack_counted_and_aggregated() {
    let tensors = vec![
        ti("model.embed_tokens.weight", "F32", &[100], 4),
        ti("model.layers.0.mlp.weight", "F32", &[10], 4),
        ti("model.layers.1.mlp.weight", "F32", &[10], 4),
        ti("model.layers.2.mlp.weight", "F32", &[10], 4),
    ];
    let s = CheckpointStats::compute(&tensors, None, None);
    let l = s.layers.unwrap();
    assert_eq!(l.count, 3);
    assert_eq!(l.params, 30);
    assert_eq!(l.params_each(), 10);
}

#[test]
fn unfused_experts_detected() {
    let mut tensors = vec![ti("model.embed_tokens.weight", "F32", &[100], 4)];
    // 2 layers × 4 experts, one tensor each.
    for layer in 0..2 {
        for e in 0..4 {
            tensors.push(ti(
                &format!("model.layers.{layer}.mlp.experts.{e}.down_proj.weight"),
                "F32",
                &[10],
                4,
            ));
        }
    }
    let s = CheckpointStats::compute(&tensors, None, None);
    let x = s.experts.unwrap();
    assert_eq!(x.storage, ExpertStorage::Unfused);
    assert_eq!(x.per_layer, 4);
    assert_eq!(x.layers, 2);
    assert_eq!(x.params, 80); // 8 experts × 10
    assert_eq!(x.params_each(), 10);
    assert!(!x.gate_up_fused);
}

#[test]
fn fused_experts_use_config_or_shape() {
    let tensors = vec![
        ti(
            "model.layers.0.mlp.experts.gate_up_proj.weight",
            "F32",
            &[8, 10],
            4,
        ),
        ti(
            "model.layers.1.mlp.experts.gate_up_proj.weight",
            "F32",
            &[8, 10],
            4,
        ),
    ];
    let s = CheckpointStats::compute(&tensors, None, None);
    let x = s.experts.unwrap();
    assert_eq!(x.storage, ExpertStorage::Fused);
    assert_eq!(x.per_layer, 8); // leading dim of the stacked tensor
    assert_eq!(x.layers, 2);
    assert!(x.gate_up_fused);
}

#[test]
fn dense_checkpoint_has_no_experts() {
    let tensors = vec![ti("model.layers.0.mlp.weight", "F32", &[10], 4)];
    assert!(CheckpointStats::compute(&tensors, None, None)
        .experts
        .is_none());
}

#[test]
fn report_has_median_row_and_architecture_in_overview() {
    let tensors = vec![
        ti("model.embed_tokens.weight", "F32", &[100], 4),
        ti("model.layers.0.mlp.weight", "F32", &[10], 4),
        ti("model.layers.1.mlp.weight", "F32", &[10], 4),
    ];
    let config = ModelConfig {
        model_type: Some("qwen3_moe".into()),
        num_hidden_layers: None,
        num_experts: None,
        vocab_size: None,
        hidden_size: None,
        tie_word_embeddings: None,
        use_qk_norm: None,
    };
    let report = CheckpointStats::compute(&tensors, Some(&config), None).render(false);

    // Median is its own labelled row, not folded into Average's parens.
    assert!(report.contains("\n  Median"), "report:\n{report}");
    assert!(
        !report.contains("(median"),
        "median should not be parenthetical"
    );
    // A full-width label keeps a gap before its value (not "Architectureqwen3_moe").
    assert!(
        report.contains("Architecture qwen3_moe"),
        "label and value should be separated:\n{report}"
    );
    // Architecture sits under Overview — before the first glyphed section.
    let arch = report.find("Architecture").expect("architecture row");
    let files = report.find("Files").expect("files header");
    assert!(
        arch < files,
        "architecture should be in the Overview section"
    );
}

#[test]
fn from_local_stats_real_files() {
    // Two files that are there: their lengths, and the bytes their blocks take.
    let paths = vec!["Cargo.toml".to_string(), "src/stats.rs".to_string()];
    let du = DiskUsage::from_local(&paths, &vec![Some((888, 8)), Some((30_000, 64))])
        .expect("both files stat");
    assert_eq!(du.shards.len(), 2);
    assert_eq!(
        du.total_apparent,
        du.shards.iter().map(|s| s.apparent).sum::<u64>()
    );
    assert_eq!(
        du.total_allocated,
        du.shards.iter().map(|s| s.allocated).sum::<u64>()
    );
    assert!(du.shards.iter().all(|s| s.allocated > 0));
    // A path that doesn't stat is skipped, not fatal.
    assert!(
        DiskUsage::from_local(&vec!["definitely/not/here.xyz".to_string()], &vec![None]).is_none()
    );
}

#[test]
fn report_on_disk_folds_to_a_summary_and_unfolds_to_every_shard() {
    let tensors = vec![ti("w", "F32", &[10], 4)];
    // One shard squeezed 4× (a real saving) among two the filesystem left
    // alone (allocated ≥ apparent) — deterministic, so the wording is pinned.
    let disk = DiskUsage::from_shards(vec![
        ShardDisk {
            name: "shard-saver.safetensors".into(),
            apparent: 4 * 1024 * 1024,
            allocated: 1024 * 1024,
        },
        ShardDisk {
            name: "shard-plain.safetensors".into(),
            apparent: 4 * 1024 * 1024,
            allocated: 4 * 1024 * 1024,
        },
        ShardDisk {
            name: "shard-bigger.safetensors".into(),
            apparent: 4 * 1024 * 1024,
            allocated: 4 * 1024 * 1024 + 4096, // block rounding — larger on disk
        },
    ]);
    let stats = CheckpointStats::compute(&tensors, None, disk);

    // Folded (default): a one-line summary with the saver count, no shard rows.
    let folded = stats.render(false);
    assert!(folded.contains("On disk (filesystem)"), "report:\n{folded}");
    assert!(
        folded.contains("per-shard breakdown (1 of 3 smaller)"),
        "report:\n{folded}"
    );
    assert!(!folded.contains("shard-saver"), "report:\n{folded}");

    // Unfolded: *every* shard is listed — savers and not — not just the savers.
    let expanded = stats.render(true);
    assert!(
        expanded.contains("shard-saver.safetensors"),
        "report:\n{expanded}"
    );
    assert!(expanded.contains("4.00× smaller"), "report:\n{expanded}");
    assert!(
        expanded.contains("shard-plain.safetensors"),
        "report:\n{expanded}"
    );
    assert!(
        expanded.contains("shard-bigger.safetensors"),
        "report:\n{expanded}"
    );
    // No line collapses the shards without a saving (the per-shard rows still
    // carry "(no filesystem saving)" individually).
    assert!(
        !expanded.contains("shards with no filesystem saving"),
        "report:\n{expanded}"
    );
}

#[test]
fn ratio_and_saving_predicates() {
    // Allocated ≥ apparent (small file rounded up to a block) → no saving.
    assert_eq!(ratio_phrase(888, 4096), "no filesystem saving");
    assert_eq!(ratio_phrase(0, 0), "no filesystem saving");
    assert_eq!(ratio_phrase(1000, 500), "2.00× smaller");
    // A real (≥1%) saving counts; a larger-on-disk or trivial one doesn't.
    assert!(has_saving(1000, 500));
    assert!(!has_saving(1000, 1000));
    assert!(!has_saving(1000, 1200)); // allocated larger
    assert!(!has_saving(1000, 999)); // 0.1% — below the threshold
}

#[test]
fn breakdowns_add_up() {
    let tensors = vec![
        ti("a", "F32", &[10], 4),
        ti("b", "BF16", &[10], 2),
        ti("c", "F32", &[3], 4),
    ];
    let s = CheckpointStats::compute(&tensors, None, None);
    assert_eq!(s.dtypes.iter().map(|d| d.count).sum::<usize>(), s.n_tensors);
    assert_eq!(s.dtypes.iter().map(|d| d.bytes).sum::<usize>(), s.logical_bytes);
}

//! Comparing two checkpoints.
use checkpoint_explorer::diff::{
    compare, compare_with, name_schema, quote_trunc, render_change, render_histogram_table,
    render_tensor_focus, tensor_focus_differs, CheckpointSummary, DiffOpts, GroupNote, HistBins,
    HistogramDiff, MetaVal, NoKey, TensorExtras, TensorSig, ValueCmp, ValueDiff, GREEN, RED, RESET,
};
use checkpoint_explorer::filter::{build_tensor_filter, TensorFilter};
use checkpoint_explorer::namemap::NameMap;
use checkpoint_explorer::schema::{
    compact_int_ranges, display_name, holes, singletons, templatize,
};

fn sig(dtype: &str, shape: &[usize]) -> TensorSig {
    TensorSig {
        dtype: dtype.to_string(),
        shape: shape.to_vec(),
    }
}

fn mv(value: &str, ty: &str) -> MetaVal {
    MetaVal {
        value: value.to_string(),
        value_type: ty.to_string(),
    }
}

fn summary(tensors: &[(&str, TensorSig)], metadata: &[(&str, MetaVal)]) -> CheckpointSummary {
    let mut s = CheckpointSummary {
        tensors: NameMap::new(),
        metadata: NameMap::new(),
    };
    for (n, t) in tensors {
        s.tensors.insert(n.to_string(), t.clone());
    }
    for (n, m) in metadata {
        s.metadata.insert(n.to_string(), m.clone());
    }
    s
}

const PLAIN: DiffOpts = DiffOpts {
    color: false,
    metadata: true,
    group: true,
    values: false,
    histogram: false,
    filtered: false,
};

fn vd(differing: u64, elements: u64, max_abs: &str, mean_abs: &str) -> ValueDiff {
    ValueDiff {
        elements,
        differing,
        max_abs: max_abs.to_string(),
        mean_abs: mean_abs.to_string(),
        nonfinite_mismatch: 0,
    }
}

fn note(max_abs: &str, mean_abs: &str) -> GroupNote {
    GroupNote {
        max_abs: max_abs.to_string(),
        mean_abs: mean_abs.to_string(),
        tvd_max: String::new(),
        tvd_mean: String::new(),
    }
}

#[test]
fn change_colours_only_differing_dtype_and_dims() {
    // dtype F16→U16 and only the first dim 256→64 differ; 3072/1540 are shared.
    let (o, n) = render_change(
        &sig("F16", &[256, 3072, 1540]),
        &sig("U16", &[64, 3072, 1540]),
        true,
    );
    assert!(o.contains(&format!("{RED}F16{RESET}")));
    assert!(n.contains(&format!("{GREEN}U16{RESET}")));
    assert!(o.contains(&format!("{RED}256{RESET}")));
    assert!(n.contains(&format!("{GREEN}64{RESET}")));
    // Unchanged dims are plain (not wrapped in a colour code).
    assert!(o.contains(", 3072, 1540)") && n.contains(", 3072, 1540)"));
}

#[test]
fn change_leaves_dtype_plain_when_only_a_dim_differs() {
    let (o, _n) = render_change(&sig("F16", &[4, 8]), &sig("F16", &[2, 8]), true);
    assert!(!o.contains(&format!("{RED}F16")));
    assert!(o.contains(&format!("({RED}4{RESET}, 8)")));
}

#[test]
fn change_colours_whole_shape_when_ranks_differ() {
    let (o, _n) = render_change(&sig("F16", &[4, 8]), &sig("F16", &[32]), true);
    assert!(o.contains(&format!("{RED}(4, 8){RESET}")));
}

#[test]
fn identical_checkpoints_have_no_differences() {
    let a = summary(&[("w", sig("F16", &[2, 2]))], &[("k", mv("v", "string"))]);
    let b = summary(&[("w", sig("F16", &[2, 2]))], &[("k", mv("v", "string"))]);
    let r = compare(&a, &b);
    assert!(!r.has_differences());
    assert_eq!(r.tensors_unchanged, 1);
    assert_eq!(r.meta_unchanged, 1);
}

#[test]
fn classifies_added_removed_changed_tensors() {
    let old = summary(
        &[
            ("keep", sig("F16", &[2, 2])),
            ("gone", sig("F32", &[8, 8])),
            ("retyped", sig("F32", &[4, 4])),
            ("reshaped", sig("F16", &[10, 4])),
        ],
        &[],
    );
    let new = summary(
        &[
            ("keep", sig("F16", &[2, 2])),
            ("fresh", sig("BF16", &[1, 1])),
            ("retyped", sig("BF16", &[4, 4])),
            ("reshaped", sig("F16", &[20, 2])),
        ],
        &[],
    );
    let r = compare(&old, &new);
    assert!(r.has_differences());
    assert_eq!(
        r.tensors_removed
            .iter()
            .map(|(n, _)| n.as_str())
            .collect::<Vec<_>>(),
        ["gone"]
    );
    assert_eq!(
        r.tensors_added
            .iter()
            .map(|(n, _)| n.as_str())
            .collect::<Vec<_>>(),
        ["fresh"]
    );
    let changed: Vec<_> = r.tensors_changed.iter().map(|c| c.name.as_str()).collect();
    assert_eq!(changed, ["reshaped", "retyped"]);
    assert_eq!(r.tensors_unchanged, 1);
}

#[test]
fn classifies_metadata_changes_including_type_only() {
    let old = summary(
        &[],
        &[
            ("same", mv("1", "int")),
            ("v", mv("0.4", "string")),
            ("typed", mv("1", "int")),
        ],
    );
    let new = summary(
        &[],
        &[
            ("same", mv("1", "int")),
            ("v", mv("0.5", "string")),
            ("typed", mv("1", "float")),
            ("extra", mv("x", "string")),
        ],
    );
    let r = compare(&old, &new);
    assert_eq!(
        r.meta_added
            .iter()
            .map(|(n, _)| n.as_str())
            .collect::<Vec<_>>(),
        ["extra"]
    );
    assert!(r.meta_removed.is_empty());
    let changed: Vec<_> = r.meta_changed.iter().map(|c| c.name.as_str()).collect();
    assert_eq!(changed, ["typed", "v"]);
    assert_eq!(r.meta_unchanged, 1);
    // The type-only change renders as a "(type … → …)" note, not a value diff.
    let out = r.render("old", "new", PLAIN, &vec![]);
    assert!(out.contains("~ typed (type int → float)"), "{out}");
    assert!(out.contains("~ v = \"0.4\" → \"0.5\""), "{out}");
}

#[test]
fn render_notes_when_metadata_excluded() {
    let old = summary(&[("w", sig("F16", &[2, 2]))], &[("k", mv("a", "string"))]);
    let new = summary(&[("w", sig("F16", &[2, 2]))], &[("k", mv("b", "string"))]);
    let r = compare(&old, &new);
    // Default: the metadata change is shown.
    assert!(r
        .render("o", "n", PLAIN, &vec![])
        .contains("metadata: -0 +0 ~1"));
    // --only-tensors: a clear note instead, and no per-entry metadata lines.
    let without = r.render(
        "o",
        "n",
        DiffOpts {
            metadata: false,
            ..PLAIN
        },
        &vec![],
    );
    assert!(
        without.contains("metadata: not compared (--only-tensors)"),
        "{without}"
    );
    assert!(!without.contains("  ~ k"), "{without}");
}

#[test]
fn full_value_diff_promotes_values_only_change() {
    // Same dtype & shape on both sides; a value comparison says they differ.
    let old = summary(&[("model.layers.0.w", sig("U8", &[4]))], &[]);
    let new = summary(&[("model.layers.0.w", sig("U8", &[4]))], &[]);
    let r = compare_with(&old, &new, |_| TensorExtras {
        values: Some(vd(2, 4, "7", "3.5")),
        histogram: None,
    });
    // The structurally-identical tensor is now a change.
    assert_eq!(r.tensors_changed.len(), 1);
    assert_eq!(r.tensors_unchanged, 0);
    let out = r.render(
        "o",
        "n",
        DiffOpts {
            values: true,
            ..PLAIN
        },
        &vec![note("7", "3.5")],
    );
    assert!(
        out.contains("~ model.layers.0.w  [U8 (4)]  (values differ)"),
        "{out}"
    );
    assert!(
        out.contains("values: 2 of 4 differ  (max |Δ| 7, mean |Δ| 3.5)"),
        "{out}"
    );
}

#[test]
fn full_value_diff_aggregates_within_a_group() {
    // Two layers, each a values-only change → collapse, stats aggregated.
    let mk = || {
        summary(
            &[
                ("model.layers.0.w", sig("U8", &[4])),
                ("model.layers.1.w", sig("U8", &[4])),
            ],
            &[],
        )
    };
    let r = compare_with(&mk(), &mk(), |_| TensorExtras {
        values: Some(vd(1, 4, "2", "0.5")),
        histogram: None,
    });
    let out = r.render(
        "o",
        "n",
        DiffOpts {
            values: true,
            ..PLAIN
        },
        &vec![note("2", "0.5")],
    );
    // One collapsed line with the aggregate (8 elements, 2 differing, max 2).
    assert!(
        out.contains("~ model.layers.{0-1}.w  [U8 (4)]  (values differ)  (×2)"),
        "{out}"
    );
    assert!(
        out.contains("values: 2 of 8 differ  (max |Δ| 2, mean |Δ| 0.5)"),
        "{out}"
    );
}

#[test]
fn color_highlights_only_the_changed_token() {
    // dtype changed, shape same → colour the dtype, not the shape.
    let old = summary(&[("w", sig("F16", &[2, 2]))], &[]);
    let new = summary(&[("w", sig("BF16", &[2, 2]))], &[]);
    let out = compare(&old, &new).render(
        "o",
        "n",
        DiffOpts {
            color: true,
            ..PLAIN
        },
        &vec![],
    );
    assert!(out.contains(&format!("{RED}F16{RESET}")), "{out:?}");
    assert!(out.contains(&format!("{GREEN}BF16{RESET}")), "{out:?}");
    // The unchanged shape isn't wrapped in a colour code.
    assert!(!out.contains(&format!("{RED}(2, 2){RESET}")), "{out:?}");
}

#[test]
fn groups_repeated_per_index_changes() {
    // The same dtype change across layers 0..=3 collapses to one line.
    let mk = |dt: &str| {
        let mut s = summary(&[], &[]);
        for n in 0..4 {
            s.tensors
                .insert(format!("model.layers.{n}.mlp.weight"), sig(dt, &[8]));
        }
        s
    };
    let r = compare(&mk("F16"), &mk("BF16"));
    // Grouped (default): one collapsed line with the range and ×count.
    let grouped = r.render("o", "n", PLAIN, &vec![]);
    assert!(
        grouped.contains("~ model.layers.{0-3}.mlp.weight  [F16 (8)] → [BF16 (8)]  (×4)"),
        "{grouped}"
    );
    assert_eq!(
        grouped.matches(".mlp.weight").count(),
        1,
        "should be one line:\n{grouped}"
    );
    // The counts line still reports the true total (4 changed).
    assert!(grouped.contains("tensors: -0 +0 ~4"), "{grouped}");

    // `--full` (group off): every layer listed, no count suffix.
    let full = r.render(
        "o",
        "n",
        DiffOpts {
            group: false,
            ..PLAIN
        },
        &vec![],
    );
    assert_eq!(
        full.matches(".mlp.weight").count(),
        4,
        "should list all four:\n{full}"
    );
    assert!(full.contains("~ model.layers.0.mlp.weight"), "{full}");
    assert!(!full.contains("(×"), "no count suffix when full:\n{full}");
}

#[test]
fn compact_int_ranges_merges_runs() {
    assert_eq!(compact_int_ranges(&[0, 1, 2, 3]), "0-3");
    assert_eq!(compact_int_ranges(&[0, 1, 2, 5, 7, 8]), "0-2,5,7-8");
    assert_eq!(compact_int_ranges(&[4]), "4");
}

#[test]
fn templatize_replaces_digit_runs() {
    let (t, idx) = templatize("model.layers.12.experts.3.weight");
    assert_eq!(t, "model.layers.{}.experts.{}.weight");
    assert_eq!(idx, ["12", "3"]);
}

#[test]
fn quote_trunc_flattens_and_truncates() {
    assert_eq!(quote_trunc("a\nb"), "\"a b\"");
    let long = "x".repeat(100);
    let q = quote_trunc(&long);
    assert!(q.starts_with('"') && q.ends_with("…\""));
    assert_eq!(q.chars().count(), 60 + 3);
}

#[test]
fn focus_differs_predicate() {
    let a = sig("F16", &[2, 2]);
    let b = sig("BF16", &[2, 2]);
    // same sig, identical values → not a difference
    assert!(!tensor_focus_differs(
        Some(&a),
        Some(&a),
        Some(&ValueCmp::Identical)
    ));
    // same sig, values differ → a difference
    assert!(tensor_focus_differs(
        Some(&a),
        Some(&a),
        Some(&ValueCmp::Differ(vd(1, 4, "0.5", "0.1")))
    ));
    // differing sig → a difference regardless of values
    assert!(tensor_focus_differs(
        Some(&a),
        Some(&b),
        Some(&ValueCmp::Identical)
    ));
    // present on one side only → a difference
    assert!(tensor_focus_differs(Some(&a), None, None));
}

#[test]
fn focus_render_same_sig_values_differ() {
    let a = sig("U8", &[4]);
    let out = render_tensor_focus(
        "old",
        "new",
        "w",
        Some(&a),
        Some(&a),
        Some(&ValueCmp::Differ(vd(4, 4, "7", "7"))),
        false,
    );
    assert!(out.contains("~ w  [U8 (4)]  (values differ)"), "{out}");
    assert!(
        out.contains("values: 4 of 4 differ  (max |Δ| 7, mean |Δ| 7)"),
        "{out}"
    );
}

#[test]
fn focus_render_identical_and_added_and_shape_skip() {
    let a = sig("F32", &[4]);
    let ident = render_tensor_focus(
        "o",
        "n",
        "w",
        Some(&a),
        Some(&a),
        Some(&ValueCmp::Identical),
        false,
    );
    assert!(ident.contains("= w  [F32 (4)]  (identical)"), "{ident}");

    let added = render_tensor_focus("o", "n", "w", None, Some(&a), None, false);
    assert!(added.contains("+ w  [F32 (4)]  (only in new)"), "{added}");

    let b = sig("F32", &[8]);
    let reshape = render_tensor_focus(
        "o",
        "n",
        "w",
        Some(&a),
        Some(&b),
        Some(&ValueCmp::Skipped("shapes differ".to_string())),
        false,
    );
    assert!(reshape.contains("~ w  [F32 (4)] → [F32 (8)]"), "{reshape}");
    assert!(
        reshape.contains("values: not compared (shapes differ)"),
        "{reshape}"
    );
}

fn glob(p: &str) -> String {
    p.to_string()
}

fn name_set(names: &[&str]) -> NameMap<NoKey> {
    let mut m = NameMap::new();
    for n in names {
        m.insert(n.to_string(), NoKey);
    }
    m
}

#[test]
fn filter_name_glob_matches_any() {
    let f = TensorFilter {
        name_globs: vec![glob("*.mlp.*.weight"), glob("*.norm.weight")],
        ..Default::default()
    };
    assert!(f.is_active());
    let s = sig("F16", &[4, 4]);
    assert!(f.matches("model.layers.0.mlp.down_proj.weight", Some(&s), Some(&s)));
    assert!(f.matches("model.norm.weight", Some(&s), None));
    assert!(!f.matches("model.embed_tokens.weight", Some(&s), Some(&s)));
}

#[test]
fn filter_names_exact() {
    let f = TensorFilter {
        names_exact: Some(name_set(&["a.w", "b.w"])),
        ..Default::default()
    };
    let s = sig("F16", &[2]);
    assert!(f.matches("a.w", Some(&s), Some(&s)));
    assert!(!f.matches("c.w", Some(&s), Some(&s)));
}

#[test]
fn filter_dtype_glob_is_case_insensitive_and_either_side() {
    let f = TensorFilter {
        dtype: Some(glob("F*")),
        ..Default::default()
    };
    assert!(f.matches("w", Some(&sig("F16", &[2])), Some(&sig("F16", &[2]))));
    assert!(f.matches("w", Some(&sig("f32", &[2])), None)); // lowercase stored dtype
    assert!(!f.matches("w", Some(&sig("BF16", &[2])), Some(&sig("I8", &[2]))));
    // dtype changed F16 → BF16 still matches: the OLD side is F16.
    assert!(f.matches("w", Some(&sig("F16", &[2])), Some(&sig("BF16", &[2]))));
}

#[test]
fn filter_shape_glob_star_one_dim_starstar_any() {
    // `*` matches exactly one dimension (of any size).
    let one = TensorFilter {
        shape: Some(glob("768/*")),
        ..Default::default()
    };
    assert!(one.matches("w", Some(&sig("F16", &[768, 2048])), None));
    assert!(!one.matches("w", Some(&sig("F16", &[768, 2048, 4])), None)); // rank 3
    assert!(!one.matches("w", Some(&sig("F16", &[768])), None)); // rank 1

    // `**` matches any number of dimensions.
    let any = TensorFilter {
        shape: Some(glob("768/**")),
        ..Default::default()
    };
    assert!(any.matches("w", Some(&sig("F16", &[768, 2048])), None));
    assert!(any.matches("w", Some(&sig("F16", &[768, 2048, 4])), None));

    // Trailing dimension at any rank.
    let tail = TensorFilter {
        shape: Some(glob("**/2048")),
        ..Default::default()
    };
    assert!(tail.matches("w", Some(&sig("F16", &[768, 2048])), None));
    assert!(tail.matches("w", Some(&sig("F16", &[6, 3, 2048])), None));
    assert!(!tail.matches("w", Some(&sig("F16", &[2048, 6])), None));
}

#[test]
fn filter_constraints_compose_with_and() {
    let f = TensorFilter {
        name_globs: vec![glob("*.down_proj.weight")],
        dtype: Some(glob("BF16")),
        ..Default::default()
    };
    let bf = sig("BF16", &[2048, 768]);
    let f16 = sig("F16", &[2048, 768]);
    assert!(f.matches("model.layers.0.mlp.down_proj.weight", Some(&bf), Some(&bf)));
    assert!(!f.matches(
        "model.layers.0.mlp.down_proj.weight",
        Some(&f16),
        Some(&f16)
    )); // dtype fails
    assert!(!f.matches("model.layers.0.mlp.gate_proj.weight", Some(&bf), Some(&bf))); // name fails
}

#[test]
fn filter_apply_restricts_both_sides_and_keeps_add_remove() {
    let mut old = summary(
        &[
            ("keep.down_proj.weight", sig("BF16", &[8, 4])),
            ("skip.gate_proj.weight", sig("BF16", &[8, 4])),
            ("only_old.down_proj.weight", sig("BF16", &[8, 4])),
        ],
        &[],
    );
    let mut new = summary(
        &[
            ("keep.down_proj.weight", sig("BF16", &[8, 4])),
            ("skip.gate_proj.weight", sig("BF16", &[8, 4])),
            ("only_new.down_proj.weight", sig("BF16", &[8, 4])),
        ],
        &[],
    );
    let f = TensorFilter {
        name_globs: vec![glob("*.down_proj.weight")],
        ..Default::default()
    };
    f.apply(&mut old, &mut new);
    assert_eq!(
        old.tensors.keys(),
        vec!["keep.down_proj.weight", "only_old.down_proj.weight"]
    );
    assert_eq!(
        new.tensors.keys(),
        vec!["keep.down_proj.weight", "only_new.down_proj.weight"]
    );
    // The diff over the filtered subset: one unchanged, one removed, one added.
    let r = compare(&old, &new);
    assert_eq!(r.tensors_unchanged, 1);
    assert_eq!(r.tensors_removed.len(), 1);
    assert_eq!(r.tensors_added.len(), 1);
}

#[test]
fn name_schema_collapses_layers_and_experts() {
    let mut names = Vec::new();
    for l in 0..3 {
        for e in 0..2 {
            names.push(format!("model.layers.{l}.experts.{e}.down_proj.weight"));
            names.push(format!("model.layers.{l}.experts.{e}.gate_proj.weight"));
        }
    }
    let refs: Vec<&str> = names.iter().map(String::as_str).collect();
    let schema = name_schema(&refs);
    // Two templates (down / gate), each covering 3 layers × 2 experts = 6.
    assert_eq!(schema.len(), 2);
    assert!(
        schema.contains(&(
            "model.layers.{0-2}.experts.{0-1}.down_proj.weight".to_string(),
            6
        )),
        "{schema:?}"
    );
    assert!(
        schema.contains(&(
            "model.layers.{0-2}.experts.{0-1}.gate_proj.weight".to_string(),
            6
        )),
        "{schema:?}"
    );
}

#[test]
fn filter_inactive_is_noop() {
    let f = TensorFilter::default();
    assert!(!f.is_active());
    assert_eq!(f.describe(), None);
    let mut a = summary(&[("w", sig("F16", &[2]))], &[]);
    let mut b = summary(&[("w", sig("F16", &[2]))], &[]);
    f.apply(&mut a, &mut b);
    assert_eq!(a.tensors.len(), 1); // untouched
}

#[test]
fn filters_are_built_from_the_command_line() {
    let f = build_tensor_filter(
        &vec!["*.weight".to_string()],
        Some("a.weight, b.weight"),
        &None,
        Some("bf*"),
        Some("**"),
    )
    .unwrap();
    let s = sig("BF16", &[4]);
    assert!(f.matches("a.weight", Some(&s), None));
    assert!(!f.matches("c.weight", Some(&s), None));
    assert!(!f.matches("a.weight", Some(&sig("F16", &[4])), None));

    let bad = build_tensor_filter(&vec![], None, &None, Some("[x"), None);
    let why = bad.unwrap_err();
    assert!(why.starts_with("invalid --dtype-is glob \"[x\": "), "{why}");
    let bad = build_tensor_filter(&vec!["a[".to_string()], None, &None, None, None);
    assert!(bad.is_err());
    let missing = build_tensor_filter(&vec![], None, &Some(Err("gone".to_string())), None, None);
    assert!(missing.is_err());
    let listed = build_tensor_filter(
        &vec![],
        None,
        &Some(Ok("# names\nx\n\n y \n".to_string())),
        None,
        None,
    )
    .unwrap();
    assert!(listed.matches("x", None, None) && listed.matches("y", None, None));
    assert!(!listed.matches("# names", None, None));
}

#[test]
fn swapping_the_sides_swaps_added_and_removed() {
    let a = summary(&[("x", sig("F16", &[2])), ("y", sig("F16", &[2]))], &[]);
    let b = summary(&[("y", sig("BF16", &[2])), ("z", sig("F16", &[2]))], &[]);
    let ab = compare(&a, &b);
    let ba = compare(&b, &a);
    assert_eq!(ab.tensors_added[0].0, "z");
    assert_eq!(ba.tensors_removed[0].0, "z");
    assert_eq!(ab.tensors_removed[0].0, "x");
    assert_eq!(ba.tensors_added[0].0, "x");
    assert_eq!(ab.tensors_changed.len(), ba.tensors_changed.len());
    for (x, y) in ab.tensors_changed.iter().zip(&ba.tensors_changed) {
        assert_eq!(x.name, y.name);
        assert_eq!(x.old.render(), y.new.render());
        assert_eq!(x.new.render(), y.old.render());
    }
    assert_eq!(ab.tensors_unchanged, ba.tensors_unchanged);
}

#[test]
fn histogram_tables_align_integer_bins() {
    let hd = HistogramDiff {
        n: 2,
        bins: HistBins::IntBins { start: -1, step: 1 },
        old_counts: vec![3, 0],
        new_counts: vec![1, 2],
        old_nonfinite: 0,
        new_nonfinite: 0,
        tvd: "0.6667".to_string(),
    };
    let out = render_histogram_table("w", &hd, false);
    assert!(out.contains("0.6667"), "{out}");
    assert!(out.contains("-1"), "{out}");
}

#[test]
fn single_entries_show_their_own_names() {
    for name in ["a{}b1", "layers.12.w", "{}", "1{}2", "{1}", "{{}}3", "", "x"] {
        let groups = singletons(&vec![(name.to_string(), NoKey)]);
        assert_eq!(groups.len(), 1);
        assert_eq!(groups[0].members, vec![0]);
        assert_eq!(display_name(&groups[0].template, &groups[0].indices), name);
    }
    assert_eq!(templatize("a{}b1").0, "a{}b{}");
    assert_eq!(holes("a{}b1"), ["{}", "1"]);
    assert_eq!(
        display_name("{}", &vec![vec!["-2".into(), "-1".into(), "+7".into()]]),
        "{-2--1,7}"
    );
    assert_eq!(
        display_name("{}", &vec![vec!["b".into(), "a".into(), "b".into()]]),
        "{a,b}"
    );
}

#[test]
fn differences_show_exactly_where_checkpoints_differ() {
    let a = summary(&[("x", sig("F32", &[2]))], &[("m", mv("1", "u64"))]);
    let same = summary(&[("x", sig("F32", &[2]))], &[("m", mv("1", "u64"))]);
    let shape = summary(&[("x", sig("F32", &[3]))], &[("m", mv("1", "u64"))]);
    let meta = summary(&[("x", sig("F32", &[2]))], &[("m", mv("2", "u64"))]);
    assert!(!compare(&a, &same).has_differences());
    assert!(compare(&a, &shape).has_differences());
    assert!(compare(&a, &meta).has_differences());
}

#[test]
fn filtering_first_gives_the_filtered_changes() {
    let old = summary(
        &[("a.w", sig("F32", &[2])), ("b.w", sig("F32", &[2]))],
        &[],
    );
    let new = summary(
        &[("a.w", sig("F16", &[2])), ("b.w", sig("F16", &[2]))],
        &[],
    );
    let all = compare(&old, &new);
    assert_eq!(all.tensors_changed.len(), 2);
    let f = build_tensor_filter(&vec!["a.*".to_string()], None, &None, None, None).unwrap();
    let (mut o, mut n) = (old, new);
    f.apply(&mut o, &mut n);
    let kept = compare(&o, &n);
    assert_eq!(kept.tensors_changed.len(), 1);
    assert_eq!(kept.tensors_changed[0].name, "a.w");
}

#[test]
fn colour_changes_no_text() {
    let strip = |s: &str| s.replace(RED, "").replace(GREEN, "").replace(RESET, "");
    for (a, b) in [
        (sig("F32", &[2, 3]), sig("F16", &[2, 4])),
        (sig("F32", &[2]), sig("F32", &[2, 1])),
        (sig("F32", &[]), sig("F16", &[])),
    ] {
        let (x, y) = render_change(&a, &b, true);
        let (p, q) = render_change(&a, &b, false);
        assert_eq!((strip(&x), strip(&y)), (p, q));
    }
}

#[test]
fn ranges_of_reals_are_half_open() {
    let hd = HistogramDiff {
        n: 2,
        bins: HistBins::Range {
            ends: vec!["0".into(), "0.5".into(), "1".into()],
        },
        old_counts: vec![3, 1],
        new_counts: vec![1, 2],
        old_nonfinite: 0,
        new_nonfinite: 0,
        tvd: "0".to_string(),
    };
    let out = render_histogram_table("w", &hd, false);
    assert!(out.contains("[0, 0.5)") && out.contains("[0.5, 1)"), "{out}");
}

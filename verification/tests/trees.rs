//! The tree of a checkpoint's tensors.
use checkpoint_explorer::tree::{
    can_count, natural_sort_key, sort_tensors, Layout, MetadataInfo, NaturalSortItem, Storage, TensorInfo,
    TreeBuilder, TreeNode,
};

fn tensor(name: &str) -> TensorInfo {
    TensorInfo {
        name: name.to_string(),
        dtype: "F32".to_string(),
        shape: vec![2, 2],
        size_bytes: 16,
        num_elements: 4,
        storage: Storage::Unknown,
        source_path: "/tmp/x".to_string(),
        layout: Layout::Untracked,
    }
}

/// Find a group by name among `nodes` (non-recursive), returning its children.
fn group<'a>(nodes: &'a [TreeNode], name: &str) -> &'a [TreeNode] {
    nodes
        .iter()
        .find_map(|n| match n {
            TreeNode::Group {
                name: g, children, ..
            } if g == name => Some(children.as_slice()),
            _ => None,
        })
        .unwrap_or_else(|| {
            panic!(
                "no group '{name}' in {:?}",
                nodes.iter().map(|n| n.name()).collect::<Vec<_>>()
            )
        })
}

fn leaf_names(nodes: &[TreeNode]) -> Vec<&str> {
    nodes
        .iter()
        .filter_map(|n| match n {
            TreeNode::Tensor { info, .. } => Some(info.name.as_str()),
            _ => None,
        })
        .collect()
}

#[test]
fn folds_underscore_flattened_names_on_double_underscore() {
    // `.npy` trace names use `__` to separate a tensor from its variant.
    let base = "model_layers_0_block_sparse_moe_experts_down_proj_weight";
    let tree = TreeBuilder::build_tree(&[
        tensor(&format!("{base}__acthost_addr27264")),
        tensor(&format!("{base}__checkpoint")),
        tensor(&format!("{base}__post_transform")),
    ]);
    // One foldable group named after the base, holding the three variants as
    // leaves (still keyed by their full names for lookup).
    let children = group(&tree, base);
    let mut variants = leaf_names(children);
    variants.sort();
    assert_eq!(
        variants,
        vec![
            format!("{base}__acthost_addr27264"),
            format!("{base}__checkpoint"),
            format!("{base}__post_transform"),
        ]
    );
}

#[test]
fn dotted_names_still_fold_on_dots() {
    let tree = TreeBuilder::build_tree(&[
        tensor("model.layers.0.weight"),
        tensor("model.layers.0.bias"),
    ]);
    // The single-child chain model→layers→0 compacts into one group holding
    // both leaves.
    let zero = group(&tree, "model.layers.0");
    let mut names = leaf_names(zero);
    names.sort();
    assert_eq!(names, vec!["model.layers.0.bias", "model.layers.0.weight"]);
}

#[test]
fn compacts_a_single_child_chain_into_one_leaf() {
    let tree = TreeBuilder::build_tree(&[tensor("model.layers.0.self_attn.k_norm.weight")]);
    // A lone deeply-nested tensor becomes a single labelled leaf row.
    assert_eq!(tree.len(), 1);
    match &tree[0] {
        TreeNode::Tensor { info, label } => {
            assert_eq!(info.name, "model.layers.0.self_attn.k_norm.weight");
            assert_eq!(
                label.as_deref(),
                Some("model.layers.0.self_attn.k_norm.weight")
            );
        }
        other => panic!("expected one compacted leaf, got group {:?}", other.name()),
    }
}

#[test]
fn compacts_lone_tensors_but_keeps_shared_folders() {
    let tree = TreeBuilder::build_tree(&[tensor("enc.a.w"), tensor("enc.b.x"), tensor("enc.b.y")]);
    // `enc` stays (two children). `a` (one tensor) compacts to a leaf
    // labelled `a.w`; `b` (two tensors) stays a group with leaves `x`/`y`.
    let enc = group(&tree, "enc");
    let aw_label = enc.iter().find_map(|n| match n {
        TreeNode::Tensor { info, label } if info.name == "enc.a.w" => Some(label.clone()),
        _ => None,
    });
    assert_eq!(aw_label, Some(Some("a.w".to_string())));
    let b = group(enc, "b");
    let mut names = leaf_names(b);
    names.sort();
    assert_eq!(names, vec!["enc.b.x", "enc.b.y"]);
}

#[test]
fn numbers_in_names_sort_by_value() {
    assert_eq!(
        natural_sort_key("l10"),
        vec![
            NaturalSortItem::Text("l".to_string()),
            NaturalSortItem::Number(10)
        ]
    );
    let tree = TreeBuilder::build_tree(&[tensor("a.10.x"), tensor("a.2.x"), tensor("a.10.y")]);
    let a = group(&tree, "a");
    assert_eq!(a[0].name(), "a.2.x");
    assert_eq!(a[1].name(), "10");
}

#[test]
fn opening_a_tensor_makes_it_visible() {
    let tensors = [tensor("a.b.c"), tensor("a.b.d"), tensor("a.e.f"), tensor("a.e.g")];
    assert!(can_count(&tensors));
    let mut tree = TreeBuilder::build_tree(&tensors);
    TreeBuilder::set_all_expanded(&mut tree, false);
    assert!(TreeBuilder::all_groups(&tree, false));
    assert_eq!(TreeBuilder::flatten_tree(&tree).len(), 1);
    assert!(TreeBuilder::expand_to_tensor(&mut tree, "a.b.d"));
    let rows = TreeBuilder::flatten_tree(&tree);
    assert!(rows.iter().any(|(n, _)| n.name() == "a.b.d"));
    assert!(!rows.iter().any(|(n, _)| n.name() == "a.e.f"));
    assert!(!TreeBuilder::expand_to_tensor(&mut tree, "a.z"));
    TreeBuilder::set_all_expanded(&mut tree, true);
    assert_eq!(TreeBuilder::flatten_tree(&tree).len(), 7);
}

#[test]
fn metadata_stands_beside_the_tensors() {
    let tree = TreeBuilder::build_tree_mixed(
        &[tensor("w")],
        &[MetadataInfo {
            name: "format".to_string(),
            value: "pt".to_string(),
            value_type: "string".to_string(),
        }],
    );
    let rows: Vec<&str> = tree.iter().map(|n| n.name()).collect();
    assert!(rows.contains(&"w"), "{rows:?}");
    assert_eq!(rows.len(), 2);
}

#[test]
fn no_tensor_is_lost() {
    let names = ["a.b.c", "a.b.d", "e", "f__g", "f__h.i", "a.b.c"];
    let tensors: Vec<TensorInfo> = names.iter().map(|n| tensor(n)).collect();
    let mut tree = TreeBuilder::build_tree(&tensors);
    let shown = |tree: &Vec<TreeNode>| {
        let mut v: Vec<String> = TreeBuilder::flatten_tree(tree)
            .into_iter()
            .filter_map(|(n, _)| match n {
                TreeNode::Tensor { info, .. } => Some(info.name),
                _ => None,
            })
            .collect();
        v.sort();
        v
    };
    TreeBuilder::set_all_expanded(&mut tree, true);
    let mut wanted: Vec<String> = names.iter().map(|n| n.to_string()).collect();
    wanted.sort();
    assert_eq!(shown(&tree), wanted);
    // Folding a group and unfolding it brings everything back.
    assert!(TreeBuilder::toggle_node_by_index(0, &mut tree));
    assert!(shown(&tree).len() < names.len());
    assert!(TreeBuilder::toggle_node_by_index(0, &mut tree));
    assert_eq!(shown(&tree), wanted);
}

#[test]
fn toggling_a_leaf_changes_nothing() {
    let group = |name: &str, expanded: bool, children: Vec<TreeNode>| TreeNode::Group {
        name: name.to_string(),
        children,
        expanded,
        tensor_count: 0,
        params: 0,
        total_size: 0,
        stored_size: 0,
    };
    let leaf = TreeNode::Tensor {
        info: tensor("A.t"),
        label: None,
    };
    let mut nodes = vec![group("A", true, vec![leaf]), group("B", false, vec![])];
    // The row of `A.t` is no group, nor is there a fourth row.
    assert!(!TreeBuilder::toggle_node_by_index(1, &mut nodes));
    assert!(!TreeBuilder::toggle_node_by_index(3, &mut nodes));
    let open = |nodes: &Vec<TreeNode>| {
        nodes
            .iter()
            .map(|n| matches!(n, TreeNode::Group { expanded: true, .. }))
            .collect::<Vec<bool>>()
    };
    assert_eq!(open(&nodes), vec![true, false]);
    assert!(TreeBuilder::toggle_node_by_index(2, &mut nodes));
    assert_eq!(open(&nodes), vec![true, true]);
}

#[test]
fn everything_is_a_row_when_expanded_and_only_the_top_when_collapsed() {
    let tensors: Vec<TensorInfo> = ["a.b.c", "a.b.d", "a.e.f", "a.e.g", "h"]
        .iter()
        .map(|n| tensor(n))
        .collect();
    let mut tree = TreeBuilder::build_tree(&tensors);
    TreeBuilder::set_all_expanded(&mut tree, true);
    // The groups a, b and e, and the five tensors.
    assert_eq!(TreeBuilder::flatten_tree(&tree).len(), 8);
    TreeBuilder::set_all_expanded(&mut tree, false);
    assert_eq!(TreeBuilder::flatten_tree(&tree).len(), tree.len());
}

#[test]
fn the_smaller_number_comes_first() {
    for (a, b) in [(2, 10), (9, 10), (0, 1), (4294967294u32, 4294967295u32)] {
        for (p, q) in [("layers.", ".weight"), ("x1.y", ""), ("", "b")] {
            let (x, y) = (format!("{p}{a}{q}"), format!("{p}{b}{q}"));
            let sorted = sort_tensors(&[tensor(&y), tensor(&x)]);
            assert_eq!((&sorted[0].name, &sorted[1].name), (&x, &y));
        }
    }
}

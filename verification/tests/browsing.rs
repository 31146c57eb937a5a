//! Browsing a checkpoint: keys, screens, prompts and the commands that lead back.
use checkpoint_explorer::cli::{choose_task, resolve_paths, ExploreArgs, Task};
use checkpoint_explorer::dataview::{
    choose_wait, data_event, detail_event, stats_step, DataAction, DataFacts, DataState,
    DetailAction, HistogramScan, Overlays, Popup, ScanPhase, StatsStep, UiEvent, Wait,
};
use checkpoint_explorer::explorer::{Explorer, TreeAction};
use checkpoint_explorer::inputs::{
    parse_bins, parse_offset_pair, parse_shape_input, percent_text, shell_quote, split_scp, Percent,
};
use checkpoint_explorer::keys::{
    is_ctrl_c, layout_hint_msg, wrong_layout_char, KeyCode, KeyEvent, Modifiers,
};
use checkpoint_explorer::load::{landing, Landing};
use checkpoint_explorer::namemap::NameMap;
use checkpoint_explorer::open::{open_screen, OpenRequest, OpenView};
use checkpoint_explorer::prompts::{
    bins_entry, bins_key, buffer_key, menu_key, output_key, reshape_entry, reshape_key, Entry,
    Outcome, ReshapeChoice,
};
use checkpoint_explorer::screens::{DataLayout, History, Nav, Representation, Screen};
use checkpoint_explorer::session::{parse_tree_state, Session, TreeState};
use checkpoint_explorer::sample::ViewDtype;
use checkpoint_explorer::tree::{Layout, Storage, TensorInfo, TreeNode};
use fuzzy_matcher::skim::SkimMatcherV2;
use fuzzy_matcher::FuzzyMatcher;

/// What the percentage in a slice entry comes to.
fn percent(input: &str, slices: usize) -> Percent {
    let Some(text) = percent_text(input) else {
        return Percent::NotANumber;
    };
    match text.parse::<f64>() {
        Err(_) => Percent::NotANumber,
        Ok(p) if !(0.0..=100.0).contains(&p) => Percent::OutOfRange(format!("{p}")),
        Ok(p) => Percent::Share(((p / 100.0) * (slices - 1) as f64).round() as usize),
    }
}

fn parse_slice_input(input: &str, slices: usize) -> Result<Option<usize>, String> {
    checkpoint_explorer::inputs::parse_slice_input(input, slices, &percent(input, slices))
}

fn tensor(name: &str, shape: &[usize]) -> TensorInfo {
    TensorInfo {
        name: name.to_string(),
        dtype: "F32".to_string(),
        shape: shape.to_vec(),
        size_bytes: shape.iter().product::<usize>() * 4,
        num_elements: shape.iter().product(),
        storage: Storage::Unknown,
        source_path: "/d/m.safetensors".to_string(),
        layout: Layout::Untracked,
    }
}

fn explorer() -> Explorer {
    let mut e = Explorer::new(vec!["/d/m.safetensors".to_string()]);
    e.finalize_load(
        vec![
            tensor("model.a.weight", &[2, 3]),
            tensor("model.b.weight", &[4, 2, 3]),
            tensor("model.b.bias", &[3]),
        ],
        vec![],
    );
    e
}

fn session() -> Session {
    Session::new(NameMap::new())
}

fn request() -> OpenRequest {
    OpenRequest {
        tensor: None,
        metadata: None,
        view: OpenView::Detail,
        histogram: false,
        bins: None,
        dtype: None,
        layout: None,
        window_at: None,
        edge_split: None,
        zebra: None,
        base: None,
        slice: None,
        shape: None,
        compute_stats: false,
        tree_state: None,
        search: None,
        legend: false,
        exit_after: false,
    }
}

fn key(code: KeyCode) -> KeyEvent {
    KeyEvent::plain(code)
}

fn ctrl(c: char) -> KeyEvent {
    KeyEvent {
        code: KeyCode::Char(c),
        modifiers: Modifiers {
            shift: false,
            control: true,
            alt: false,
            other: false,
        },
    }
}

#[test]
fn wrong_layout_char_flags_only_plain_non_latin_letters() {
    let k = |c: char| key(KeyCode::Char(c));
    assert_eq!(wrong_layout_char(&k('м')), Some('м')); // Cyrillic (RU 'v')
    assert_eq!(wrong_layout_char(&k('ん')), Some('ん')); // Japanese
    assert_eq!(wrong_layout_char(&k('m')), None); // ASCII shortcut
    assert_eq!(wrong_layout_char(&k('/')), None); // ASCII punctuation
    assert_eq!(wrong_layout_char(&k('5')), None); // digit
                                                  // Ctrl/Alt combinations are intentional, not layout mistakes.
    assert_eq!(wrong_layout_char(&ctrl('м')), None);
    // A symbol that is no letter is none either.
    assert_eq!(wrong_layout_char(&k('→')), None);
    assert!(layout_hint_msg('м').contains('м'));
    assert!(is_ctrl_c(&ctrl('c')) && !is_ctrl_c(&k('c')));
}

#[test]
fn parse_slice_input_handles_indices_percentages_and_errors() {
    // Empty input cancels.
    assert_eq!(parse_slice_input("", 10), Ok(None));
    assert_eq!(parse_slice_input("   ", 10), Ok(None));

    // Absolute indices.
    assert_eq!(parse_slice_input("0", 10), Ok(Some(0)));
    assert_eq!(parse_slice_input("9", 10), Ok(Some(9)));
    assert!(parse_slice_input("10", 10).is_err()); // out of range (max 9)

    // Percentages: 0% -> first, 100% -> last, rounded to nearest in between.
    assert_eq!(parse_slice_input("0%", 360), Ok(Some(0)));
    assert_eq!(parse_slice_input("100%", 360), Ok(Some(359)));
    assert_eq!(parse_slice_input("50%", 360), Ok(Some(180))); // 0.5 * 359 = 179.5 -> 180
    assert_eq!(parse_slice_input("50%", 11), Ok(Some(5))); // 0.5 * 10 = 5
    assert_eq!(parse_slice_input("33.3%", 100), Ok(Some(33)));

    // Out-of-range / malformed percentages and numbers are reported.
    assert!(parse_slice_input("101%", 360).is_err());
    assert!(parse_slice_input("-5%", 360).is_err());
    assert!(parse_slice_input("abc", 360).is_err());
    assert!(parse_slice_input("%", 360).is_err());
}

#[test]
fn parse_shape_input_validates_and_infers() {
    // Explicit dims with assorted separators; product must match.
    assert_eq!(parse_shape_input("10, 100", 1000), Ok(vec![10, 100]));
    assert_eq!(parse_shape_input("2 3 4", 24), Ok(vec![2, 3, 4]));
    assert_eq!(parse_shape_input("4x5", 20), Ok(vec![4, 5]));
    // A single wildcard is inferred from the element count (`-1`, `*`, `_`).
    assert_eq!(parse_shape_input("-1, 100", 1000), Ok(vec![10, 100]));
    assert_eq!(parse_shape_input("100, *", 1000), Ok(vec![100, 10]));
    assert_eq!(parse_shape_input("_", 42), Ok(vec![42]));
    assert_eq!(parse_shape_input("2, _, 4", 24), Ok(vec![2, 3, 4]));
    // Errors: wrong product, non-divisible wildcard, two wildcards, zero, junk.
    assert!(parse_shape_input("10, 10", 1000).is_err());
    assert!(parse_shape_input("-1, 3", 1000).is_err()); // 1000 % 3 != 0
    assert!(parse_shape_input("-1, -1", 1000).is_err());
    assert!(parse_shape_input("0, 5", 0).is_err());
    assert!(parse_shape_input("", 10).is_err());
    assert!(parse_shape_input("abc", 10).is_err());
}

#[test]
fn splits_scp_style_paths_only() {
    assert_eq!(
        split_scp("net004:/opt/models/m"),
        Some(("net004".into(), "/opt/models/m".into()))
    );
    assert_eq!(
        split_scp("lab@host:rel/path"),
        Some(("lab@host".into(), "rel/path".into()))
    );
    // local paths and s3 URIs are not scp targets
    assert_eq!(split_scp("/opt/models/m"), None);
    assert_eq!(split_scp("./model.safetensors"), None);
    assert_eq!(split_scp("s3://bucket/key"), None);
    assert_eq!(split_scp("dir/a:b"), None); // colon after a slash → local
}

#[test]
fn numbers_and_pairs_are_read() {
    assert_eq!(parse_bins("16"), Ok(16));
    assert!(parse_bins("0").is_err());
    assert!(parse_bins("x").is_err());
    assert_eq!(parse_offset_pair("3,4"), Ok((3, 4)));
    assert!(parse_offset_pair("3").is_err());
    assert_eq!(shell_quote("plain"), "plain");
    assert_eq!(shell_quote("it's"), "'it'\\''s'");
}

/// Build an explorer whose flattened tree has the given row depths (the
/// node contents don't matter for coarse navigation, only the depths).
fn explorer_with_depths(depths: &[usize]) -> Explorer {
    let mut e = Explorer::new(Vec::new());
    e.flattened_tree = depths
        .iter()
        .map(|&d| {
            (
                TreeNode::Group {
                    name: String::new(),
                    children: Vec::new(),
                    expanded: false,
                    tensor_count: 0,
                    params: 0,
                    total_size: 0,
                    stored_size: 0,
                },
                d,
            )
        })
        .collect();
    e
}

// Depths:  0:0  1:1  2:1  3:2  4:1  5:0
#[test]
fn move_to_parent_jumps_to_the_nearest_shallower_row() {
    let mut e = explorer_with_depths(&[0, 1, 1, 2, 1, 0]);

    e.selected_idx = 3;
    e.move_to_parent();
    assert_eq!(e.selected_idx, 2);

    e.selected_idx = 1;
    e.move_to_parent();
    assert_eq!(e.selected_idx, 0);

    // Top-level row has no parent.
    e.selected_idx = 0;
    e.move_to_parent();
    assert_eq!(e.selected_idx, 0);
}

#[test]
fn move_to_sibling_skips_descendants_and_stops_at_the_parent_boundary() {
    let mut e = explorer_with_depths(&[0, 1, 1, 2, 1, 0]);

    // Forward from idx2 (depth 1) skips the descendant idx3 (depth 2).
    e.selected_idx = 2;
    e.move_to_sibling(true);
    assert_eq!(e.selected_idx, 4);

    // Forward from idx4: the next row (idx5) is shallower, so no sibling.
    e.selected_idx = 4;
    e.move_to_sibling(true);
    assert_eq!(e.selected_idx, 4);

    // Backward from idx4 lands on idx2, skipping idx3.
    e.selected_idx = 4;
    e.move_to_sibling(false);
    assert_eq!(e.selected_idx, 2);
}

fn group(depth: usize, expanded: bool, child: bool) -> (TreeNode, usize) {
    let children = if child {
        vec![TreeNode::Group {
            name: String::new(),
            children: Vec::new(),
            expanded: false,
            tensor_count: 0,
            params: 0,
            total_size: 0,
            stored_size: 0,
        }]
    } else {
        Vec::new()
    };
    (
        TreeNode::Group {
            name: String::new(),
            children,
            expanded,
            tensor_count: 0,
            params: 0,
            total_size: 0,
            stored_size: 0,
        },
        depth,
    )
}

#[test]
fn move_to_first_child_enters_an_expanded_group() {
    let mut e = Explorer::new(Vec::new());
    // idx0: expanded group with a child; idx1: that child (depth 1);
    // idx2: a childless group at depth 0.
    e.flattened_tree = vec![
        group(0, true, true),
        group(1, false, false),
        group(0, false, false),
    ];

    e.selected_idx = 0;
    e.move_to_first_child();
    assert_eq!(e.selected_idx, 1);

    // A group with no children does not move.
    e.selected_idx = 2;
    e.move_to_first_child();
    assert_eq!(e.selected_idx, 2);
}

#[test]
fn one_matcher_scores_all_names_of_a_search() {
    let mut e = Explorer::new(vec!["/d/m.safetensors".to_string()]);
    let mut tensors = Vec::new();
    for layer in 0..4 {
        for part in ["self_attn.q_proj", "mlp.gateUpProj", "aab_aabb", "attn-Att.ttn", "abab.b"] {
            for leaf in ["weight", "bias_a", "W.aabbt"] {
                tensors.push(tensor(&format!("model.{layer}.{part}.{leaf}"), &[2]));
            }
        }
    }
    e.finalize_load(tensors, Vec::new());
    let mut apart = false;
    for query in ["ab", "aab", "att", "bb", "attn", "aabb", "prow", "up", "tt", "weig"] {
        let shared = SkimMatcherV2::default();
        let mut want: Vec<(&str, i64)> = Vec::new();
        for t in &e.tensors {
            let score = shared.fuzzy_match(&t.name, query);
            apart = apart || score != SkimMatcherV2::default().fuzzy_match(&t.name, query);
            if let Some(s) = score {
                want.push((&t.name, s));
            }
        }
        want.sort_by_key(|w| std::cmp::Reverse(w.1));
        let want: Vec<String> = want.iter().map(|w| w.0.to_string()).collect();
        e.open_search(query);
        let got: Vec<String> = e
            .filtered_tree
            .iter()
            .map(|r| r.0.name().to_string())
            .collect();
        assert_eq!(got, want);
        e.exit_search_mode();
    }
    // What a name scores can depend on the names before it.
    assert!(apart);
}

#[test]
fn searching_finds_and_reveals() {
    let mut e = explorer();
    e.open_search("bbias");
    assert_eq!(e.filtered_tree.len(), 1);
    assert_eq!(e.filtered_tree[0].0.name(), "model.b.bias");
    e.open_search("zzz");
    assert_eq!(e.filtered_tree.len(), 0);
    e.open_search("");
    assert!(e.search_mode);
    e.exit_search_mode();
    assert!(!e.search_mode);
    e.reveal_tensor("model.b.bias");
    assert_eq!(
        e.flattened_tree[e.selected_idx].0.name(),
        "model.b.bias"
    );
}

#[test]
fn tree_keys_move_open_and_leave() {
    let mut e = explorer();
    e.reveal_tensor("model.a.weight");
    match e.tree_key(&key(KeyCode::Enter), 10) {
        TreeAction::Open(Screen::Detail { tensor, slice }) => {
            assert_eq!(tensor, "model.a.weight");
            assert_eq!(slice, 0);
        }
        other => panic!("{other:?}"),
    }
    assert!(matches!(
        e.tree_key(&key(KeyCode::Char('q')), 10),
        TreeAction::Quit
    ));
    assert!(matches!(
        e.tree_key(&key(KeyCode::Char('м')), 10),
        TreeAction::Hint('м')
    ));
    assert!(matches!(
        e.tree_key(&key(KeyCode::Char('/')), 10),
        TreeAction::Stay
    ));
    assert!(e.search_mode);
}

#[test]
fn histories_go_back_and_forward() {
    let mut h = History::new(None);
    assert!(matches!(h.current(), Screen::Tree));
    assert!(h.follow(Nav::Open(Screen::Detail {
        tensor: "w".to_string(),
        slice: 0
    })));
    assert!(matches!(h.current(), Screen::Detail { .. }));
    assert!(h.follow(Nav::Back));
    assert!(matches!(h.current(), Screen::Tree));
    assert!(h.follow(Nav::Forward));
    assert!(matches!(h.current(), Screen::Detail { .. }));
    assert!(h.follow(Nav::Back));
    match landing(&h, Some("w".to_string())) {
        Landing::TreeAt(name) => assert_eq!(name, "w"),
        other => panic!("{other:?}"),
    }
    assert!(!h.follow(Nav::Quit));
}

#[test]
fn popups_guard_the_screens() {
    let mut o = Overlays {
        popup: Popup::Closed,
        hint: None,
        copied: true,
    };
    let press = |c: char| UiEvent::Key(key(KeyCode::Char(c)));
    assert_eq!(
        detail_event(&mut o, &press('l'), true),
        DetailAction::ShowLegend
    );
    assert_eq!(o.popup, Popup::Legend);
    assert!(!o.copied);
    assert_eq!(
        detail_event(&mut o, &UiEvent::Motion, true),
        DetailAction::Stay
    );
    assert_eq!(
        detail_event(&mut o, &press('h'), true),
        DetailAction::Dismiss
    );
    assert_eq!(o.popup, Popup::Closed);
    assert_eq!(
        detail_event(&mut o, &UiEvent::Key(ctrl('c')), true),
        DetailAction::QuitNow
    );
    assert_eq!(
        choose_wait(Popup::Legend, true, None),
        Wait::WhileScanning { pause: false }
    );
    assert_eq!(choose_wait(Popup::Closed, false, Some(0)), Wait::EndCopied);
    assert_eq!(
        choose_wait(Popup::Closed, false, Some(7)),
        Wait::AtMost(7)
    );
}

#[test]
fn data_views_step_through_slices() {
    let mut o = Overlays {
        popup: Popup::Closed,
        hint: None,
        copied: false,
    };
    let mut d = DataState {
        repr: Representation::Values,
        slice: 0,
    };
    let mut s = session();
    let facts = DataFacts {
        slices: 4,
        overridable: true,
        layout: DataLayout::Overview,
    };
    assert_eq!(
        data_event(&mut o, &mut d, &mut s, &UiEvent::WheelDown, facts),
        DataAction::Stay
    );
    assert_eq!(d.slice, 1);
    data_event(&mut o, &mut d, &mut s, &UiEvent::WheelUp, facts);
    assert_eq!(d.slice, 0);
    data_event(
        &mut o,
        &mut d,
        &mut s,
        &UiEvent::Key(key(KeyCode::Char('l'))),
        facts,
    );
    assert_eq!(o.popup, Popup::Legend);
    data_event(&mut o, &mut d, &mut s, &UiEvent::WheelDown, facts);
    assert_eq!(d.slice, 0);
}

#[test]
fn histogram_scans_survive_popups() {
    let mut scan = HistogramScan::new();
    assert!(!scan.key(&key(KeyCode::Char('l'))));
    assert_eq!(scan.popup, Popup::Legend);
    scan.end(true);
    assert_eq!(scan.phase, ScanPhase::Lingering);
    scan.key(&key(KeyCode::Esc));
    assert_eq!(scan.phase, ScanPhase::Kept);
    let mut scan = HistogramScan::new();
    scan.key(&key(KeyCode::Esc));
    assert_eq!(scan.phase, ScanPhase::Dropped);
    scan.end(true);
    assert_eq!(scan.phase, ScanPhase::Dropped);
    let mut scan = HistogramScan::new();
    scan.end(false);
    assert_eq!(scan.phase, ScanPhase::Failed);
    assert!(scan.key(&ctrl('c')));
    assert_eq!(
        stats_step(false, false, 0, Some(key(KeyCode::Enter))),
        StatsStep::Cancelled
    );
    assert_eq!(stats_step(false, false, 500, None), StatsStep::Show);
    assert_eq!(stats_step(true, false, 500, None), StatsStep::Completed);
}

#[test]
fn prompts_accept_correct_and_cancel() {
    let mut e = reshape_entry(Some(&vec![2, 3]));
    assert!(matches!(
        reshape_key(&mut e, &key(KeyCode::Enter), 6),
        Outcome::Done(ReshapeChoice::Apply(v)) if v == vec![2, 3]
    ));
    let mut e = Entry::new("7".to_string());
    assert!(matches!(
        reshape_key(&mut e, &key(KeyCode::Enter), 6),
        Outcome::Stay
    ));
    assert!(e.error.is_some());
    assert!(matches!(
        reshape_key(&mut e, &key(KeyCode::Esc), 6),
        Outcome::Cancel
    ));
    let mut e = bins_entry(Some(8));
    assert!(matches!(
        bins_key(&mut e, &key(KeyCode::Enter)),
        Outcome::Done(Some(8))
    ));
    let mut e = Entry::new("out.h5".to_string());
    assert!(matches!(
        output_key(&mut e, &key(KeyCode::Enter), true),
        Outcome::Stay
    ));
    let mut e = Entry::new("256M".to_string());
    assert!(matches!(
        buffer_key(&mut e, &key(KeyCode::Enter), &Ok(256 << 20)),
        Outcome::Done(n) if n == 256 << 20
    ));
    assert_eq!(menu_key(0, 4, &key(KeyCode::Left), None, None).0, 3);
    assert!(matches!(
        menu_key(2, 4, &key(KeyCode::Enter), None, None).1,
        Outcome::Done(2)
    ));
}

#[test]
fn requests_open_their_screens() {
    let mut e = explorer();
    let mut s = session();
    let mut req = request();
    req.tensor = Some("model.b.weight".to_string());
    req.view = OpenView::Values;
    req.slice = Some("2".to_string());
    let i = e.open_target(&req).unwrap().unwrap();
    let t = e.tensors[i].clone();
    let slices = s.apply_request(&t, &req).unwrap();
    assert_eq!(slices, 4);
    match open_screen(&mut e, &mut s, &t.name, &req, slices, &Percent::NotANumber).unwrap() {
        Some(Screen::Data {
            tensor,
            repr,
            slice,
        }) => {
            assert_eq!(tensor, "model.b.weight");
            assert_eq!(repr, Representation::Values);
            assert_eq!(slice, 2);
        }
        other => panic!("{other:?}"),
    }
    req.tensor = Some("nowhere".to_string());
    assert!(e.open_target(&req).is_err());
    req.tensor = Some("model.b.weight".to_string());
    req.shape = Some("7,7".to_string());
    assert!(s.apply_request(&t, &req).is_err());
}

#[test]
fn commands_name_what_is_shown() {
    let e = explorer();
    let mut s = session();
    let t = tensor("model.b.weight", &[4, 2, 3]);
    let c = e.command_for_data(&s, &t, Representation::Heatmap, 3);
    assert!(c.starts_with("checkpoint-explorer /d/m.safetensors"), "{c}");
    assert!(c.contains("model.b.weight"), "{c}");
    assert!(c.contains("3"), "{c}");
    s.set_shape("model.b.weight", vec![6, 4]);
    let c = e.command_for_detail(&s, &t, true, false);
    assert!(c.contains("6,4"), "{c}");
    s.clear_shape("model.b.weight");
    s.set_view("model.b.weight", ViewDtype::As("U8"), Some("u8".to_string()));
    assert_eq!(s.active_view("model.b.weight"), ViewDtype::As("U8"));
    let screen = Screen::Detail {
        tensor: "model.b.weight".to_string(),
        slice: 0,
    };
    let c = e.reopen_command(&s, &screen, false, true);
    assert!(c.contains("model.b.weight"), "{c}");
    assert!(c.contains("u8"), "{c}");
}

fn args() -> ExploreArgs {
    ExploreArgs {
        tensor: None,
        metadata: None,
        values: false,
        heatmap: false,
        tree: false,
        dtype: None,
        window: None,
        edge: None,
        overview: false,
        zebra: None,
        base: None,
        slice: None,
        shape: None,
        compute_stats: false,
        histogram: false,
        bins: None,
        tree_state: None,
        search: None,
        legend: false,
        exit: false,
    }
}

#[test]
fn command_lines_become_requests() {
    assert!(args().open_request().unwrap().is_none());
    let mut a = args();
    a.tensor = Some("w".to_string());
    a.heatmap = true;
    a.window = Some("3,4".to_string());
    let r = a.open_request().unwrap().unwrap();
    assert_eq!(r.view, OpenView::Heatmap);
    assert_eq!(r.window_at, Some((3, 4)));
    let mut a = args();
    a.tensor = Some("w".to_string());
    a.window = Some("x".to_string());
    assert!(a.open_request().is_err());
    assert_eq!(choose_task(true, false, false, false), Task::PrintTree);
    assert_eq!(choose_task(false, false, false, false), Task::Browse);
    assert_eq!(
        parse_tree_state("collapsed"),
        Ok(TreeState::Collapsed)
    );
    assert!(parse_tree_state("x").is_err());
    let (paths, host) = resolve_paths(vec!["lab:/m".to_string()], None).unwrap();
    assert_eq!(paths, ["/m"]);
    assert_eq!(host.as_deref(), Some("lab"));
    assert!(resolve_paths(vec!["a:/m".to_string(), "b:/m".to_string()], None).is_err());
}

#[test]
fn an_empty_stack_has_no_slice_to_go_to() {
    assert_eq!(checkpoint_explorer::open::count_slices(&vec![0, 2, 3]), 0);
    assert_eq!(checkpoint_explorer::open::count_slices(&vec![4, 2, 1, 3]), 4);
    assert_eq!(checkpoint_explorer::open::count_slices(&vec![2, 3]), 1);
    let read = |s: &str| {
        checkpoint_explorer::inputs::parse_slice_input(
            s,
            0,
            &checkpoint_explorer::inputs::Percent::Share(0),
        )
    };
    assert_eq!(read(""), Ok(None));
    assert_eq!(read("0"), Err("the tensor has no slices".to_string()));
    assert_eq!(read("50%"), Err("the tensor has no slices".to_string()));
}

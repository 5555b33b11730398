use osu_unplayed::osu::OsuBeatmapGrade;
use osu_unplayed::osu::OsuBeatmapStatus;
use osu_unplayed::pathtree_stylizer::PathTreeStylized;

fn path(segments: &[&str]) -> Vec<String> {
    segments.iter().map(|s| s.to_string()).collect()
}

fn demo_pairs() -> Vec<(Vec<String>, OsuBeatmapStatus)> {
    vec![
        (path(&["A", "1.osz"]), OsuBeatmapStatus::NotInstalled),
        (path(&["A", "2.osz"]), OsuBeatmapStatus::Played(OsuBeatmapGrade::S)),
        (path(&["B", "3.osz"]), OsuBeatmapStatus::NotPlayed),
    ]
}

#[test]
fn scenario_three_pairs_aggregate_and_order() {
    let mut tree = PathTreeStylized::from_pairs(&demo_pairs());
    tree.fill_data_greatest();
    assert_eq!(tree.children().len(), 2);
    assert_eq!(tree.children()[0].segment(), "A");
    assert_eq!(tree.children()[1].segment(), "B");
    // A aggregates to the best of its children, B resolves to NotPlayed.
    assert_eq!(
        tree.children()[0].data(),
        Some(OsuBeatmapStatus::Played(OsuBeatmapGrade::S))
    );
    assert_eq!(tree.children()[1].data(), Some(OsuBeatmapStatus::NotPlayed));
    // The root itself aggregates to the best status below it.
    assert_eq!(tree.data(), Some(OsuBeatmapStatus::Played(OsuBeatmapGrade::S)));
    tree.sort();
    // Ascending: NotPlayed ranks below Played(S), so B comes first.
    assert_eq!(tree.children()[0].segment(), "B");
    assert_eq!(tree.children()[1].segment(), "A");
    tree.reverse();
    // After the reversal A (played) comes before B (pending).
    assert_eq!(tree.children()[0].segment(), "A");
    assert_eq!(tree.children()[1].segment(), "B");
}

#[test]
fn scenario_empty_input_renders_one_line() {
    let tree = PathTreeStylized::from_pairs(&vec![]);
    assert_eq!(tree.children().len(), 0);
    assert_eq!(tree.data(), None);
    assert_eq!(tree.segment(), "");
    let rendered = tree.printable_string();
    assert_eq!(rendered, "-  +=> \n");
    assert_eq!(rendered.matches('\n').count(), 1);
}

#[test]
fn scenario_duplicate_path_last_write_wins() {
    let mut tree = PathTreeStylized::from_pairs(&vec![]);
    tree.add_child(&path(&["A", "1.osz"]), OsuBeatmapStatus::NotPlayed);
    tree.add_child(
        &path(&["A", "1.osz"]),
        OsuBeatmapStatus::Played(OsuBeatmapGrade::SS),
    );
    assert_eq!(tree.children().len(), 1);
    let a = &tree.children()[0];
    assert_eq!(a.children().len(), 1);
    assert_eq!(
        a.children()[0].data(),
        Some(OsuBeatmapStatus::Played(OsuBeatmapGrade::SS))
    );
}

#[test]
fn insertion_order_does_not_change_the_tree() {
    let mut forward = PathTreeStylized::from_pairs(&demo_pairs());
    let mut pairs = demo_pairs();
    pairs.reverse();
    let mut backward = PathTreeStylized::from_pairs(&pairs);
    forward.fill_data_greatest();
    backward.fill_data_greatest();
    forward.sort();
    backward.sort();
    // After sorting, the same set of pairs renders identically whatever the
    // insertion order was.
    assert_eq!(forward.printable_string(), backward.printable_string());
}

#[test]
fn aggregation_is_idempotent() {
    let mut once = PathTreeStylized::from_pairs(&demo_pairs());
    once.fill_data_greatest();
    let mut twice = PathTreeStylized::from_pairs(&demo_pairs());
    twice.fill_data_greatest();
    twice.fill_data_greatest();
    assert_eq!(once.printable_string(), twice.printable_string());
}

#[test]
fn aggregation_keeps_direct_statuses() {
    let mut tree = PathTreeStylized::from_pairs(&vec![
        (path(&["A"]), OsuBeatmapStatus::Played(OsuBeatmapGrade::D)),
        (path(&["A", "b"]), OsuBeatmapStatus::Played(OsuBeatmapGrade::SS)),
    ]);
    tree.fill_data_greatest();
    // A was located itself, so aggregation must not overwrite its status.
    assert_eq!(
        tree.children()[0].data(),
        Some(OsuBeatmapStatus::Played(OsuBeatmapGrade::D))
    );
}

#[test]
fn sort_orders_siblings_by_status_then_segment() {
    let mut tree = PathTreeStylized::from_pairs(&vec![
        (path(&["b"]), OsuBeatmapStatus::NotPlayed),
        (path(&["a"]), OsuBeatmapStatus::NotPlayed),
        (path(&["c"]), OsuBeatmapStatus::NotInstalled),
    ]);
    tree.sort();
    // NotInstalled ranks lowest; the NotPlayed tie breaks on the segment.
    assert_eq!(tree.children()[0].segment(), "c");
    assert_eq!(tree.children()[1].segment(), "a");
    assert_eq!(tree.children()[2].segment(), "b");
    tree.reverse();
    assert_eq!(tree.children()[0].segment(), "b");
    assert_eq!(tree.children()[1].segment(), "a");
    assert_eq!(tree.children()[2].segment(), "c");
}

#[test]
fn rendering_emits_one_line_per_node() {
    let mut tree = PathTreeStylized::from_pairs(&demo_pairs());
    tree.fill_data_greatest();
    tree.sort();
    // Six nodes: the root, A, B, and the three leaves.
    assert_eq!(tree.printable_string().matches('\n').count(), 6);
}

#[test]
fn rendering_draws_connectors_and_statuses() {
    let mut tree = PathTreeStylized::from_pairs(&demo_pairs());
    tree.fill_data_greatest();
    tree.sort();
    tree.reverse();
    let expected = "-  +=> Played(S)\n  `- A +=> Played(S)\n      |- 2.osz +=> Played(S)\n      |- 1.osz +=> NotInstalled\n  `- B +=> NotPlayed\n      `- 3.osz +=> NotPlayed\n";
    assert_eq!(tree.printable_string(), expected);
}

#[test]
fn set_colors_wraps_status_and_structural_text() {
    let mut tree = PathTreeStylized::from_pairs(&vec![
        (path(&["n"]), OsuBeatmapStatus::Played(OsuBeatmapGrade::S)),
    ]);
    tree.set_colors(
        Some(vec![(
            OsuBeatmapStatus::Played(OsuBeatmapGrade::S),
            ("<g>".to_string(), "</g>".to_string()),
        )]),
        Some(("<b>".to_string(), "</b>".to_string())),
    );
    let expected = "<b>-  +=> </b>\n<b>  `- n +=> </b><g>Played(S)</g>\n";
    assert_eq!(tree.printable_string(), expected);
}

#[test]
fn a_status_without_color_entry_renders_bare() {
    let mut tree = PathTreeStylized::from_pairs(&vec![
        (path(&["n"]), OsuBeatmapStatus::NotPlayed),
    ]);
    tree.set_colors(
        Some(vec![(
            OsuBeatmapStatus::Played(OsuBeatmapGrade::S),
            ("<g>".to_string(), "</g>".to_string()),
        )]),
        None,
    );
    let rendered = tree.printable_string();
    assert!(rendered.contains("- n +=> NotPlayed\n"));
    assert!(!rendered.contains("<g>"));
}

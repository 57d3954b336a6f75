use sidebar::layout_tree::{
    layout_after_sidebar_remove, layout_checksum, parse_layout, proportional_lengths, prune_pane, reflow,
    reflow_after_sidebar_add, scale_axis, serialize_layout, sidebar_layout_size_for_status, Axis, LayoutNode, Rect,
};
use sidebar::model::SidebarPosition;

fn scale_width(node: &mut LayoutNode, new_w: u16, new_x: u16) {
    scale_axis(node, Axis::Horizontal, new_w, new_x);
}

fn scale_height(node: &mut LayoutNode, new_h: u16, new_y: u16) {
    scale_axis(node, Axis::Vertical, new_h, new_y);
}

fn rect(w: u16, h: u16, x: u16, y: u16) -> Rect {
    Rect { w, h, x, y }
}

fn leaf(w: u16, h: u16, x: u16, y: u16, pane_id: u32) -> LayoutNode {
    LayoutNode::Leaf {
        rect: rect(w, h, x, y),
        pane_id,
    }
}

fn hsplit(w: u16, h: u16, x: u16, y: u16, children: Vec<LayoutNode>) -> LayoutNode {
    LayoutNode::HSplit {
        rect: rect(w, h, x, y),
        children,
    }
}

fn vsplit(w: u16, h: u16, x: u16, y: u16, children: Vec<LayoutNode>) -> LayoutNode {
    LayoutNode::VSplit {
        rect: rect(w, h, x, y),
        children,
    }
}

#[test]
fn top_sidebar_reserves_a_row_for_top_pane_status() {
    assert_eq!(
        sidebar_layout_size_for_status(SidebarPosition::Top, 3, "top"),
        4
    );
}

#[test]
fn sidebar_size_ignores_non_reserving_pane_statuses() {
    for status in ["off", "bottom", "top-floating", "bottom-floating"] {
        assert_eq!(
            sidebar_layout_size_for_status(SidebarPosition::Top, 3, status),
            3
        );
    }
    assert_eq!(
        sidebar_layout_size_for_status(SidebarPosition::Left, 3, "top"),
        3
    );
}

#[test]
fn pane_status_compensation_saturates() {
    assert_eq!(
        sidebar_layout_size_for_status(SidebarPosition::Top, u16::MAX, "top"),
        u16::MAX
    );
}

#[test]
fn test_parse_single_pane() {
    let layout = "1234,80x24,0,0,42";
    let node = parse_layout(layout).unwrap();
    assert_eq!(
        node,
        LayoutNode::Leaf {
            rect: Rect {
                w: 80,
                h: 24,
                x: 0,
                y: 0
            },
            pane_id: 42,
        }
    );
}

#[test]
fn test_parse_hsplit() {
    // Two panes side by side: 40+39=79, +1 separator = 80
    let layout = "abcd,80x24,0,0{40x24,0,0,1,39x24,41,0,2}";
    let node = parse_layout(layout).unwrap();
    match node {
        LayoutNode::HSplit { rect, children } => {
            assert_eq!(rect.w, 80);
            assert_eq!(children.len(), 2);
            assert_eq!(children[0].width(), 40);
            assert_eq!(children[1].width(), 39);
        }
        _ => panic!("expected HSplit"),
    }
}

#[test]
fn test_parse_vsplit() {
    // Two panes stacked: 12+11=23, +1 separator = 24
    let layout = "abcd,80x24,0,0[80x12,0,0,1,80x11,0,13,2]";
    let node = parse_layout(layout).unwrap();
    match node {
        LayoutNode::VSplit { rect, children } => {
            assert_eq!(rect.h, 24);
            assert_eq!(children.len(), 2);
            assert_eq!(children[0].rect().h, 12);
            assert_eq!(children[1].rect().h, 11);
        }
        _ => panic!("expected VSplit"),
    }
}

#[test]
fn test_parse_nested() {
    // Real layout from tmux: HSplit containing [VSplit, Leaf]
    let layout = "123a,186x44,0,0{93x44,0,0[93x22,0,0,1189,93x21,0,23,1394],92x44,94,0,1387}";
    let node = parse_layout(layout).unwrap();
    match node {
        LayoutNode::HSplit { children, .. } => {
            assert_eq!(children.len(), 2);
            // First child is a VSplit
            match &children[0] {
                LayoutNode::VSplit { children: vc, .. } => {
                    assert_eq!(vc.len(), 2);
                }
                _ => panic!("expected VSplit as first child"),
            }
            // Second child is a Leaf
            assert!(matches!(
                &children[1],
                LayoutNode::Leaf { pane_id: 1387, .. }
            ));
        }
        _ => panic!("expected HSplit"),
    }
}

/// Parse and serialize every real layout, verify exact roundtrip.
#[test]
fn test_roundtrip_real_layouts() {
    // Real layouts captured from a live tmux session
    let layouts = [
        // HSplit with nested VSplit
        "9d0a,373x79,0,0{205x79,0,0[205x39,0,0,1070,205x39,0,40,1073],167x79,206,0,1072}",
        // Simple HSplit (2 panes)
        "6804,373x79,0,0{205x79,0,0,1075,167x79,206,0,1077}",
        "1bd3,373x79,0,0{242x79,0,0,510,130x79,243,0,532}",
        "f6ce,373x79,0,0{211x79,0,0,509,161x79,212,0,986}",
        "7e05,373x79,0,0{205x79,0,0,988,167x79,206,0,989}",
        "37ce,373x79,0,0{221x79,0,0,521,151x79,222,0,528}",
        // HSplit where second child is a VSplit
        "c6bc,373x79,0,0{212x79,0,0,634,160x79,213,0[160x20,213,0,636,160x58,213,21,637]}",
        // Single pane
        "f64a,373x79,0,0,640",
        "f652,373x79,0,0,648",
        "f651,373x79,0,0,666",
        // Smaller terminal layouts
        "ec38,373x79,0,0,67",
        // Complex: HSplit with two nested VSplits
        "0e04,186x44,0,0{100x44,0,0[100x21,0,0,980,100x22,0,22,817],85x44,101,0[85x21,101,0,985,85x22,101,22,1169]}",
        // HSplit with leaf + nested VSplit
        "f910,186x44,0,0{91x44,0,0,350,94x44,92,0[94x21,92,0,512,94x22,92,22,1074]}",
        "123a,186x44,0,0{93x44,0,0[93x22,0,0,1189,93x21,0,23,1394],92x44,94,0,1387}",
        // 3 children at root (sidebar + 2 content panes)
        "7fb5,186x44,0,0{25x44,0,0,1395,91x44,26,0,1196,68x44,118,0,1307}",
        "184f,186x44,0,0,1396",
    ];

    for layout in layouts {
        let node =
            parse_layout(layout).unwrap_or_else(|| panic!("failed to parse: {}", layout));
        let result = serialize_layout(&node);
        assert_eq!(result, layout, "roundtrip failed");
    }
}

#[test]
fn test_checksum_known_values() {
    // Verify checksum against multiple real tmux layouts
    let cases = [
        (
            "373x79,0,0{205x79,0,0[205x39,0,0,1070,205x39,0,40,1073],167x79,206,0,1072}",
            "9d0a",
        ),
        ("373x79,0,0{205x79,0,0,1075,167x79,206,0,1077}", "6804"),
        ("373x79,0,0,640", "f64a"),
        (
            "186x44,0,0{93x44,0,0[93x22,0,0,1189,93x21,0,23,1394],92x44,94,0,1387}",
            "123a",
        ),
    ];
    for (body, expected_hex) in cases {
        let expected = u16::from_str_radix(expected_hex, 16).unwrap();
        assert_eq!(
            layout_checksum(body),
            expected,
            "checksum mismatch for: {}",
            body
        );
    }
}

#[test]
fn test_scale_width_leaf() {
    let mut node = LayoutNode::Leaf {
        rect: Rect {
            w: 100,
            h: 50,
            x: 0,
            y: 0,
        },
        pane_id: 1,
    };
    scale_width(&mut node, 80, 10);
    assert_eq!(node.rect().w, 80);
    assert_eq!(node.rect().x, 10);
    assert_eq!(node.rect().h, 50); // height unchanged
}

#[test]
fn test_scale_width_hsplit_proportional() {
    // HSplit 200 wide: children 100+99=199, 1 separator
    let mut node = LayoutNode::HSplit {
        rect: Rect {
            w: 200,
            h: 50,
            x: 0,
            y: 0,
        },
        children: vec![
            LayoutNode::Leaf {
                rect: Rect {
                    w: 100,
                    h: 50,
                    x: 0,
                    y: 0,
                },
                pane_id: 1,
            },
            LayoutNode::Leaf {
                rect: Rect {
                    w: 99,
                    h: 50,
                    x: 101,
                    y: 0,
                },
                pane_id: 2,
            },
        ],
    };

    // Scale to 150 wide, starting at x=30
    scale_width(&mut node, 150, 30);

    assert_eq!(node.rect().w, 150);
    assert_eq!(node.rect().x, 30);
    // Available for children: 150 - 1 separator = 149
    // Old total: 199. Scale factor = 149/199
    // Child 1: round(100 * 149/199) = round(74.87) = 75
    // Child 2: 149 - 75 = 74
    let children = match &node {
        LayoutNode::HSplit { children, .. } => children,
        _ => panic!(),
    };
    assert_eq!(children[0].width(), 75);
    assert_eq!(children[1].width(), 74);
    // x positions: child 0 at 30, child 1 at 30+75+1=106
    assert_eq!(children[0].rect().x, 30);
    assert_eq!(children[1].rect().x, 106);
}

#[test]
fn test_scale_width_vsplit() {
    let mut node = vsplit(
        100,
        50,
        0,
        0,
        vec![leaf(100, 24, 0, 0, 1), leaf(100, 25, 0, 25, 2)],
    );

    scale_width(&mut node, 80, 20);

    // Both children should get the same new width
    let children = match &node {
        LayoutNode::VSplit { children, .. } => children,
        _ => panic!(),
    };
    assert_eq!(children[0].width(), 80);
    assert_eq!(children[1].width(), 80);
    assert_eq!(children[0].rect().x, 20);
    assert_eq!(children[1].rect().x, 20);
    // Heights unchanged
    assert_eq!(children[0].rect().h, 24);
    assert_eq!(children[1].rect().h, 25);
}

#[test]
fn test_scale_height_vsplit_proportional() {
    let mut node = vsplit(
        100,
        50,
        0,
        0,
        vec![leaf(100, 24, 0, 0, 1), leaf(100, 25, 0, 25, 2)],
    );

    scale_height(&mut node, 40, 5);

    let children = match &node {
        LayoutNode::VSplit { children, .. } => children,
        _ => panic!(),
    };
    assert_eq!(children[0].rect().h + children[1].rect().h + 1, 40);
    assert_eq!(children[0].rect().y, 5);
    assert_eq!(children[1].rect().y, 25);
    assert_eq!(children[0].width(), 100);
    assert_eq!(children[1].width(), 100);
}

#[test]
fn test_scale_height_hsplit() {
    let mut node = LayoutNode::HSplit {
        rect: Rect {
            w: 100,
            h: 50,
            x: 0,
            y: 0,
        },
        children: vec![
            LayoutNode::Leaf {
                rect: Rect {
                    w: 49,
                    h: 50,
                    x: 0,
                    y: 0,
                },
                pane_id: 1,
            },
            LayoutNode::Leaf {
                rect: Rect {
                    w: 50,
                    h: 50,
                    x: 50,
                    y: 0,
                },
                pane_id: 2,
            },
        ],
    };

    scale_height(&mut node, 40, 5);

    let children = match &node {
        LayoutNode::HSplit { children, .. } => children,
        _ => panic!(),
    };
    assert_eq!(children[0].rect().h, 40);
    assert_eq!(children[1].rect().h, 40);
    assert_eq!(children[0].rect().y, 5);
    assert_eq!(children[1].rect().y, 5);
    assert_eq!(children[0].width(), 49);
    assert_eq!(children[1].width(), 50);
}

/// Simulate what reflow_after_sidebar_add does: sidebar + content VSplit.
#[test]
fn test_scale_sidebar_plus_vsplit_content() {
    // Layout after split-window -hbf: {sidebar(35), content_vsplit(150)}
    // Window is 186 wide: 35 + 1 separator + 150 = 186
    let layout =
        "0000,186x44,0,0{35x44,0,0,999,150x44,36,0[150x22,36,0,1189,150x21,36,23,1394]}";
    let mut root = parse_layout(layout).unwrap();

    if let LayoutNode::HSplit { children, .. } = &mut root {
        // Scale content to fill remaining: 186 - 35 - 1 = 150 (already correct here)
        let content_w = 186u16.saturating_sub(35).saturating_sub(1);
        scale_width(&mut children[1], content_w, 36);

        assert_eq!(children[1].width(), content_w);
        // All VSplit children should have the same width
        if let LayoutNode::VSplit { children: vc, .. } = &children[1] {
            assert_eq!(vc[0].width(), content_w);
            assert_eq!(vc[1].width(), content_w);
        }
    }
}

/// Test reflow where root HSplit has 2 children (sidebar nested old root).
#[test]
fn test_reflow_two_children() {
    // Window=200, sidebar=30, content is nested HSplit{60, 79}
    let layout = "0000,200x50,0,0{30x50,0,0,100,169x50,31,0{60x50,31,0,101,79x50,92,0,102}}";
    let mut root = parse_layout(layout).unwrap();

    if let LayoutNode::HSplit { children, .. } = &mut root {
        assert_eq!(children.len(), 2);

        let content_w = 200u16 - 30 - 1; // 169
        scale_width(&mut children[1], content_w, 31);

        assert_eq!(children[1].width(), content_w);
        if let LayoutNode::HSplit {
            children: content, ..
        } = &children[1]
        {
            let sum: u16 = content.iter().map(|c| c.width()).sum();
            assert_eq!(sum, 168); // 169 - 1 separator
            // Proportions roughly preserved (60:79 -> ~73:95)
            assert!(content[0].width() > 70 && content[0].width() < 76);
            assert!(content[1].width() > 92 && content[1].width() < 98);
        }
    }
}

/// Test reflow where sidebar is inserted as sibling in existing root HSplit
/// (3 children: sidebar + 2 original panes). This is the case that was
/// previously broken because we only handled 2 children.
#[test]
fn test_reflow_three_children_at_root() {
    // Original: {100x44[vsplit], 85x44} (186 wide, 2 children + 1 sep)
    // After split-window -hbf, sidebar inserted as 3rd sibling:
    // {25x44(sidebar), 75x44[vsplit], 85x44} - left shrunk, right untouched
    let layout =
        "0000,186x44,0,0{25x44,0,0,999,75x44,26,0[75x22,26,0,1,75x21,26,23,2],85x44,102,0,3}";
    let mut root = parse_layout(layout).unwrap();

    if let LayoutNode::HSplit { rect, children } = &mut root {
        assert_eq!(children.len(), 3);

        let sidebar_width: u16 = 25;
        match &mut children[0] {
            LayoutNode::Leaf { rect, .. } => {
                rect.w = sidebar_width;
                rect.x = 0;
            }
            _ => panic!("expected Leaf"),
        }

        // Available: 186 - 25 - 2 separators = 159
        let total_seps = 2u16;
        let available = rect.w - sidebar_width - total_seps;
        assert_eq!(available, 159);

        // Old content widths: 75 + 85 = 160
        // Scale preserves proportions: 75:85 ratio in 159 cols
        let old_total: u16 = 75 + 85;
        let mut remaining = available;
        let mut cx = sidebar_width + 1;

        let scaled = (75.0 * available as f64 / old_total as f64).round() as u16;
        remaining -= scaled;
        scale_width(&mut children[1], scaled, cx);
        cx += scaled + 1;
        scale_width(&mut children[2], remaining, cx);

        // Content fills all available space
        let w1 = children[1].width();
        let w2 = children[2].width();
        assert_eq!(w1 + w2, available);

        // Proportions preserved: original ratio 75:85 (~0.88)
        let original_ratio = 75.0 / 85.0;
        let result_ratio = w1 as f64 / w2 as f64;
        assert!(
            (result_ratio - original_ratio).abs() < 0.05,
            "proportions not preserved: original={:.2}, result={:.2}",
            original_ratio,
            result_ratio
        );

        // VSplit children should have matching width
        if let LayoutNode::VSplit { children: vc, .. } = &children[1] {
            assert_eq!(vc[0].width(), w1);
            assert_eq!(vc[1].width(), w1);
        }
    }
}

// ── prune_pane / sidebar removal tests ─────────────────────

#[test]
fn test_prune_removes_target_leaf() {
    let node = LayoutNode::Leaf {
        rect: Rect {
            w: 80,
            h: 24,
            x: 0,
            y: 0,
        },
        pane_id: 42,
    };
    assert_eq!(prune_pane(node, 42), None);
}

#[test]
fn test_prune_keeps_other_leaf() {
    let node = LayoutNode::Leaf {
        rect: Rect {
            w: 80,
            h: 24,
            x: 0,
            y: 0,
        },
        pane_id: 42,
    };
    assert!(prune_pane(node, 99).is_some());
}

#[test]
fn test_prune_collapses_single_child_hsplit() {
    // HSplit{sidebar, content} -> content (collapsed)
    let node = hsplit(
        186,
        44,
        0,
        0,
        vec![leaf(25, 44, 0, 0, 999), leaf(160, 44, 26, 0, 100)],
    );
    let result = prune_pane(node, 999).unwrap();
    assert!(matches!(result, LayoutNode::Leaf { pane_id: 100, .. }));
}

#[test]
fn test_prune_preserves_multi_child_hsplit() {
    // HSplit{sidebar, a, b} -> HSplit{a, b}
    let node = hsplit(
        186,
        44,
        0,
        0,
        vec![
            leaf(25, 44, 0, 0, 999),
            leaf(80, 44, 26, 0, 1),
            leaf(79, 44, 107, 0, 2),
        ],
    );
    let result = prune_pane(node, 999).unwrap();
    match result {
        LayoutNode::HSplit { children, .. } => {
            assert_eq!(children.len(), 2);
            assert!(matches!(&children[0], LayoutNode::Leaf { pane_id: 1, .. }));
            assert!(matches!(&children[1], LayoutNode::Leaf { pane_id: 2, .. }));
        }
        _ => panic!("expected HSplit"),
    }
}

/// Simulate the reported bug: sidebar + single pane, user splits content,
/// then sidebar is removed. The two content panes should fill the window
/// proportionally (near-equal since they were split evenly).
#[test]
fn test_remove_sidebar_two_content_panes_fill_window() {
    // State after: sidebar=25, content split into 80+79=159, +2 seps = 186
    let layout = "0000,186x44,0,0{25x44,0,0,999,80x44,26,0,100,79x44,107,0,101}";
    let root = parse_layout(layout).unwrap();
    let window_w = root.rect().w;

    let mut content = prune_pane(root, 999).unwrap();
    scale_width(&mut content, window_w, 0);

    // Should be an HSplit with 2 children filling 186 cols
    match &content {
        LayoutNode::HSplit { rect, children } => {
            assert_eq!(rect.w, 186);
            assert_eq!(children.len(), 2);
            let w0 = children[0].width();
            let w1 = children[1].width();
            // children_total + 1 separator = 186
            assert_eq!(w0 + w1 + 1, 186);
            // Near-equal split (within 1 col of each other)
            assert!(
                (w0 as i32 - w1 as i32).abs() <= 1,
                "panes should be near-equal: {} vs {}",
                w0,
                w1,
            );
        }
        _ => panic!("expected HSplit"),
    }
}

/// Remove sidebar when content is a VSplit (sidebar + vsplit{a,b}).
#[test]
fn test_remove_sidebar_vsplit_content_fills_window() {
    // HSplit{sidebar(25), vsplit(160){a,b}} -> vsplit at full 186 width
    let layout = "0000,186x44,0,0{25x44,0,0,999,160x44,26,0[160x22,26,0,100,160x21,26,23,101]}";
    let root = parse_layout(layout).unwrap();
    let window_w = root.rect().w;

    let mut content = prune_pane(root, 999).unwrap();
    scale_width(&mut content, window_w, 0);

    match &content {
        LayoutNode::VSplit { rect, children } => {
            assert_eq!(rect.w, 186);
            // Both children get the full width
            assert_eq!(children[0].width(), 186);
            assert_eq!(children[1].width(), 186);
        }
        _ => panic!("expected VSplit"),
    }
}

/// Remove sidebar from 3-sibling root: {sidebar, hsplit{a,b}, c}.
/// Content should scale proportionally to fill the window.
#[test]
fn test_remove_sidebar_nested_content_proportional() {
    // sidebar=25, hsplit{60,50}=111, leaf=48, +2 seps = 186
    let layout =
        "0000,186x44,0,0{25x44,0,0,999,111x44,26,0{60x44,26,0,1,50x44,87,0,2},48x44,138,0,3}";
    let root = parse_layout(layout).unwrap();
    let window_w = root.rect().w;

    let mut content = prune_pane(root, 999).unwrap();
    scale_width(&mut content, window_w, 0);

    match &content {
        LayoutNode::HSplit { rect, children } => {
            assert_eq!(rect.w, 186);
            assert_eq!(children.len(), 2);
            // First child is the nested HSplit, second is the leaf
            let w0 = children[0].width();
            let w1 = children[1].width();
            // Total + 1 sep = 186
            assert_eq!(w0 + w1 + 1, 186);
            // Proportions preserved: original 111:48 ratio
            let orig_ratio = 111.0 / 48.0;
            let result_ratio = w0 as f64 / w1 as f64;
            assert!(
                (result_ratio - orig_ratio).abs() < 0.1,
                "proportions not preserved: original={:.2}, result={:.2}",
                orig_ratio,
                result_ratio,
            );
        }
        _ => panic!("expected HSplit"),
    }
}

/// Remove sidebar leaving only a single content pane (the original bug scenario
/// step 1-2 without the user splitting).
#[test]
fn test_remove_sidebar_single_content_fills_window() {
    // HSplit{sidebar(25), content(160)} -> content at full 186
    let layout = "0000,186x44,0,0{25x44,0,0,999,160x44,26,0,100}";
    let root = parse_layout(layout).unwrap();
    let window_w = root.rect().w;

    let mut content = prune_pane(root, 999).unwrap();
    scale_width(&mut content, window_w, 0);

    match &content {
        LayoutNode::Leaf { rect, pane_id } => {
            assert_eq!(*pane_id, 100);
            assert_eq!(rect.w, 186);
            assert_eq!(rect.x, 0);
        }
        _ => panic!("expected Leaf"),
    }
}

#[test]
fn test_top_sidebar_plus_hsplit_content() {
    let layout = "0000,186x44,0,0[186x3,0,0,999,186x40,0,4{93x40,0,4,1,92x40,94,4,2}]";
    let mut root = parse_layout(layout).unwrap();

    if let LayoutNode::VSplit { children, .. } = &mut root {
        let content_h = 44u16 - 3 - 1;
        scale_height(&mut children[1], content_h, 4);

        assert_eq!(children[1].height(), content_h);
        if let LayoutNode::HSplit { children: hc, .. } = &children[1] {
            assert_eq!(hc[0].rect().h, content_h);
            assert_eq!(hc[1].rect().h, content_h);
            assert_eq!(hc[0].rect().y, 4);
            assert_eq!(hc[1].rect().y, 4);
        } else {
            panic!("expected HSplit content");
        }
    } else {
        panic!("expected VSplit root");
    }
}

#[test]
fn test_remove_top_sidebar_two_content_panes_fill_window() {
    let root = vsplit(
        186,
        44,
        0,
        0,
        vec![
            leaf(186, 3, 0, 0, 999),
            leaf(186, 20, 0, 4, 100),
            leaf(186, 19, 0, 25, 101),
        ],
    );
    let window_h = root.rect().h;

    let mut content = prune_pane(root, 999).unwrap();
    scale_height(&mut content, window_h, 0);

    match &content {
        LayoutNode::VSplit { rect, children } => {
            assert_eq!(rect.h, 44);
            assert_eq!(children.len(), 2);
            let h0 = children[0].height();
            let h1 = children[1].height();
            assert_eq!(h0 + h1 + 1, 44);
            assert!((h0 as i32 - h1 as i32).abs() <= 1);
            assert_eq!(children[0].rect().y, 0);
            assert_eq!(children[1].rect().y, h0 + 1);
        }
        _ => panic!("expected VSplit"),
    }
}

#[test]
fn test_remove_top_sidebar_nested_content_fills_height() {
    let root = vsplit(
        186,
        44,
        0,
        0,
        vec![
            leaf(186, 3, 0, 0, 999),
            hsplit(
                186,
                18,
                0,
                4,
                vec![leaf(93, 18, 0, 4, 1), leaf(92, 18, 94, 4, 2)],
            ),
            leaf(186, 21, 0, 23, 3),
        ],
    );
    let window_h = root.rect().h;

    let mut content = prune_pane(root, 999).unwrap();
    scale_height(&mut content, window_h, 0);

    match &content {
        LayoutNode::VSplit { rect, children } => {
            assert_eq!(rect.h, 44);
            assert_eq!(children.len(), 2);
            let h0 = children[0].height();
            let h1 = children[1].height();
            assert_eq!(h0 + h1 + 1, 44);
            if let LayoutNode::HSplit { children: hc, .. } = &children[0] {
                assert_eq!(hc[0].height(), h0);
                assert_eq!(hc[1].height(), h0);
            } else {
                panic!("expected HSplit content");
            }
        }
        _ => panic!("expected VSplit"),
    }
}

// ── Whole layouts ───────────────────────────────────────────────

#[test]
fn written_layouts_are_read_back() {
    let root = hsplit(
        80,
        24,
        0,
        0,
        vec![leaf(40, 24, 0, 0, 1), vsplit(39, 24, 41, 0, vec![leaf(39, 12, 41, 0, 2), leaf(39, 11, 41, 13, 3)])],
    );
    let text = serialize_layout(&root);
    assert_eq!(text, format!("{:04x},80x24,0,0{{40x24,0,0,1,39x24,41,0[39x12,41,0,2,39x11,41,13,3]}}", layout_checksum(&text[5..])));
    assert_eq!(parse_layout(&text), Some(root));
}

#[test]
fn broken_layouts_are_rejected() {
    for layout in [
        "",
        "1234",
        "1234,",
        "12345,80x24,0,0,42",
        "1234,80x24,0,0",
        "1234,80x24,0,0{40x24,0,0,1",
        "1234,80x24,0,0{40x24,0,0,1]",
        "1234,80x24,0,0,42x",
        "1234,99999x24,0,0,42",
    ] {
        assert!(parse_layout(layout).is_none(), "accepted: {}", layout);
    }
}

#[test]
fn shares_fill_what_is_available() {
    assert_eq!(proportional_lengths(&vec![100, 99], 149), vec![75, 74]);
    assert_eq!(proportional_lengths(&vec![60, 79], 168), vec![73, 95]);
    assert_eq!(proportional_lengths(&vec![10], 33), vec![33]);
}

#[test]
fn a_reflow_gives_the_sidebar_its_size_and_the_content_the_rest() {
    let layout = "0000,186x44,0,0{25x44,0,0,999,75x44,26,0[75x22,26,0,1,75x21,26,23,2],85x44,102,0,3}";
    let mut root = parse_layout(layout).unwrap();
    assert!(reflow(&mut root, Axis::Horizontal, 999, 30));
    match &root {
        LayoutNode::HSplit { rect, children } => {
            assert_eq!(rect.w, 186);
            let widths: Vec<u16> = children.iter().map(|c| c.width()).collect();
            assert_eq!(widths[0], 30);
            assert_eq!(widths.iter().sum::<u16>() + 2, 186);
            assert_eq!(children[1].rect().x, 31);
            assert_eq!(children[2].rect().x, 31 + widths[1] + 1);
        }
        _ => panic!("expected HSplit"),
    }
}

#[test]
fn a_reflow_without_the_sidebar_changes_nothing() {
    let mut root = leaf(80, 24, 0, 0, 1);
    assert!(!reflow(&mut root, Axis::Horizontal, 1, 30));
    assert_eq!(root, leaf(80, 24, 0, 0, 1));
}

#[test]
fn adding_a_sidebar_lays_out_the_window() {
    let with = reflow_after_sidebar_add(
        "off\t0000,200x50,0,0{30x50,0,0,100,169x50,31,0{60x50,31,0,101,79x50,92,0,102}}",
        "%100",
        SidebarPosition::Left,
        40,
    );
    let with = with.unwrap();
    assert!(with.ends_with(",200x50,0,0{40x50,0,0,100,159x50,41,0{68x50,41,0,101,90x50,110,0,102}}"), "{}", with);
    assert!(reflow_after_sidebar_add("off\t0000,80x24,0,0,1", "%1", SidebarPosition::Left, 40).is_none());
    assert!(reflow_after_sidebar_add("off", "%1", SidebarPosition::Left, 40).is_none());
}

#[test]
fn removing_a_sidebar_gives_its_room_back() {
    let without = layout_after_sidebar_remove(
        "0000,186x44,0,0{25x44,0,0,999,160x44,26,0,100}\n",
        "%999",
        SidebarPosition::Left,
    );
    let without = without.unwrap();
    assert!(without.ends_with(",186x44,0,0,100"), "{}", without);
    assert!(layout_after_sidebar_remove("0000,186x44,0,0,999", "%999", SidebarPosition::Left).is_none());
    assert!(layout_after_sidebar_remove("0000,186x44,0,0,999", "999", SidebarPosition::Left).is_none());
}

#[test]
fn what_was_dealt_out_or_reflowed_stays_so() {
    let lens = proportional_lengths(&vec![60, 79, 3], 100);
    assert_eq!(lens, vec![42, 56, 2]);
    assert_eq!(proportional_lengths(&lens, 100), lens);

    let layout = "0000,200x50,0,0{30x50,0,0,100,169x50,31,0{60x50,31,0,101,79x50,92,0,102}}";
    let mut root = parse_layout(layout).unwrap();
    assert!(reflow(&mut root, Axis::Horizontal, 100, 25));
    let once = serialize_layout(&root);
    assert!(reflow(&mut root, Axis::Horizontal, 100, 25));
    assert_eq!(serialize_layout(&root), once);
    assert_eq!(reflow_after_sidebar_add(&format!("off\t{once}"), "%100", SidebarPosition::Left, 25), None);
}

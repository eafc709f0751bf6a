use psd_tree::TreeError;
use psd_tree::doc::{ColorMode, Document, GroupRec, LayerRec, Rect};
use psd_tree::tree::{PsdElement, PsdNode, PsdTree, PsdType};

fn rect() -> Rect {
    Rect { left: 0, top: 0, width: 16, height: 16 }
}

fn group(id: u32, name: &str, parent_id: Option<u32>) -> GroupRec {
    GroupRec { id, name: String::from(name), parent_id, rect: rect() }
}

fn layer(name: &str, parent_id: Option<u32>) -> LayerRec {
    LayerRec {
        name: String::from(name),
        parent_id,
        visible: true,
        opacity: 255,
        rect: rect(),
    }
}

fn doc(groups: Vec<GroupRec>, layers: Vec<LayerRec>) -> Document {
    Document { groups, layers, width: 4, height: 4, color_mode: ColorMode::Rgb }
}

fn sample_tree() -> PsdTree {
    let d = doc(
        vec![
            group(1, "Shadows", None),
            group(2, "Inner", Some(1)),
            group(3, "Other", None),
        ],
        vec![
            layer("Masculine", Some(1)),
            layer("Deep", Some(2)),
            layer("Loose", None),
        ],
    );
    PsdTree::new(d).unwrap()
}

fn is_group(n: &PsdNode) -> bool {
    matches!(n.element, PsdElement::Group(_))
}

#[test]
fn unsupported_mode_rejected() {
    let d = doc(vec![], vec![]);
    let d = Document { color_mode: ColorMode::Cmyk, ..d };
    match PsdTree::new(d) {
        Err(TreeError::UnsupportedColorMode) => {}
        _ => panic!("a non-RGB document must be rejected"),
    }
}

#[test]
fn rgb_mode_accepted() {
    let d = doc(vec![], vec![]);
    assert!(PsdTree::new(d).is_ok());
}

#[test]
fn root_children_groups_before_layers() {
    let tree = sample_tree();
    let children = tree.get_children();
    let names: Vec<String> = children.iter().map(|n| n.element.name()).collect();
    assert_eq!(names, vec!["Shadows", "Other", "Loose"]);
    assert!(is_group(&children[0]));
    assert!(is_group(&children[1]));
    assert!(!is_group(&children[2]));
    for n in &children {
        assert_eq!(n.depth, 0);
    }
}

#[test]
fn group_children_order_and_depth() {
    let tree = sample_tree();
    let root = tree.get_children();
    let shadows = &root[0];
    let kids = shadows.get_children(&tree).unwrap();
    let names: Vec<String> = kids.iter().map(|n| n.element.name()).collect();
    assert_eq!(names, vec!["Inner", "Masculine"]);
    assert!(is_group(&kids[0]));
    assert!(!is_group(&kids[1]));
    for n in &kids {
        assert_eq!(n.depth, shadows.depth + 1);
    }
}

#[test]
fn layer_has_no_children() {
    let tree = sample_tree();
    let root = tree.get_children();
    let loose = &root[2];
    assert!(loose.get_children(&tree).is_none());
}

#[test]
fn listing_is_idempotent() {
    let tree = sample_tree();
    let root = tree.get_children();
    let a = root[0].get_children(&tree).unwrap();
    let b = root[0].get_children(&tree).unwrap();
    assert_eq!(a.len(), b.len());
    for (x, y) in a.iter().zip(b.iter()) {
        assert_eq!(x.element.name(), y.element.name());
        assert_eq!(x.depth, y.depth);
        assert_eq!(is_group(x), is_group(y));
    }
}

#[test]
fn name_trimming_strips_null_padding() {
    let d = doc(
        vec![group(1, "Face\0\0\0", None)],
        vec![layer("\0Eyes\0", Some(1))],
    );
    let tree = PsdTree::new(d).unwrap();
    let root = tree.get_children();
    assert_eq!(root[0].element.name(), "Face");
    let kids = root[0].get_children(&tree).unwrap();
    assert_eq!(kids[0].element.name(), "Eyes");
    let path = kids[0].get_path(&tree).unwrap();
    assert_eq!(path, "/Face/Eyes");
}

#[test]
fn path_of_nested_layer() {
    let tree = sample_tree();
    let root = tree.get_children();
    let inner = &root[0].get_children(&tree).unwrap()[0];
    let deep = &inner.get_children(&tree).unwrap()[0];
    assert_eq!(deep.element.name(), "Deep");
    assert_eq!(deep.get_path(&tree).unwrap(), "/Shadows/Inner/Deep");
}

#[test]
fn path_of_root_layer() {
    let tree = sample_tree();
    let root = tree.get_children();
    assert_eq!(root[2].get_path(&tree).unwrap(), "/Loose");
}

#[test]
fn get_node_round_trip() {
    let tree = sample_tree();
    let root = tree.get_children();
    let shadows_kids = root[0].get_children(&tree).unwrap();
    let masculine = &shadows_kids[1];
    let path = masculine.get_path(&tree).unwrap();
    assert_eq!(path, "/Shadows/Masculine");
    let found = tree.get_node(&path).unwrap();
    assert_eq!(found.element.name(), "Masculine");
    assert_eq!(found.depth, masculine.depth);
    assert!(!is_group(&found));
}

#[test]
fn get_node_relative_path() {
    let tree = sample_tree();
    let found = tree.get_node("Shadows/Inner/Deep").unwrap();
    assert_eq!(found.element.name(), "Deep");
    assert_eq!(found.depth, 2);
}

#[test]
fn get_node_missing_path_is_absent() {
    let tree = sample_tree();
    assert!(tree.get_node("/Shadows/Nonexistent").is_none());
    assert!(tree.get_node("/Nothing").is_none());
    assert!(tree.get_node("").is_none());
}

#[test]
fn get_node_through_layer_is_absent() {
    let tree = sample_tree();
    assert!(tree.get_node("/Loose/Anything").is_none());
}

#[test]
fn corrupt_parent_fails_path() {
    let d = doc(vec![], vec![layer("Orphan", Some(99))]);
    let tree = PsdTree::new(d).unwrap();
    let root = tree.get_children();
    assert!(root.is_empty());
    let d2 = doc(vec![group(1, "A", None)], vec![layer("Orphan", Some(99))]);
    let tree2 = PsdTree::new(d2).unwrap();
    let node = PsdNode {
        element: PsdElement::Layer(layer("Orphan", Some(99))),
        depth: 0,
    };
    match node.get_path(&tree2) {
        Err(TreeError::StructuralCorruption) => {}
        other => panic!("expected structural corruption, got {:?}", other),
    }
}

#[test]
fn parent_cycle_fails_path() {
    let d = doc(
        vec![group(1, "A", Some(2)), group(2, "B", Some(1))],
        vec![layer("L", Some(1))],
    );
    let tree = PsdTree::new(d).unwrap();
    let node = PsdNode {
        element: PsdElement::Layer(layer("L", Some(1))),
        depth: 0,
    };
    match node.get_path(&tree) {
        Err(TreeError::StructuralCorruption) => {}
        other => panic!("expected structural corruption, got {:?}", other),
    }
}

#[test]
fn list_lines_and_print() {
    let tree = sample_tree();
    let lines = tree.list().unwrap();
    assert_eq!(
        lines,
        vec![
            "[G] Shadows",
            "\t[G] Inner",
            "\t\t[L] Deep",
            "\t[L] Masculine",
            "[G] Other",
            "[L] Loose",
        ]
    );
    let text = tree.print().unwrap();
    assert_eq!(
        text,
        "[G] Shadows\n\t[G] Inner\n\t\t[L] Deep\n\t[L] Masculine\n[G] Other\n[L] Loose"
    );
}

#[test]
fn groups_and_layers_filters() {
    let tree = sample_tree();
    let groups: Vec<String> = tree.get_groups().iter().map(|n| n.element.name()).collect();
    assert_eq!(groups, vec!["Shadows", "Other"]);
    let layers: Vec<String> = tree.get_layers().iter().map(|n| n.element.name()).collect();
    assert_eq!(layers, vec!["Loose"]);
    let root = tree.get_children();
    let sub_groups = root[0].get_groups(&tree).unwrap();
    assert_eq!(sub_groups.len(), 1);
    assert_eq!(sub_groups[0].element.name(), "Inner");
    let sub_layers = root[0].get_layers(&tree).unwrap();
    assert_eq!(sub_layers.len(), 1);
    assert_eq!(sub_layers[0].element.name(), "Masculine");
    assert!(root[2].get_groups(&tree).is_none());
    assert!(root[2].get_layers(&tree).is_none());
}

#[test]
fn node_type_and_properties() {
    let tree = sample_tree();
    let root = tree.get_children();
    assert_eq!(root[0].node_type(), PsdType::Group);
    assert!(root[0].properties().is_none());
    assert_eq!(root[2].node_type(), PsdType::Layer);
    let props = root[2].properties().unwrap();
    assert!(props.visible);
    assert_eq!(props.opacity, 255);
    assert_eq!((props.width, props.height), (16, 16));
    assert_eq!(props.group_id, None);
}

#[test]
fn node_list_subtree() {
    let tree = sample_tree();
    let root = tree.get_children();
    let lines = root[0].list(&tree).unwrap();
    assert_eq!(
        lines,
        vec!["[G] Shadows", "\t[G] Inner", "\t\t[L] Deep", "\t[L] Masculine"]
    );
    let layer_lines = root[2].list(&tree).unwrap();
    assert_eq!(layer_lines, vec!["[L] Loose"]);
}

#[test]
fn export_plan_single_layer() {
    let d = doc(
        vec![group(1, "Shadows", None)],
        vec![layer("Masculine", Some(1))],
    );
    let tree = PsdTree::new(d).unwrap();
    let plan = tree.export_all().unwrap();
    assert_eq!(plan.len(), 1);
    assert_eq!(plan[0].layer_index, 0);
    assert_eq!(plan[0].path, "/Shadows/Masculine");
}

#[test]
fn export_plan_depth_first_order() {
    let tree = sample_tree();
    let plan = tree.export_all_to_file().unwrap();
    let paths: Vec<&str> = plan.iter().map(|e| e.path.as_str()).collect();
    assert_eq!(
        paths,
        vec!["/Shadows/Inner/Deep", "/Shadows/Masculine", "/Loose"]
    );
    let indices: Vec<usize> = plan.iter().map(|e| e.layer_index).collect();
    assert_eq!(indices, vec![1, 0, 2]);
}

#[test]
fn export_plan_cycle_is_corruption() {
    // Duplicate identifiers make a group its own descendant: the nesting
    // never bottoms out, which the export reports as corruption.
    let d = doc(
        vec![
            group(1, "A", None),
            group(2, "B", Some(1)),
            group(2, "C", Some(2)),
        ],
        vec![layer("L", Some(2))],
    );
    let tree = PsdTree::new(d).unwrap();
    match tree.export_all() {
        Err(TreeError::StructuralCorruption) => {}
        other => panic!(
            "expected structural corruption, got {:?}",
            other.map(|p| p.len())
        ),
    }
}

#[test]
fn detached_cycle_exports_nothing() {
    // A parent cycle that no root child reaches is simply absent from the
    // plan: nothing under the root matches it.
    let d = doc(
        vec![group(1, "A", Some(2)), group(2, "B", Some(1))],
        vec![layer("L", Some(1))],
    );
    let tree = PsdTree::new(d).unwrap();
    let plan = tree.export_all().unwrap();
    assert!(plan.is_empty());
}

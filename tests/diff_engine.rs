use humus::diff::{diff, diff_at, is_volatile_name};
use humus::node::VirtualDomNode;
use humus::patch::Patch;
use humus::render::{attr, h, h_keyed, t};

fn hello() -> VirtualDomNode {
    h("h1", vec![t("Hello")], vec![])
}

fn from() -> VirtualDomNode {
    h("h2", vec![t("From")], vec![])
}

fn keyed_list(keys: &[&str]) -> VirtualDomNode {
    let children = keys
        .iter()
        .map(|k| h_keyed(k, "li", vec![t(k)], vec![]))
        .collect();
    h("ul", children, vec![])
}

#[test]
fn appending_a_child_is_one_insert() {
    let a = h("div", vec![hello()], vec![]);
    let b = h("div", vec![hello(), from()], vec![]);
    let script = diff(&a, &b);
    assert_eq!(
        script,
        vec![Patch::InsertChild { path: vec![], index: 1, node: from() }]
    );
}

#[test]
fn changed_attribute_is_one_set() {
    let a = h("div", vec![hello()], vec![attr("name", "main")]);
    let b = h("div", vec![hello()], vec![attr("name", "glavni-div")]);
    let script = diff(&a, &b);
    assert_eq!(
        script,
        vec![Patch::SetAttribute {
            path: vec![],
            name: "name".to_string(),
            value: "glavni-div".to_string(),
        }]
    );
}

#[test]
fn text_against_element_is_one_replace() {
    let a = h("div", vec![t("A")], vec![]);
    let b = h("div", vec![h("span", vec![], vec![])], vec![]);
    let script = diff(&a, &b);
    assert_eq!(
        script,
        vec![Patch::Replace { path: vec![0], node: h("span", vec![], vec![]) }]
    );
}

#[test]
fn same_tree_gives_empty_script() {
    let a = h(
        "div",
        vec![hello(), keyed_list(&["a", "b"]), t("x")],
        vec![attr("id", "root"), attr("class", "c")],
    );
    let b = h(
        "div",
        vec![hello(), keyed_list(&["a", "b"]), t("x")],
        vec![attr("id", "root"), attr("class", "c")],
    );
    assert_eq!(diff(&a, &b), vec![]);
    assert_eq!(diff(&VirtualDomNode::Empty, &VirtualDomNode::Empty), vec![]);
}

#[test]
fn volatile_attribute_is_always_set() {
    let a = h("input", vec![], vec![attr("value", "x"), attr("id", "i")]);
    let b = h("input", vec![], vec![attr("value", "x"), attr("id", "i")]);
    assert_eq!(
        diff(&a, &b),
        vec![Patch::SetAttribute {
            path: vec![],
            name: "value".to_string(),
            value: "x".to_string(),
        }]
    );
    assert!(is_volatile_name(&"checked".to_string()));
    assert!(is_volatile_name(&"selected".to_string()));
    assert!(!is_volatile_name(&"id".to_string()));
}

#[test]
fn attribute_ops_count_removed_and_changed() {
    let a = h(
        "p",
        vec![],
        vec![attr("a", "1"), attr("b", "2"), attr("c", "3")],
    );
    let b = h(
        "p",
        vec![],
        vec![attr("b", "2"), attr("c", "4"), attr("d", "5")],
    );
    assert_eq!(
        diff(&a, &b),
        vec![
            Patch::RemoveAttribute { path: vec![], name: "a".to_string() },
            Patch::SetAttribute { path: vec![], name: "c".to_string(), value: "4".to_string() },
            Patch::SetAttribute { path: vec![], name: "d".to_string(), value: "5".to_string() },
        ]
    );
}

#[test]
fn text_change_is_set_text() {
    let a = h("p", vec![t("old")], vec![]);
    let b = h("p", vec![t("new")], vec![]);
    assert_eq!(
        diff(&a, &b),
        vec![Patch::SetText { path: vec![0], value: "new".to_string() }]
    );
}

#[test]
fn different_tags_replace_whole_subtree() {
    let a = h("div", vec![hello()], vec![]);
    let b = h("section", vec![hello()], vec![]);
    assert_eq!(
        diff(&a, &b),
        vec![Patch::Replace { path: vec![], node: h("section", vec![hello()], vec![]) }]
    );
    assert_eq!(
        diff(&VirtualDomNode::Empty, &t("x")),
        vec![Patch::Replace { path: vec![], node: t("x") }]
    );
}

#[test]
fn trailing_children_are_removed_in_descending_order() {
    let a = h("div", vec![t("a"), t("b"), t("c"), t("d")], vec![]);
    let b = h("div", vec![t("a")], vec![]);
    assert_eq!(
        diff(&a, &b),
        vec![
            Patch::RemoveChild { path: vec![], index: 3 },
            Patch::RemoveChild { path: vec![], index: 2 },
            Patch::RemoveChild { path: vec![], index: 1 },
        ]
    );
}

#[test]
fn trailing_children_are_inserted_in_ascending_order() {
    let a = h("div", vec![], vec![]);
    let b = h("div", vec![t("a"), t("b")], vec![]);
    assert_eq!(
        diff(&a, &b),
        vec![
            Patch::InsertChild { path: vec![], index: 0, node: t("a") },
            Patch::InsertChild { path: vec![], index: 1, node: t("b") },
        ]
    );
}

#[test]
fn keyed_reorder_gives_only_moves() {
    let a = keyed_list(&["a", "b", "c"]);
    let b = keyed_list(&["c", "a", "b"]);
    let script = diff(&a, &b);
    assert_eq!(script, vec![Patch::MoveChild { path: vec![], from: 2, to: 0 }]);
    let c = keyed_list(&["b", "c", "a"]);
    for op in diff(&a, &c) {
        assert!(matches!(op, Patch::MoveChild { .. }));
    }
}

#[test]
fn keyed_insert_and_remove() {
    let a = keyed_list(&["a", "b", "c"]);
    let b = keyed_list(&["c", "d"]);
    assert_eq!(
        diff(&a, &b),
        vec![
            Patch::RemoveChild { path: vec![], index: 1 },
            Patch::RemoveChild { path: vec![], index: 0 },
            Patch::InsertChild {
                path: vec![],
                index: 1,
                node: h_keyed("d", "li", vec![t("d")], vec![]),
            },
        ]
    );
}

#[test]
fn keyed_match_diffs_the_matched_child() {
    let a = h(
        "ul",
        vec![
            h_keyed("a", "li", vec![t("one")], vec![]),
            h_keyed("b", "li", vec![t("two")], vec![]),
        ],
        vec![],
    );
    let b = h(
        "ul",
        vec![
            h_keyed("b", "li", vec![t("TWO")], vec![]),
            h_keyed("a", "li", vec![t("one")], vec![]),
        ],
        vec![],
    );
    assert_eq!(
        diff(&a, &b),
        vec![
            Patch::MoveChild { path: vec![], from: 1, to: 0 },
            Patch::SetText { path: vec![0, 0], value: "TWO".to_string() },
        ]
    );
}

#[test]
fn diff_at_prefixes_paths() {
    let a = h("p", vec![t("x")], vec![]);
    let b = h("p", vec![t("y")], vec![]);
    assert_eq!(
        diff_at(&a, &b, &vec![2, 1]),
        vec![Patch::SetText { path: vec![2, 1, 0], value: "y".to_string() }]
    );
}

use humus::diff::diff;
use humus::node::{Attribute, VirtualDomNode};
use humus::patch::{apply, apply_patch, Patch, PatchError};
use humus::render::{attr, copy_node, h, h_keyed, t};

fn keyed_list(keys: &[&str]) -> VirtualDomNode {
    let children = keys
        .iter()
        .map(|k| h_keyed(k, "li", vec![t(k)], vec![attr("data-k", k)]))
        .collect();
    h("ul", children, vec![])
}

fn round_trip(a: &VirtualDomNode, b: &VirtualDomNode) {
    let mut host = copy_node(a);
    let script = diff(a, b);
    assert_eq!(apply(&mut host, &script), Ok(vec![]));
    assert_eq!(&host, b);
}

#[test]
fn round_trip_unkeyed() {
    let a = h(
        "div",
        vec![h("h1", vec![t("Hello")], vec![attr("class", "x")]), t("a"), t("b")],
        vec![attr("name", "main")],
    );
    let b = h(
        "div",
        vec![
            h("h1", vec![t("Hi")], vec![attr("class", "x")]),
            h("span", vec![], vec![]),
            t("b"),
            t("c"),
        ],
        vec![attr("name", "glavni-div")],
    );
    round_trip(&a, &b);
    round_trip(&b, &a);
}

#[test]
fn round_trip_keyed() {
    round_trip(&keyed_list(&["a", "b", "c", "d"]), &keyed_list(&["d", "b", "e", "a"]));
    round_trip(&keyed_list(&["a", "b"]), &keyed_list(&["c", "d", "e"]));
    round_trip(&keyed_list(&["a", "b", "c"]), &keyed_list(&["c", "b", "a"]));
}

#[test]
fn round_trip_between_kinds() {
    round_trip(&VirtualDomNode::Empty, &h("p", vec![t("x")], vec![]));
    round_trip(&t("A"), &h("span", vec![], vec![]));
    round_trip(&h("span", vec![], vec![]), &VirtualDomNode::Empty);
}

#[test]
fn set_attribute_keeps_place_or_appends() {
    let mut host = h("p", vec![], vec![attr("a", "1"), attr("b", "2")]);
    let op = Patch::SetAttribute { path: vec![], name: "a".to_string(), value: "9".to_string() };
    assert_eq!(apply_patch(&mut host, &op), Ok(()));
    let op = Patch::SetAttribute { path: vec![], name: "c".to_string(), value: "3".to_string() };
    assert_eq!(apply_patch(&mut host, &op), Ok(()));
    assert_eq!(
        host,
        h("p", vec![], vec![attr("a", "9"), attr("b", "2"), attr("c", "3")])
    );
    let op = Patch::RemoveAttribute { path: vec![], name: "b".to_string() };
    assert_eq!(apply_patch(&mut host, &op), Ok(()));
    let expected: Vec<Attribute> = vec![attr("a", "9"), attr("c", "3")];
    assert_eq!(host, h("p", vec![], expected));
}

#[test]
fn move_child_moves() {
    let mut host = h("ul", vec![t("a"), t("b"), t("c")], vec![]);
    let op = Patch::MoveChild { path: vec![], from: 0, to: 2 };
    assert_eq!(apply_patch(&mut host, &op), Ok(()));
    assert_eq!(host, h("ul", vec![t("b"), t("c"), t("a")], vec![]));
}

#[test]
fn path_not_found_is_fatal() {
    let mut host = h("div", vec![t("a")], vec![]);
    let script = vec![
        Patch::SetText { path: vec![3], value: "x".to_string() },
        Patch::SetText { path: vec![0], value: "y".to_string() },
    ];
    assert_eq!(apply(&mut host, &script), Err(PatchError::PathNotFound));
    assert_eq!(host, h("div", vec![t("a")], vec![]));
}

#[test]
fn index_out_of_range_is_fatal() {
    let mut host = h("div", vec![t("a")], vec![]);
    let op = Patch::RemoveChild { path: vec![], index: 1 };
    assert_eq!(apply_patch(&mut host, &op), Err(PatchError::IndexOutOfRange));
    let op = Patch::InsertChild { path: vec![], index: 2, node: t("z") };
    assert_eq!(apply(&mut host, &vec![op]), Err(PatchError::IndexOutOfRange));
}

#[test]
fn child_op_on_text_is_fatal() {
    let mut host = t("a");
    let op = Patch::RemoveChild { path: vec![], index: 0 };
    assert_eq!(apply(&mut host, &vec![op]), Err(PatchError::NoChildren));
}

#[test]
fn kind_mismatch_is_skipped_and_reported() {
    let mut host = h("div", vec![t("a")], vec![]);
    let script = vec![
        Patch::SetAttribute { path: vec![0], name: "id".to_string(), value: "x".to_string() },
        Patch::SetText { path: vec![], value: "y".to_string() },
        Patch::RemoveAttribute { path: vec![0], name: "id".to_string() },
        Patch::SetText { path: vec![0], value: "b".to_string() },
    ];
    assert_eq!(
        apply(&mut host, &script),
        Ok(vec![PatchError::NotAnElement, PatchError::NotText, PatchError::NotAnElement])
    );
    assert_eq!(host, h("div", vec![t("b")], vec![]));
}

use humus::node::{Attribute, VirtualDomNode};
use humus::render::{attr, h, t};
use humus::vdom::{mount_point, update_element, VirtualDom};

fn app(title_name: &str) -> VirtualDomNode {
    h(
        "div",
        vec![h(
            "h1",
            vec![t("Humus Virtual Dom")],
            vec![attr("name", "h1-name"), attr("style", "color:red")],
        )],
        vec![attr("name", title_name)],
    )
}

#[test]
fn new_session_is_empty() {
    let vd = VirtualDom::new();
    assert_eq!(vd.node, VirtualDomNode::Empty);
}

#[test]
fn render_twice_keeps_host_in_step() {
    let mut root = mount_point("body");
    let mut vd = VirtualDom::new();
    assert_eq!(vd.render(&mut root, app("main")), Ok(vec![]));
    assert_eq!(root, h("body", vec![app("main")], vec![]));
    assert_eq!(vd.node, app("main"));
    assert_eq!(vd.render(&mut root, app("glavni-div")), Ok(vec![]));
    assert_eq!(root, h("body", vec![app("glavni-div")], vec![]));
    assert_eq!(vd.render(&mut root, VirtualDomNode::Empty), Ok(vec![]));
    assert_eq!(root, h("body", vec![VirtualDomNode::Empty], vec![]));
}

#[test]
fn render_keeps_new_tree_after_fatal_error() {
    let mut root = h("body", vec![], vec![]);
    let mut vd = VirtualDom::new();
    assert!(vd.render(&mut root, t("x")).is_err());
    assert_eq!(vd.node, t("x"));
}

#[test]
fn update_element_at_index() {
    let mut parent = h("div", vec![t("a"), t("b")], vec![]);
    let r = update_element(&mut parent, 1, &t("c"), &t("b"));
    assert_eq!(r, Ok(vec![]));
    let none: Vec<Attribute> = vec![];
    assert_eq!(parent, h("div", vec![t("a"), t("c")], none));
}

#[test]
fn attribute_getters() {
    let a = attr("id", "my-thing");
    assert_eq!(a.name(), "id".to_string());
    assert_eq!(a.value(), "my-thing".to_string());
}

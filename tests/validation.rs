use humus::node::VirtualDomNode;
use humus::render::{attr, h, h_keyed, t};
use humus::validate::is_well_formed;

#[test]
fn plain_trees_are_well_formed() {
    let tree = h(
        "div",
        vec![h("h1", vec![t("Hello")], vec![attr("style", "color:red")]), t("x")],
        vec![attr("name", "main")],
    );
    assert!(is_well_formed(&tree));
    assert!(is_well_formed(&t("x")));
    assert!(is_well_formed(&VirtualDomNode::Empty));
}

#[test]
fn keyed_children_are_well_formed() {
    let tree = h(
        "ul",
        vec![h_keyed("a", "li", vec![], vec![]), h_keyed("b", "li", vec![], vec![])],
        vec![],
    );
    assert!(is_well_formed(&tree));
}

#[test]
fn duplicate_attribute_names_are_rejected() {
    let tree = h("div", vec![], vec![attr("id", "a"), attr("id", "b")]);
    assert!(!is_well_formed(&tree));
}

#[test]
fn mixed_keying_is_rejected() {
    let tree = h("ul", vec![h_keyed("a", "li", vec![], vec![]), h("li", vec![], vec![])], vec![]);
    assert!(!is_well_formed(&tree));
}

#[test]
fn duplicate_keys_are_rejected() {
    let tree = h(
        "ul",
        vec![h_keyed("a", "li", vec![], vec![]), h_keyed("a", "li", vec![], vec![])],
        vec![],
    );
    assert!(!is_well_formed(&tree));
}

#[test]
fn empty_tag_is_rejected_deep_in_the_tree() {
    let tree = h("div", vec![h("p", vec![h("", vec![], vec![])], vec![])], vec![]);
    assert!(!is_well_formed(&tree));
}

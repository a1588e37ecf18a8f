use rsvg_tree::attributes::Attribute;
use rsvg_tree::error::NodeError;
use rsvg_tree::matrix::Matrix;
use rsvg_tree::node::{Behavior, NodeType, Tree};
use rsvg_tree::property_bag::{PropertyBag, PropertyBagEntry};
use rsvg_tree::state::{ComputedValues, Overflow, SpecifiedValue, State};
use rsvg_tree::surface::{DrawOp, Surface};

fn default_values() -> ComputedValues {
    ComputedValues { color: 0, opacity: 255, overflow: Overflow::Visible }
}

fn state_with_color(color: u32) -> State {
    let mut s = State::new();
    s.values.color = SpecifiedValue::Specified(color);
    s
}

#[test]
fn node_is_its_own_ancestor() {
    let mut tree = Tree::new();
    let node = tree.new_node(NodeType::Path, None, State::new(), Behavior::Shape);

    assert!(tree.is_ancestor(node, node));
}

#[test]
fn node_is_ancestor_of_child() {
    let mut tree = Tree::new();
    let node = tree.new_node(NodeType::Path, None, State::new(), Behavior::Shape);
    let child = tree.new_node(NodeType::Path, Some(node), State::new(), Behavior::Shape);

    tree.add_child(node, child);

    assert!(tree.is_ancestor(node, child));
    assert!(!tree.is_ancestor(child, node));
}

#[test]
fn node_children_iterator() {
    let mut tree = Tree::new();
    let node = tree.new_node(NodeType::Path, None, State::new(), Behavior::Shape);
    let child = tree.new_node(NodeType::Path, Some(node), State::new(), Behavior::Shape);
    let second_child = tree.new_node(NodeType::Path, Some(node), State::new(), Behavior::Shape);

    tree.add_child(node, child);
    tree.add_child(node, second_child);

    let mut children = tree.children(node);

    let c = children.next();
    assert!(c.is_some());
    assert_eq!(c.unwrap(), child);

    let c = children.next_back();
    assert!(c.is_some());
    assert_eq!(c.unwrap(), second_child);

    assert!(children.next().is_none());
    assert!(children.next_back().is_none());
}

#[test]
fn different_nodes_have_different_pointers() {
    let mut tree = Tree::new();
    let node1 = tree.new_node(NodeType::Path, None, State::new(), Behavior::Shape);
    let node2 = tree.new_node(NodeType::Path, None, State::new(), Behavior::Shape);

    assert_ne!(node1, node2);
}

#[test]
fn new_node_starts_fresh() {
    let mut tree = Tree::new();
    let node = tree.new_node(NodeType::Group, None, State::new(), Behavior::Container);

    assert_eq!(tree.get_type(node), NodeType::Group);
    assert_eq!(tree.get_transform(node), Matrix::identity());
    assert_eq!(tree.get_computed_values(node), default_values());
    assert!(tree.get_result(node).is_ok());
    assert!(!tree.is_in_error(node));
    assert!(!tree.has_children(node));
    assert_eq!(tree.get_parent(node), None);
}

#[test]
fn parent_resolution() {
    let mut tree = Tree::new();
    let root = tree.new_node(NodeType::Svg, None, State::new(), Behavior::Container);
    let child = tree.new_node(NodeType::Rect, Some(root), State::new(), Behavior::Shape);
    tree.add_child(root, child);

    assert_eq!(tree.get_parent(root), None);
    assert_eq!(tree.get_parent(child), Some(root));
    assert!(tree.has_children(root));
}

#[test]
fn children_view_is_a_snapshot() {
    let mut tree = Tree::new();
    let root = tree.new_node(NodeType::Group, None, State::new(), Behavior::Container);
    let a = tree.new_node(NodeType::Rect, Some(root), State::new(), Behavior::Shape);
    tree.add_child(root, a);

    let mut view = tree.children(root);

    // a child attached after the view was created does not show through it
    let b = tree.new_node(NodeType::Rect, Some(root), State::new(), Behavior::Shape);
    tree.add_child(root, b);

    assert_eq!(view.len(), 1);
    assert_eq!(view.next(), Some(a));
    assert_eq!(view.next(), None);
}

#[test]
fn children_forward_and_backward_agree() {
    let mut tree = Tree::new();
    let root = tree.new_node(NodeType::Group, None, State::new(), Behavior::Container);
    let mut ids = Vec::new();
    for _ in 0..5 {
        let c = tree.new_node(NodeType::Rect, Some(root), State::new(), Behavior::Shape);
        tree.add_child(root, c);
        ids.push(c);
    }

    let mut forward = Vec::new();
    let mut view = tree.children(root);
    while let Some(c) = view.next() {
        forward.push(c);
    }

    let mut backward = Vec::new();
    let mut view = tree.children(root);
    while let Some(c) = view.next_back() {
        backward.push(c);
    }
    backward.reverse();

    assert_eq!(forward, ids);
    assert_eq!(backward, ids);
}

#[test]
fn children_interleaved_yields_each_exactly_once() {
    let mut tree = Tree::new();
    let root = tree.new_node(NodeType::Group, None, State::new(), Behavior::Container);
    let mut ids = Vec::new();
    for _ in 0..4 {
        let c = tree.new_node(NodeType::Rect, Some(root), State::new(), Behavior::Shape);
        tree.add_child(root, c);
        ids.push(c);
    }

    let mut view = tree.children(root);
    let mut seen = Vec::new();
    seen.push(view.next().unwrap());
    seen.push(view.next_back().unwrap());
    seen.push(view.next().unwrap());
    seen.push(view.next_back().unwrap());
    assert!(view.next().is_none());
    assert!(view.next_back().is_none());

    seen.sort();
    let mut expected = ids.clone();
    expected.sort();
    assert_eq!(seen, expected);
}

#[test]
fn cascade_merges_along_path() {
    let mut tree = Tree::new();
    let root = tree.new_node(NodeType::Svg, None, state_with_color(7), Behavior::Container);
    let mid = tree.new_node(NodeType::Group, Some(root), State::new(), Behavior::Container);
    let leaf = tree.new_node(NodeType::Rect, Some(mid), state_with_color(9), Behavior::Shape);
    tree.add_child(root, mid);
    tree.add_child(mid, leaf);

    tree.cascade(root, &default_values());

    // the root's override is inherited through the unspecified middle node,
    // and the leaf's own override wins at the leaf
    assert_eq!(tree.get_computed_values(root).color, 7);
    assert_eq!(tree.get_computed_values(mid).color, 7);
    assert_eq!(tree.get_computed_values(leaf).color, 9);
    assert_eq!(tree.get_computed_values(leaf).opacity, 255);
}

#[test]
fn cascade_is_idempotent() {
    let mut tree = Tree::new();
    let root = tree.new_node(NodeType::Svg, None, state_with_color(3), Behavior::Container);
    let a = tree.new_node(NodeType::Group, Some(root), state_with_color(5), Behavior::Container);
    let b = tree.new_node(NodeType::Rect, Some(a), State::new(), Behavior::Shape);
    tree.add_child(root, a);
    tree.add_child(a, b);

    tree.cascade(root, &default_values());
    let first = vec![
        tree.get_computed_values(root),
        tree.get_computed_values(a),
        tree.get_computed_values(b),
    ];

    tree.cascade(root, &default_values());
    let second = vec![
        tree.get_computed_values(root),
        tree.get_computed_values(a),
        tree.get_computed_values(b),
    ];

    assert_eq!(first, second);
}

#[test]
fn cascade_leaves_other_subtrees_alone() {
    let mut tree = Tree::new();
    let root = tree.new_node(NodeType::Svg, None, State::new(), Behavior::Container);
    let a = tree.new_node(NodeType::Group, Some(root), state_with_color(5), Behavior::Container);
    let b = tree.new_node(NodeType::Group, Some(root), state_with_color(6), Behavior::Container);
    tree.add_child(root, a);
    tree.add_child(root, b);

    let mut inherited = default_values();
    inherited.color = 100;
    tree.cascade(a, &inherited);

    assert_eq!(tree.get_computed_values(a).color, 5);
    // b was never visited by the pass rooted at a
    assert_eq!(tree.get_computed_values(b), default_values());
}

#[test]
fn end_to_end_cascade_and_draw() {
    // tree root(group A(shape B, shape C))
    let mut tree = Tree::new();
    let root = tree.new_node(NodeType::Svg, None, State::new(), Behavior::Container);
    let a = tree.new_node(NodeType::Group, Some(root), state_with_color(42), Behavior::Container);
    let b = tree.new_node(NodeType::Rect, Some(a), State::new(), Behavior::Shape);
    let c = tree.new_node(NodeType::Rect, Some(a), State::new(), Behavior::Shape);
    tree.add_child(root, a);
    tree.add_child(a, b);
    tree.add_child(a, c);

    tree.cascade(root, &default_values());

    // B and C carry A's resolved style merged with their own (empty)
    // overrides, i.e. exactly A's resolved style
    let a_values = tree.get_computed_values(a);
    assert_eq!(tree.get_computed_values(b), a_values);
    assert_eq!(tree.get_computed_values(c), a_values);

    // mark B as failed after the cascade; drawing the root must elide B but
    // keep A's container bracketing and C's shape
    tree.set_error(b, NodeError::value_error(Attribute::Color, "out of range"));

    let mut surface = Surface::new();
    let cascaded = tree.get_cascaded_values(root);
    tree.draw(root, &cascaded, &mut surface, 0, false);

    let root_values = tree.get_computed_values(root);
    assert_eq!(
        surface.log,
        vec![
            DrawOp::PushLayer(root_values, false),
            DrawOp::PushLayer(a_values, false),
            DrawOp::Shape(c),
            DrawOp::PopLayer(a_values, false),
            DrawOp::PopLayer(root_values, false),
        ]
    );
    assert_eq!(surface.transform, Matrix::identity());
}

#[test]
fn failed_node_subtree_is_elided_but_still_iterable() {
    let mut tree = Tree::new();
    let root = tree.new_node(NodeType::Svg, None, State::new(), Behavior::Container);
    let group = tree.new_node(NodeType::Group, Some(root), State::new(), Behavior::Container);
    let shape = tree.new_node(NodeType::Rect, Some(group), State::new(), Behavior::Shape);
    tree.add_child(root, group);
    tree.add_child(group, shape);

    tree.cascade(root, &default_values());
    tree.set_error(group, NodeError::value_error(Attribute::Opacity, "bad value"));

    let mut surface = Surface::new();
    let cascaded = tree.get_cascaded_values(root);
    tree.draw(root, &cascaded, &mut surface, 0, false);

    // the failed group and its whole subtree are missing; the root's own
    // bracketing remains
    let root_values = tree.get_computed_values(root);
    assert_eq!(
        surface.log,
        vec![DrawOp::PushLayer(root_values, false), DrawOp::PopLayer(root_values, false)]
    );

    // the failed node's children remain visible to structural queries
    let mut view = tree.children(group);
    assert_eq!(view.next(), Some(shape));
    assert!(tree.is_ancestor(group, shape));
}

#[test]
fn draw_of_failed_root_records_nothing() {
    let mut tree = Tree::new();
    let root = tree.new_node(NodeType::Svg, None, State::new(), Behavior::Container);
    let shape = tree.new_node(NodeType::Rect, Some(root), State::new(), Behavior::Shape);
    tree.add_child(root, shape);

    tree.cascade(root, &default_values());
    tree.set_error(root, NodeError::value_error(Attribute::Transform, "bad"));

    let mut surface = Surface::new();
    let cascaded = tree.get_cascaded_values(root);
    tree.draw(root, &cascaded, &mut surface, 0, false);

    assert!(surface.log.is_empty());
}

#[test]
fn override_context_ignores_cached_style() {
    // for_override(node, custom) followed by derive into a child merges
    // custom with the child's own overrides, not the child's cascaded style
    let mut tree = Tree::new();
    let node = tree.new_node(NodeType::Use, None, State::new(), Behavior::Container);
    let child = tree.new_node(NodeType::Rect, Some(node), state_with_color(9), Behavior::Shape);
    tree.add_child(node, child);

    // plant a distinguishable sentinel in the child's cached style
    let sentinel = ComputedValues { color: 123456, opacity: 1, overflow: Overflow::Hidden };
    tree.set_computed_values(child, &sentinel);

    let mut custom = default_values();
    custom.opacity = 77;
    let ctx = rsvg_tree::node::CascadedValues::new_from_values(&tree, node, &custom);
    let derived = ctx.new(&tree, child);
    let resolved = *derived.get(&tree);

    // the child's own override and the custom snapshot both show; nothing of
    // the sentinel does
    assert_eq!(resolved.color, 9);
    assert_eq!(resolved.opacity, 77);
    assert_eq!(resolved.overflow, Overflow::Visible);
}

#[test]
fn borrowing_context_follows_the_cascade() {
    let mut tree = Tree::new();
    let root = tree.new_node(NodeType::Svg, None, state_with_color(8), Behavior::Container);
    let child = tree.new_node(NodeType::Rect, Some(root), State::new(), Behavior::Shape);
    tree.add_child(root, child);
    tree.cascade(root, &default_values());

    let ctx = tree.get_cascaded_values(root);
    assert_eq!(ctx.get(&tree).color, 8);

    let derived = ctx.new(&tree, child);
    assert_eq!(*derived.get(&tree), tree.get_computed_values(child));
}

#[test]
fn set_atts_parses_the_transform() {
    let mut tree = Tree::new();
    let node = tree.new_node(NodeType::Group, None, State::new(), Behavior::Container);

    let mut bag = PropertyBag::new();
    bag.push(PropertyBagEntry {
        name: String::from("transform"),
        attribute: Some(Attribute::Transform),
        value: b"1 0 0 1 10 -20".to_vec(),
    });
    tree.set_atts(node, &bag);

    assert!(tree.get_result(node).is_ok());
    assert_eq!(
        tree.get_transform(node),
        Matrix { xx: 1, yx: 0, xy: 0, yy: 1, x0: 10, y0: -20 }
    );
}

#[test]
fn set_atts_last_transform_wins() {
    let mut tree = Tree::new();
    let node = tree.new_node(NodeType::Group, None, State::new(), Behavior::Container);

    let mut bag = PropertyBag::new();
    bag.push(PropertyBagEntry {
        name: String::from("transform"),
        attribute: Some(Attribute::Transform),
        value: b"1 0 0 1 1 1".to_vec(),
    });
    bag.push(PropertyBagEntry {
        name: String::from("transform"),
        attribute: Some(Attribute::Transform),
        value: b"2 0 0 2 0 0".to_vec(),
    });
    tree.set_atts(node, &bag);

    assert_eq!(tree.get_transform(node), Matrix { xx: 2, yx: 0, xy: 0, yy: 2, x0: 0, y0: 0 });
}

#[test]
fn set_atts_stops_at_first_bad_transform() {
    let mut tree = Tree::new();
    let node = tree.new_node(NodeType::Group, None, State::new(), Behavior::Container);

    let mut bag = PropertyBag::new();
    bag.push(PropertyBagEntry {
        name: String::from("transform"),
        attribute: Some(Attribute::Transform),
        value: b"3 0 0 3 0 0".to_vec(),
    });
    bag.push(PropertyBagEntry {
        name: String::from("transform"),
        attribute: Some(Attribute::Transform),
        value: b"not a matrix".to_vec(),
    });
    bag.push(PropertyBagEntry {
        name: String::from("transform"),
        attribute: Some(Attribute::Transform),
        value: b"5 0 0 5 0 0".to_vec(),
    });
    tree.set_atts(node, &bag);

    // the entry before the failure took effect; the one after did not
    assert_eq!(tree.get_transform(node), Matrix { xx: 3, yx: 0, xy: 0, yy: 3, x0: 0, y0: 0 });
    assert!(tree.is_in_error(node));
    let err = tree.get_result(node).unwrap_err();
    assert_eq!(err.attribute, Attribute::Transform);
}

#[test]
fn set_atts_ignores_unrecognized_attributes() {
    let mut tree = Tree::new();
    let node = tree.new_node(NodeType::Group, None, State::new(), Behavior::Container);

    let mut bag = PropertyBag::new();
    bag.push(PropertyBagEntry {
        name: String::from("unknown"),
        attribute: None,
        value: b"whatever".to_vec(),
    });
    bag.push(PropertyBagEntry {
        name: String::from("color"),
        attribute: Some(Attribute::Color),
        value: b"red".to_vec(),
    });
    tree.set_atts(node, &bag);

    assert!(!tree.is_in_error(node));
    assert_eq!(tree.get_transform(node), Matrix::identity());
}

#[test]
fn set_atts_never_clears_an_error() {
    let mut tree = Tree::new();
    let node = tree.new_node(NodeType::Group, None, State::new(), Behavior::Container);
    tree.set_error(node, NodeError::value_error(Attribute::Opacity, "bad"));

    let bag = PropertyBag::new();
    tree.set_atts(node, &bag);

    assert!(tree.is_in_error(node));
    assert_eq!(tree.get_result(node).unwrap_err().attribute, Attribute::Opacity);
}

#[test]
fn transform_parse_rejects_malformed_values() {
    assert!(Matrix::parse(b"").is_err());
    assert!(Matrix::parse(b"1 2 3 4 5").is_err());
    assert!(Matrix::parse(b"1 2 3 4 5 6 7").is_err());
    assert!(Matrix::parse(b"1 2 3 4 5 x").is_err());
    assert!(Matrix::parse(b"1 2 3 4 5 -").is_err());
    assert!(Matrix::parse(b"1 2 3 4 5  6").is_err());
    // nineteen digits are past the numeral grammar's limit
    assert!(Matrix::parse(b"1 2 3 4 5 1234567890123456789").is_err());
    // eighteen are not
    assert_eq!(
        Matrix::parse(b"1 2 3 4 5 123456789012345678").unwrap().y0,
        123456789012345678
    );
    assert_eq!(Matrix::parse(b"-1 0 0 -1 0 0").unwrap().xx, -1);
}

#[test]
fn matrix_composition_applies_right_hand_side_first() {
    // a translation composed onto a scale
    let scale = Matrix { xx: 2, yx: 0, xy: 0, yy: 2, x0: 0, y0: 0 };
    let translate = Matrix { xx: 1, yx: 0, xy: 0, yy: 1, x0: 3, y0: 4 };

    let composed = scale.multiply(&translate);
    assert_eq!(composed, Matrix { xx: 2, yx: 0, xy: 0, yy: 2, x0: 6, y0: 8 });

    assert_eq!(scale.multiply(&Matrix::identity()), scale);
    assert_eq!(Matrix::identity().multiply(&scale), scale);
}

#[test]
fn draw_restores_the_surface_transform() {
    let mut tree = Tree::new();
    let root = tree.new_node(NodeType::Svg, None, State::new(), Behavior::Container);
    let shape = tree.new_node(NodeType::Rect, Some(root), State::new(), Behavior::Shape);
    tree.add_child(root, shape);

    let mut bag = PropertyBag::new();
    bag.push(PropertyBagEntry {
        name: String::from("transform"),
        attribute: Some(Attribute::Transform),
        value: b"1 0 0 1 5 5".to_vec(),
    });
    tree.set_atts(shape, &bag);
    tree.cascade(root, &default_values());

    let mut surface = Surface::new();
    let before = Matrix { xx: 7, yx: 0, xy: 0, yy: 7, x0: 1, y0: 2 };
    surface.set_matrix(before);

    let cascaded = tree.get_cascaded_values(root);
    tree.draw(root, &cascaded, &mut surface, 0, false);

    assert_eq!(surface.transform, before);
    assert_eq!(surface.log.len(), 3);
    assert_eq!(surface.log[1], DrawOp::Shape(shape));
}

#[test]
fn draw_with_isolation_sentinel_skips_bracketing() {
    let mut tree = Tree::new();
    let root = tree.new_node(NodeType::Group, None, State::new(), Behavior::Container);
    let shape = tree.new_node(NodeType::Rect, Some(root), State::new(), Behavior::Shape);
    tree.add_child(root, shape);
    tree.cascade(root, &default_values());

    let mut surface = Surface::new();
    let cascaded = tree.get_cascaded_values(root);
    tree.draw(root, &cascaded, &mut surface, -1, false);

    assert_eq!(surface.log, vec![DrawOp::Shape(shape)]);
}

#[test]
fn non_rendering_nodes_draw_nothing() {
    let mut tree = Tree::new();
    let root = tree.new_node(NodeType::Group, None, State::new(), Behavior::Container);
    let defs = tree.new_node(NodeType::Defs, Some(root), State::new(), Behavior::NonRendering);
    let shape = tree.new_node(NodeType::Rect, Some(root), State::new(), Behavior::Shape);
    tree.add_child(root, defs);
    tree.add_child(root, shape);
    tree.cascade(root, &default_values());

    let mut surface = Surface::new();
    let cascaded = tree.get_cascaded_values(root);
    tree.draw(root, &cascaded, &mut surface, -1, false);

    assert_eq!(surface.log, vec![DrawOp::Shape(shape)]);
}

#[test]
fn set_overflow_hidden_is_specified_and_cascades() {
    let mut tree = Tree::new();
    let node = tree.new_node(NodeType::Svg, None, State::new(), Behavior::Container);

    tree.set_overflow_hidden(node);
    assert_eq!(
        tree.get_state(node).values.overflow,
        SpecifiedValue::Specified(Overflow::Hidden)
    );

    tree.cascade(node, &default_values());
    assert_eq!(tree.get_computed_values(node).overflow, Overflow::Hidden);
}

#[test]
fn set_overriden_properties_leaves_state_alone() {
    let mut tree = Tree::new();
    let node = tree.new_node(NodeType::Group, None, state_with_color(4), Behavior::Container);
    tree.set_overriden_properties(node);
    assert_eq!(tree.get_state(node).values.color, SpecifiedValue::Specified(4));
}

#[test]
fn behavior_recovery_matches_construction() {
    let mut tree = Tree::new();
    let group = tree.new_node(NodeType::Group, None, State::new(), Behavior::Container);
    let shape = tree.new_node(NodeType::Rect, Some(group), State::new(), Behavior::Shape);
    tree.add_child(group, shape);

    assert_eq!(tree.get_behavior(group), Behavior::Container);
    assert_eq!(tree.get_behavior(shape), Behavior::Shape);
}

#[test]
fn default_style_values() {
    let values = ComputedValues::default();
    assert_eq!(values, default_values());

    let state = State::default();
    assert_eq!(state.values, rsvg_tree::state::SpecifiedValues::default());
    assert_eq!(state.values.color, SpecifiedValue::Unspecified);
    assert_eq!(state.values.opacity, SpecifiedValue::Unspecified);
    assert_eq!(state.values.overflow, SpecifiedValue::Unspecified);
}

#[test]
fn property_bag_keeps_its_entries_in_order() {
    let mut bag = PropertyBag::new();
    assert_eq!(bag.len(), 0);
    bag.push(PropertyBagEntry {
        name: String::from("transform"),
        attribute: Some(Attribute::Transform),
        value: b"1 0 0 1 0 0".to_vec(),
    });
    bag.push(PropertyBagEntry {
        name: String::from("overflow"),
        attribute: Some(Attribute::Overflow),
        value: b"hidden".to_vec(),
    });
    assert_eq!(bag.len(), 2);
    assert_eq!(bag.entries[0].name, "transform");
    assert_eq!(bag.entries[1].attribute, Some(Attribute::Overflow));
}

#[test]
fn dropping_the_tree_reclaims_every_node() {
    // ownership is strictly downward: the arena owns the nodes, parent links
    // are bare indices, and dropping the tree frees the whole structure
    let mut tree = Tree::new();
    let root = tree.new_node(NodeType::Svg, None, State::new(), Behavior::Container);
    let child = tree.new_node(NodeType::Rect, Some(root), State::new(), Behavior::Shape);
    tree.add_child(root, child);

    drop(tree);

    let tree = Tree::new();
    assert!(tree.nodes.is_empty());
}

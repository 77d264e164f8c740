use menu_tree::builder::{build, build_menu, Result};
use menu_tree::menu::{MenuItem, RawMenuItem};

fn raw(id: usize, parent_id: Option<usize>) -> RawMenuItem {
    RawMenuItem {
        id,
        name: format!("item {}", id),
        url: format!("/item/{}", id),
        parent_id,
    }
}

/// Renders a forest as `id(children...)` terms separated by spaces.
fn shape(nodes: &[MenuItem]) -> String {
    let mut out = String::new();
    for (i, n) in nodes.iter().enumerate() {
        if i > 0 {
            out.push(' ');
        }
        out.push_str(&n.id.to_string());
        if !n.children.is_empty() {
            out.push('(');
            out.push_str(&shape(&n.children));
            out.push(')');
        }
    }
    out
}

#[test]
fn empty_input_gives_empty_forest() {
    assert!(build(&vec![]).is_empty());
}

#[test]
fn single_root() {
    let forest = build(&vec![raw(7, None)]);
    assert_eq!(forest.len(), 1);
    assert_eq!(forest[0].id, 7);
    assert_eq!(forest[0].name, "item 7");
    assert_eq!(forest[0].url, "/item/7");
    assert!(forest[0].children.is_empty());
}

#[test]
fn forward_reference_resolution() {
    let child_first = build(&vec![raw(2, Some(1)), raw(1, None)]);
    let parent_first = build(&vec![raw(1, None), raw(2, Some(1))]);
    assert_eq!(shape(&child_first), "1(2)");
    assert_eq!(shape(&parent_first), "1(2)");
    assert_eq!(child_first[0].children[0].name, "item 2");
    assert!(child_first[0].children[0].children.is_empty());
}

#[test]
fn deep_chain() {
    let forest = build(&vec![raw(3, Some(2)), raw(2, Some(1)), raw(1, None)]);
    assert_eq!(shape(&forest), "1(2(3))");
}

#[test]
fn unresolvable_parent() {
    let forest = build(&vec![raw(5, Some(99))]);
    assert!(forest.is_empty());
}

#[test]
fn unresolvable_parent_drops_subtree() {
    let forest = build(&vec![raw(6, Some(5)), raw(5, Some(99)), raw(1, None)]);
    assert_eq!(shape(&forest), "1");
}

#[test]
fn malformed_input_gives_empty_forest() {
    assert!(build_menu(None).is_empty());
}

#[test]
fn decoded_input_is_built() {
    let forest = build_menu(Some(vec![raw(2, Some(1)), raw(1, None)]));
    assert_eq!(shape(&forest), "1(2)");
}

#[test]
fn idempotent_shape() {
    let items = vec![raw(4, Some(2)), raw(2, Some(1)), raw(1, None), raw(3, Some(1))];
    assert_eq!(shape(&build(&items)), shape(&build(&items)));
    assert_eq!(shape(&build(&items)), "1(2(4) 3)");
}

#[test]
fn siblings_keep_first_seen_order() {
    let forest = build(&vec![
        raw(3, Some(1)),
        raw(2, Some(1)),
        raw(1, None),
        raw(5, Some(1)),
        raw(4, Some(1)),
    ]);
    assert_eq!(shape(&forest), "1(3 2 5 4)");
}

#[test]
fn roots_keep_input_order() {
    let forest = build(&vec![raw(9, None), raw(4, None), raw(6, None)]);
    assert_eq!(shape(&forest), "9 4 6");
}

#[test]
fn order_independence_of_edges() {
    let a = build(&vec![raw(1, None), raw(2, Some(1)), raw(3, Some(2)), raw(4, Some(1))]);
    let b = build(&vec![raw(3, Some(2)), raw(4, Some(1)), raw(2, Some(1)), raw(1, None)]);
    assert_eq!(shape(&a), "1(2(3) 4)");
    assert_eq!(shape(&b), "1(4 2(3))");
}

#[test]
fn released_children_can_take_children() {
    // 2 waits for 1; once 1 is placed, 2 is placed with it and 3 can join it.
    let forest = build(&vec![raw(2, Some(1)), raw(1, None), raw(3, Some(2))]);
    assert_eq!(shape(&forest), "1(2(3))");
}

#[test]
fn child_of_waiting_node_joins_it() {
    // 2 is built (with its waiting child 3) and waits for 1; 4 arrives while
    // 2 is still waiting and joins 2 in the pool.
    let forest = build(&vec![raw(3, Some(2)), raw(2, Some(1)), raw(4, Some(2)), raw(1, None)]);
    assert_eq!(shape(&forest), "1(2(3 4))");
}

#[test]
fn child_arriving_after_waiting_parent() {
    let forest = build(&vec![raw(2, Some(1)), raw(3, Some(2)), raw(1, None)]);
    assert_eq!(shape(&forest), "1(2(3))");
}

#[test]
fn permutations_give_same_edges() {
    let orders = vec![
        vec![raw(1, None), raw(2, Some(1)), raw(3, Some(2))],
        vec![raw(3, Some(2)), raw(2, Some(1)), raw(1, None)],
        vec![raw(2, Some(1)), raw(3, Some(2)), raw(1, None)],
        vec![raw(3, Some(2)), raw(1, None), raw(2, Some(1))],
    ];
    for items in &orders {
        assert_eq!(shape(&build(items)), "1(2(3))");
    }
}

#[test]
fn deep_waiting_chain_keeps_sibling_order() {
    let forest = build(&vec![
        raw(5, Some(3)),
        raw(3, Some(2)),
        raw(6, Some(3)),
        raw(2, Some(1)),
        raw(4, Some(2)),
        raw(1, None),
    ]);
    assert_eq!(shape(&forest), "1(2(3(5 6) 4))");
}

#[test]
fn self_parent_is_never_placed() {
    let forest = build(&vec![raw(1, Some(1)), raw(2, None)]);
    assert_eq!(shape(&forest), "2");
}

#[test]
fn menu_item_new_without_children() {
    let item = MenuItem::new(3, "a".to_string(), "/a".to_string(), None);
    assert_eq!(item.id, 3);
    assert_eq!(item.name, "a");
    assert_eq!(item.url, "/a");
    assert!(item.children.is_empty());
}

#[test]
fn menu_item_new_with_children() {
    let child = MenuItem::new(4, "b".to_string(), "/b".to_string(), None);
    let item = MenuItem::new(3, "a".to_string(), "/a".to_string(), Some(vec![child]));
    assert_eq!(shape(&[item]), "3(4)");
}

#[test]
fn result_new_is_empty() {
    let r = Result::new();
    assert!(r.nodes.is_empty());
    assert!(r.nodes_map.is_empty());
    assert!(r.holding_nodes.is_empty());
    assert!(r.pooled_map.is_empty());
}

fn collect_ids(nodes: &[MenuItem], out: &mut Vec<usize>) {
    for n in nodes {
        out.push(n.id);
        collect_ids(&n.children, out);
    }
}

#[test]
fn resolvable_ids_appear_exactly_once() {
    let forest = build(&vec![
        raw(1, None),
        raw(2, Some(1)),
        raw(3, Some(2)),
        raw(4, Some(77)),
        raw(5, None),
        raw(6, Some(5)),
    ]);
    let mut ids = Vec::new();
    collect_ids(&forest, &mut ids);
    ids.sort();
    assert_eq!(ids, vec![1, 2, 3, 5, 6]);
    assert_eq!(shape(&forest), "1(2(3)) 5(6)");
}

#[test]
fn parents_first_input_places_every_rooted_item() {
    let forest = build(&vec![
        raw(10, None),
        raw(11, Some(10)),
        raw(12, Some(11)),
        raw(13, Some(12)),
        raw(14, Some(10)),
    ]);
    assert_eq!(shape(&forest), "10(11(12(13)) 14)");
}

#[test]
fn waiting_subtree_is_placed_with_its_parent() {
    // 4 waits for 3, 3 (holding 4) waits for 2; 2 is placed, then 5 joins 4.
    let forest = build(&vec![
        raw(4, Some(3)),
        raw(3, Some(2)),
        raw(1, None),
        raw(2, Some(1)),
        raw(5, Some(4)),
    ]);
    assert_eq!(shape(&forest), "1(2(3(4(5))))");
}

#[test]
fn parents_first_orderings_share_edges() {
    let a = build(&vec![raw(1, None), raw(2, Some(1)), raw(3, Some(1)), raw(4, Some(3))]);
    let b = build(&vec![raw(1, None), raw(3, Some(1)), raw(4, Some(3)), raw(2, Some(1))]);
    assert_eq!(shape(&a), "1(2 3(4))");
    assert_eq!(shape(&b), "1(3(4) 2)");
}

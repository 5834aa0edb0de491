use chadpath::item::{Item, Node, NodeType};
use chadpath::transform::context::Context;
use chadpath::transform::navigate::{
    compose, context, filter, filter_predicates, filter_seq, get_node, get_node_unchecked, is_reverse_axis,
    nodes_in_document_order, root, step, step_in_axis_order, step_predicated,
};
use chadpath::xdmerror::Error;
use chadpath::transform::{Axis, NodeMatch};
use chadpath::trees::{Tree, TreeNode};
use chadpath::xdmerror::ErrorKind;

// 0 document
//   1 element r
//     2 element a
//       3 attribute of a
//       4 element b
//     5 element c
//       6 element d
fn tree() -> Tree {
    let mut t = Tree::new();
    assert_eq!(t.add(NodeType::Element, 0), Some(1));
    assert_eq!(t.add(NodeType::Element, 1), Some(2));
    assert_eq!(t.add(NodeType::Attribute, 2), Some(3));
    assert_eq!(t.add(NodeType::Element, 2), Some(4));
    assert_eq!(t.add(NodeType::Element, 1), Some(5));
    assert_eq!(t.add(NodeType::Element, 5), Some(6));
    t
}

fn ids(r: &[Item<TreeNode<'_>, i32>]) -> Vec<usize> {
    r.iter()
        .map(|i| match i {
            Item::Node(n) => n.number(),
            Item::Value(_) => usize::MAX,
        })
        .collect()
}

fn ctx_of<'a>(t: &'a Tree, nodes: &[usize]) -> Context<TreeNode<'a>, i32> {
    Context { context: nodes.iter().map(|n| Item::Node(t.node(*n))).collect(), context_item: None }
}

fn all(_: &TreeNode<'_>) -> bool {
    true
}

fn run(t: &Tree, nodes: &[usize], axis: Axis) -> Vec<usize> {
    let c = ctx_of(t, nodes);
    ids(&step(&c, &NodeMatch { axis, nodetest: all }).unwrap())
}

#[test]
fn tree_refuses_nodes_out_of_document_order() {
    let mut t = tree();
    // node 2 is not the last node nor one of its ancestors
    assert_eq!(t.add(NodeType::Element, 2), None);
    // an attribute cannot follow its element's children
    assert_eq!(t.add(NodeType::Attribute, 1), None);
    assert_eq!(t.add(NodeType::Document, 6), None);
    assert_eq!(t.add(NodeType::Element, 9), None);
    assert_eq!(t.len(), 7);
}

#[test]
fn tree_relations() {
    let t = tree();
    let n = |i: usize| t.node(i);
    let nums = |v: Vec<TreeNode<'_>>| v.iter().map(|x| x.number()).collect::<Vec<_>>();
    assert_eq!(nums(n(1).children()), vec![2, 5]);
    assert_eq!(nums(n(2).children()), vec![4]);
    assert_eq!(nums(n(2).attributes()), vec![3]);
    assert_eq!(nums(n(1).descendants()), vec![2, 4, 5, 6]);
    assert_eq!(nums(n(6).ancestors()), vec![5, 1, 0]);
    assert_eq!(nums(n(2).following_siblings()), vec![5]);
    assert_eq!(nums(n(5).preceding_siblings()), vec![2]);
    assert_eq!(nums(n(3).following_siblings()), Vec::<usize>::new());
    assert_eq!(n(3).parent().unwrap().number(), 2);
    assert_eq!(n(4).owner_document().number(), 0);
    assert_eq!(n(3).node_type(), NodeType::Attribute);
    assert!(n(4).is_same(&n(4)));
    assert_eq!(n(2).cmp_document_order(&n(5)), std::cmp::Ordering::Less);
}

#[test]
fn root_of_element_is_document() {
    let t = tree();
    let c = Context { context: vec![], context_item: Some(Item::<TreeNode<'_>, i32>::Node(t.node(4))) };
    assert_eq!(ids(&root(&c).unwrap()), vec![0]);
    let d = Context { context: vec![], context_item: Some(Item::<TreeNode<'_>, i32>::Node(t.node(0))) };
    assert_eq!(ids(&root(&d).unwrap()), vec![0]);
}

#[test]
fn root_without_node_fails() {
    let c: Context<TreeNode<'_>, i32> = Context { context: vec![], context_item: None };
    let e = root(&c).unwrap_err();
    assert_eq!(e.kind, ErrorKind::ContextNotNode);
    assert_eq!(e.message, "no context");
    let v: Context<TreeNode<'_>, i32> = Context { context: vec![], context_item: Some(Item::Value(1)) };
    let e = root(&v).unwrap_err();
    assert_eq!(e.kind, ErrorKind::ContextNotNode);
    assert_eq!(e.message, "context item is not a node");
}

#[test]
fn context_item_is_returned() {
    let c: Context<TreeNode<'_>, i32> = Context { context: vec![], context_item: Some(Item::Value(7)) };
    let r = context(&c).unwrap();
    assert_eq!(r.len(), 1);
    assert!(matches!(r[0], Item::Value(7)));
    let none: Context<TreeNode<'_>, i32> = Context { context: vec![], context_item: None };
    let e = context(&none).unwrap_err();
    assert_eq!(e.kind, ErrorKind::DynamicAbsent);
    assert_eq!(e.message, "no context");
}

#[test]
fn get_node_of_items() {
    let t = tree();
    let i: Item<TreeNode<'_>, i32> = Item::Node(t.node(5));
    assert_eq!(get_node(&i).unwrap().number(), 5);
    assert_eq!(get_node_unchecked(&i).number(), 5);
    let v: Item<TreeNode<'_>, i32> = Item::Value(1);
    let e = get_node(&v).unwrap_err();
    assert_eq!(e.kind, ErrorKind::Unknown);
    assert_eq!(e.message, "not a node");
}

#[test]
fn child_step_merges_in_document_order() {
    let t = tree();
    // Children of c (6) and of r (2, 5); r given twice and after c.
    assert_eq!(run(&t, &[5, 1, 1], Axis::Child), vec![2, 5, 6]);
}

#[test]
fn step_applies_the_node_test() {
    let t = tree();
    let c = ctx_of(&t, &[0]);
    let nm = NodeMatch { axis: Axis::Descendant, nodetest: |n: &TreeNode<'_>| n.number() % 2 == 0 };
    assert_eq!(ids(&step(&c, &nm).unwrap()), vec![2, 4, 6]);
}

#[test]
fn every_axis_from_one_node() {
    let t = tree();
    assert_eq!(run(&t, &[2], Axis::SelfAxis), vec![2]);
    assert_eq!(run(&t, &[2], Axis::SelfDocument), Vec::<usize>::new());
    assert_eq!(run(&t, &[0], Axis::SelfDocument), vec![0]);
    assert_eq!(run(&t, &[2], Axis::Parent), vec![1]);
    assert_eq!(run(&t, &[0], Axis::ParentDocument), vec![0]);
    assert_eq!(run(&t, &[2], Axis::Descendant), vec![4]);
    assert_eq!(run(&t, &[2], Axis::DescendantOrSelf), vec![2, 4]);
    assert_eq!(run(&t, &[2], Axis::DescendantOrSelfOrRoot), vec![0, 2, 4]);
    assert_eq!(run(&t, &[4], Axis::Ancestor), vec![0, 1, 2]);
    assert_eq!(run(&t, &[4], Axis::AncestorOrSelf), vec![0, 1, 2, 4]);
    assert_eq!(run(&t, &[2], Axis::FollowingSibling), vec![5]);
    assert_eq!(run(&t, &[5], Axis::PrecedingSibling), vec![2]);
    assert_eq!(run(&t, &[4], Axis::Following), vec![5, 6]);
    assert_eq!(run(&t, &[6], Axis::Preceding), vec![2, 4]);
    assert_eq!(run(&t, &[2], Axis::Attribute), vec![3]);
    assert_eq!(run(&t, &[3], Axis::SelfAttribute), vec![3]);
    assert_eq!(run(&t, &[2], Axis::SelfAttribute), Vec::<usize>::new());
}

#[test]
fn parent_must_pass_the_test() {
    let t = tree();
    let c = ctx_of(&t, &[4, 3]);
    let none = NodeMatch { axis: Axis::Parent, nodetest: |_: &TreeNode<'_>| false };
    assert_eq!(ids(&step(&c, &none).unwrap()), Vec::<usize>::new());
    let even = NodeMatch { axis: Axis::Parent, nodetest: |n: &TreeNode<'_>| n.number() % 2 == 0 };
    assert_eq!(ids(&step(&c, &even).unwrap()), vec![2]);
    let c5 = ctx_of(&t, &[6]);
    assert_eq!(ids(&step(&c5, &even).unwrap()), Vec::<usize>::new());
}

#[test]
fn step_over_a_value_fails_with_code() {
    let t = tree();
    let c: Context<TreeNode<'_>, i32> =
        Context { context: vec![Item::Node(t.node(1)), Item::Value(3)], context_item: None };
    let e = step(&c, &NodeMatch { axis: Axis::Child, nodetest: all }).unwrap_err();
    assert_eq!(e.kind, ErrorKind::DynamicAbsent);
    assert_eq!(e.message, "context item is not a node");
    let code = e.code.unwrap();
    assert_eq!(code.local_name().to_string(), "XTTE0510");
    assert!(code.namespace_uri().is_none());
}

#[test]
fn unsupported_axis_is_not_implemented() {
    let t = tree();
    for axis in [Axis::Namespace, Axis::AncestorOrSelfOrRoot, Axis::Unknown] {
        let c = ctx_of(&t, &[1]);
        let e = step(&c, &NodeMatch { axis, nodetest: all }).unwrap_err();
        assert_eq!(e.kind, ErrorKind::NotImplemented);
        assert_eq!(e.message, "coming soon");
        assert!(e.code.is_none());
    }
}

#[test]
fn empty_context_gives_empty_step() {
    let t = tree();
    assert_eq!(run(&t, &[], Axis::Namespace), Vec::<usize>::new());
}

#[test]
fn reverse_axes() {
    assert!(is_reverse_axis(Axis::Ancestor));
    assert!(is_reverse_axis(Axis::AncestorOrSelf));
    assert!(is_reverse_axis(Axis::AncestorOrSelfOrRoot));
    assert!(is_reverse_axis(Axis::Preceding));
    assert!(is_reverse_axis(Axis::PrecedingSibling));
    assert!(!is_reverse_axis(Axis::Child));
    assert!(!is_reverse_axis(Axis::Following));
}

#[test]
fn axis_order_puts_nearest_first_on_reverse_axes() {
    let t = tree();
    let it: Item<TreeNode<'_>, i32> = Item::Node(t.node(4));
    let anc = step_in_axis_order(&it, &NodeMatch { axis: Axis::Ancestor, nodetest: all }).unwrap();
    assert_eq!(ids(&anc), vec![2, 1, 0]);
    let fwd = step_in_axis_order(&it, &NodeMatch { axis: Axis::Following, nodetest: all }).unwrap();
    assert_eq!(ids(&fwd), vec![5, 6]);
    let v: Item<TreeNode<'_>, i32> = Item::Value(2);
    let e = step_in_axis_order(&v, &NodeMatch { axis: Axis::Child, nodetest: all }).unwrap_err();
    assert_eq!(e.kind, ErrorKind::DynamicAbsent);
}

#[test]
fn merged_node_lists_are_in_document_order_once() {
    let t = tree();
    let items: Vec<Item<TreeNode<'_>, i32>> =
        [6, 2, 4, 2, 0, 6].iter().map(|n| Item::Node(t.node(*n))).collect();
    assert_eq!(ids(&nodes_in_document_order(items)), vec![0, 2, 4, 6]);
    assert!(nodes_in_document_order(Vec::<Item<TreeNode<'_>, i32>>::new()).is_empty());
}

type Items<'a> = Vec<Item<TreeNode<'a>, i32>>;

fn first<'a>(s: Items<'a>, _current: &Item<TreeNode<'a>, i32>) -> Result<Items<'a>, Error> {
    Ok(s.into_iter().take(1).collect())
}

fn keep<'a>(s: Items<'a>, _current: &Item<TreeNode<'a>, i32>) -> Result<Items<'a>, Error> {
    Ok(s)
}

#[test]
fn predicates_apply_per_context_node() {
    let t = tree();
    // The first child of a (2) and of c (5): positions count within each parent.
    let c = ctx_of(&t, &[5, 2]);
    let r = step_predicated(&c, &NodeMatch { axis: Axis::Child, nodetest: all }, &first).unwrap();
    assert_eq!(ids(&r), vec![4, 6]);
    // On a reverse axis the first is the nearest.
    let c = ctx_of(&t, &[4]);
    let r = step_predicated(&c, &NodeMatch { axis: Axis::Ancestor, nodetest: all }, &first).unwrap();
    assert_eq!(ids(&r), vec![2]);
    // Without predicates (a filter that keeps everything) it is the plain step.
    let c = ctx_of(&t, &[4, 2]);
    let r = step_predicated(&c, &NodeMatch { axis: Axis::Ancestor, nodetest: all }, &keep).unwrap();
    assert_eq!(ids(&r), vec![0, 1, 2]);
}

#[test]
fn predicate_errors_propagate() {
    let t = tree();
    let fail = |_: Items<'_>, _: &Item<TreeNode<'_>, i32>| -> Result<Items<'_>, Error> {
        Err(Error::new(ErrorKind::Unknown, String::from("bad predicate")))
    };
    let c = ctx_of(&t, &[1]);
    let e = step_predicated(&c, &NodeMatch { axis: Axis::Child, nodetest: all }, &fail).unwrap_err();
    assert_eq!(e.message, "bad predicate");
    let e = step_predicated(&c, &NodeMatch { axis: Axis::Namespace, nodetest: all }, &first).unwrap_err();
    assert_eq!(e.kind, ErrorKind::NotImplemented);
}

#[test]
fn following_and_preceding_keep_to_their_side() {
    let t = tree();
    for n in 0..7usize {
        let desc = run(&t, &[n], Axis::Descendant);
        let anc = run(&t, &[n], Axis::Ancestor);
        for m in run(&t, &[n], Axis::Following) {
            assert!(m > n);
            assert!(desc.iter().all(|d| *d < m));
            assert!(!anc.contains(&m));
        }
        for m in run(&t, &[n], Axis::Preceding) {
            assert!(m < n);
            assert!(!anc.contains(&m));
            assert!(!desc.contains(&m));
        }
    }
    // From an attribute, the following axis starts after its element's subtree.
    assert_eq!(run(&t, &[3], Axis::Following), vec![5, 6]);
    assert_eq!(run(&t, &[5], Axis::Preceding), vec![2, 4]);
}

#[test]
fn relations_lie_on_their_side_in_document_order() {
    let t = tree();
    for n in 0..7usize {
        for m in run(&t, &[n], Axis::Child)
            .into_iter()
            .chain(run(&t, &[n], Axis::Attribute))
            .chain(run(&t, &[n], Axis::FollowingSibling))
        {
            assert!(m > n);
        }
        for m in run(&t, &[n], Axis::Parent).into_iter().chain(run(&t, &[n], Axis::PrecedingSibling)) {
            assert!(m < n);
        }
    }
}

fn is_last(_: &Item<TreeNode<'_>, i32>, k: usize, n: usize) -> Result<bool, Error> {
    Ok(k + 1 == n)
}

fn at_even_position(_: &Item<TreeNode<'_>, i32>, k: usize, _n: usize) -> Result<bool, Error> {
    Ok((k + 1) % 2 == 0)
}

#[test]
fn filter_numbers_positions_within_the_list() {
    let t = tree();
    let items: Items<'_> = [1, 2, 4, 5, 6].iter().map(|n| Item::Node(t.node(*n))).collect();
    assert_eq!(ids(&filter_seq(&items, &is_last).unwrap()), vec![6]);
    assert_eq!(ids(&filter_seq(&items, &at_even_position).unwrap()), vec![2, 5]);
    assert!(filter_seq(&Vec::<Item<TreeNode<'_>, i32>>::new(), &is_last).unwrap().is_empty());
    // Values are carried through like nodes.
    let vals: Items<'_> = vec![Item::Value(7), Item::Value(8), Item::Value(9)];
    let r = filter_seq(&vals, &at_even_position).unwrap();
    assert_eq!(r.len(), 1);
    assert!(matches!(r[0], Item::Value(8)));
}

#[test]
fn filter_applies_over_the_whole_context() {
    let t = tree();
    let c = ctx_of(&t, &[2, 4, 6]);
    assert_eq!(ids(&filter(&c, &is_last).unwrap()), vec![6]);
    let failing = |_: &Item<TreeNode<'_>, i32>, k: usize, _n: usize| -> Result<bool, Error> {
        if k == 1 {
            Err(Error::new(ErrorKind::Unknown, String::from("bad predicate")))
        } else {
            Ok(true)
        }
    };
    let e = filter(&c, &failing).unwrap_err();
    assert_eq!(e.kind, ErrorKind::Unknown);
}

fn keep_first(_p: usize, _: &Item<TreeNode<'_>, i32>, k: usize, _n: usize) -> Result<bool, Error> {
    Ok(k == 0)
}

fn drop_first_then_keep_last(p: usize, _: &Item<TreeNode<'_>, i32>, k: usize, n: usize) -> Result<bool, Error> {
    Ok(if p == 0 { k > 0 } else { k + 1 == n })
}

#[test]
fn predicates_apply_in_turn() {
    let t = tree();
    let items: Items<'_> = [1, 2, 4, 5, 6].iter().map(|n| Item::Node(t.node(*n))).collect();
    // [2, 4, 5, 6], then its last.
    assert_eq!(ids(&filter_predicates(&items, 2, &drop_first_then_keep_last).unwrap()), vec![6]);
    assert_eq!(ids(&filter_predicates(&items, 3, &keep_first).unwrap()), vec![1]);
    assert_eq!(ids(&filter_predicates(&items, 0, &keep_first).unwrap()), vec![1, 2, 4, 5, 6]);
    let fail_second = |p: usize, _: &Item<TreeNode<'_>, i32>, _k: usize, _n: usize| -> Result<bool, Error> {
        if p == 1 {
            Err(Error::new(ErrorKind::Unknown, String::from("second predicate")))
        } else {
            Ok(true)
        }
    };
    assert_eq!(filter_predicates(&items, 2, &fail_second).unwrap_err().message, "second predicate");
}

fn eval_axis<'a>(a: &Axis, s: &Items<'a>, _c: &Context<TreeNode<'a>, i32>) -> Result<Items<'a>, Error> {
    let inner = Context {
        context: s
            .iter()
            .map(|i| match i {
                Item::Node(n) => Item::Node(*n),
                Item::Value(v) => Item::Value(*v),
            })
            .collect(),
        context_item: None,
    };
    step(&inner, &NodeMatch { axis: *a, nodetest: all })
}

#[test]
fn compose_feeds_each_result_to_the_next_step() {
    let t = tree();
    let c = ctx_of(&t, &[1]);
    let axes = vec![Axis::Child, Axis::Child];
    let eval = eval_axis;
    // The children of 1 are 2 and 5; their children 4 and 6.
    assert_eq!(ids(&compose(&c, &axes, &eval).unwrap()), vec![4, 6]);
    assert_eq!(ids(&compose(&c, &Vec::new(), &eval).unwrap()), vec![1]);
    let v = Context { context: vec![Item::Value(3)], context_item: None };
    assert_eq!(compose(&v, &axes, &eval).unwrap_err().kind, ErrorKind::DynamicAbsent);
}

#[test]
fn following_and_preceding_reach_every_node_on_their_side() {
    let t = tree();
    let attr = |m: usize| m == 3;
    for n in [0usize, 1, 2, 4, 5, 6] {
        let desc = run(&t, &[n], Axis::Descendant);
        let anc = run(&t, &[n], Axis::Ancestor);
        let after: Vec<usize> = (0..7).filter(|m| !attr(*m) && *m > n && !desc.contains(m)).collect();
        let before: Vec<usize> = (0..7).filter(|m| !attr(*m) && *m < n && !anc.contains(m)).collect();
        assert_eq!(run(&t, &[n], Axis::Following), after);
        assert_eq!(run(&t, &[n], Axis::Preceding), before);
    }
}

# chadpath (verified core)

XML qualified names and navigation over trees of nodes, written in Verus with
their contracts proved.

- `src/names/` — the XML name grammar (`NCName` characters, normalized
  attribute values), `NcName`, `NamespaceUri`, `NamespacePrefix`, `QName`
  (equality by namespace URI and local part, its order and display form),
  namespace declarations, the map of in-scope namespaces, and a collection of
  qualified names.
- `src/item.rs` — node kinds, items, and the `Node` trait that trees implement,
  with the laws that tie its relations to document order.
- `src/trees.rs` — a tree held in tables, numbered in document order (a
  preorder), that implements `Node` and proves those laws.
- `src/transform/` — axes, node matching, and the navigation routines: the
  root and context item, axis steps (with and without predicates), filtering
  by position, and node-sets in document order.
- `src/xdmerror.rs` — the errors these routines raise.

Evaluating an expression is left to the caller, through closures: `compose`
takes the step evaluator, and the filtering routines (`filter_seq`, `filter`,
`filter_predicates`, and the filter that `step_predicated` takes) take a
`keep` closure that evaluates a predicate for one item. That closure also
makes the decision that a predicate's value stands for: a single number means
a position (the item stays when the number equals its position), anything
else its effective boolean value. The comparison is one of floating-point
numbers, which the verified library does not hold.

`tests/` exercises the library on concrete values.

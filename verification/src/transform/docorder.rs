//! Node-sets in document order: sorting node lists by document order and
//! dropping repeated nodes.

use vstd::prelude::*;

use crate::item::Node;

verus! {

/// The nodes stand in document order, each node once.
pub open spec fn in_document_order<N: Node>(s: Seq<N>) -> bool {
    forall|a: int, b: int|
        0 <= a < b < s.len() ==> #[trigger] s[a].position() < #[trigger] s[b].position()
}

/// The nodes stand in reverse document order, each node once.
pub open spec fn in_reverse_document_order<N: Node>(s: Seq<N>) -> bool {
    forall|a: int, b: int|
        0 <= a < b < s.len() ==> #[trigger] s[a].position() > #[trigger] s[b].position()
}

/// Some node of `s` is the node `m`.
pub open spec fn covers<N: Node>(s: Seq<N>, m: N) -> bool {
    exists|k: int| 0 <= k < s.len() && #[trigger] s[k].position() == m.position()
}

/// `r` holds the nodes of `s`: each node of `s` is in `r`, and each node of
/// `r` comes from `s`.
pub open spec fn same_nodes<N: Node>(s: Seq<N>, r: Seq<N>) -> bool {
    &&& forall|x: N| s.contains(x) ==> covers(r, x)
    &&& forall|x: N| r.contains(x) ==> s.contains(x)
}

proof fn lemma_contains_covers<N: Node>(s: Seq<N>, m: N)
    requires
        s.contains(m),
    ensures
        covers(s, m),
{
    let k = choose|k: int| 0 <= k < s.len() && s[k] == m;
    assert(s[k].position() == m.position());
}

/// Is `a` before `b` in document order?
fn before<N: Node>(a: &N, b: &N) -> (r: bool)
    ensures
        r == (a.position() < b.position()),
{
    match a.cmp_document_order(b) {
        std::cmp::Ordering::Less => true,
        _ => false,
    }
}

/// Merges two node-sets in document order into one, each node once.
fn merge<N: Node>(a: Vec<N>, b: Vec<N>) -> (r: Vec<N>)
    requires
        in_document_order(a@),
        in_document_order(b@),
    ensures
        in_document_order(r@),
        same_nodes(a@ + b@, r@),
{
    let ghost a0 = a@;
    let ghost b0 = b@;
    let mut a = a;
    let mut b = b;
    let mut out: Vec<N> = Vec::new();
    while a.len() > 0 || b.len() > 0
        invariant
            a@.len() <= a0.len(),
            b@.len() <= b0.len(),
            a@ == a0.take(a@.len() as int),
            b@ == b0.take(b@.len() as int),
            in_document_order(a0),
            in_document_order(b0),
            in_reverse_document_order(out@),
            forall|k: int, i: int|
                0 <= k < out@.len() && 0 <= i < a@.len() ==> #[trigger] a@[i].position()
                    < #[trigger] out@[k].position(),
            forall|k: int, i: int|
                0 <= k < out@.len() && 0 <= i < b@.len() ==> #[trigger] b@[i].position()
                    < #[trigger] out@[k].position(),
            forall|x: N| out@.contains(x) ==> a0.contains(x) || b0.contains(x),
            forall|i: int| a@.len() <= i < a0.len() ==> covers(out@, #[trigger] a0[i]),
            forall|i: int| b@.len() <= i < b0.len() ==> covers(out@, #[trigger] b0[i]),
        decreases a@.len() + b@.len(),
    {
        let ghost out0 = out@;
        let ghost la = a@.len();
        let ghost lb = b@.len();
        let take_a;
        let drop_b;
        if a.len() == 0 {
            take_a = false;
            drop_b = false;
        } else if b.len() == 0 {
            take_a = true;
            drop_b = false;
        } else {
            let x = &a[a.len() - 1];
            let y = &b[b.len() - 1];
            if x.is_same(y) {
                take_a = true;
                drop_b = true;
            } else if before(x, y) {
                take_a = false;
                drop_b = false;
            } else {
                take_a = true;
                drop_b = false;
            }
        }
        let x = if take_a {
            a.pop().unwrap()
        } else {
            b.pop().unwrap()
        };
        if drop_b {
            b.pop();
        }
        proof {
            assert(a@ =~= a0.take(a@.len() as int));
            assert(b@ =~= b0.take(b@.len() as int));
            if take_a {
                assert(x == a0[la - 1]);
            } else {
                assert(x == b0[lb - 1]);
            }
        }
        out.push(x);
        proof {
            let o = out@;
            assert(o[o.len() - 1] == x);
            assert forall|p: int, q: int| 0 <= p < q < o.len() implies #[trigger] o[p].position()
                > #[trigger] o[q].position() by {
                if q == o.len() - 1 {
                    assert(o[p] == out0[p]);
                    if take_a {
                        assert(a0[la - 1] == x);
                    } else {
                        assert(b0[lb - 1] == x);
                    }
                } else {
                    assert(o[p] == out0[p] && o[q] == out0[q]);
                }
            }
            assert forall|k: int, i: int| 0 <= k < o.len() && 0 <= i < a@.len() implies #[trigger] a@[i].position()
                < #[trigger] o[k].position() by {
                if k < o.len() - 1 {
                    assert(o[k] == out0[k]);
                    assert(a@[i] == a0[i]);
                } else if take_a {
                    assert(a@[i] == a0[i]);
                } else {
                    assert(a@[i] == a0[i]);
                    assert(a0[la - 1].position() < x.position() || a0[la - 1].position() == x.position());
                    if i < la - 1 {
                        assert(a0[i].position() < a0[la - 1].position());
                    }
                }
            }
            assert forall|k: int, i: int| 0 <= k < o.len() && 0 <= i < b@.len() implies #[trigger] b@[i].position()
                < #[trigger] o[k].position() by {
                if k < o.len() - 1 {
                    assert(o[k] == out0[k]);
                    assert(b@[i] == b0[i]);
                } else if !take_a {
                    assert(b@[i] == b0[i]);
                } else {
                    assert(b@[i] == b0[i]);
                    if lb > 0 {
                        if i < lb - 1 {
                            assert(b0[i].position() < b0[lb - 1].position());
                        }
                    }
                }
            }
            assert forall|y: N| o.contains(y) implies a0.contains(y) || b0.contains(y) by {
                if y != x {
                    let k = choose|k: int| 0 <= k < o.len() && o[k] == y;
                    assert(out0[k] == y);
                } else if take_a {
                    assert(a0[la - 1] == x);
                } else {
                    assert(b0[lb - 1] == x);
                }
            }
            assert forall|i: int| a@.len() <= i < a0.len() implies covers(o, #[trigger] a0[i]) by {
                if i < la {
                    assert(take_a && i == la - 1);
                    assert(o[o.len() - 1].position() == a0[i].position());
                } else {
                    let k = choose|k: int| 0 <= k < out0.len() && #[trigger] out0[k].position() == a0[i].position();
                    assert(o[k] == out0[k]);
                }
            }
            assert forall|i: int| b@.len() <= i < b0.len() implies covers(o, #[trigger] b0[i]) by {
                if i < lb {
                    assert(o[o.len() - 1].position() == b0[i].position());
                } else {
                    let k = choose|k: int| 0 <= k < out0.len() && #[trigger] out0[k].position() == b0[i].position();
                    assert(o[k] == out0[k]);
                }
            }
        }
    }
    let ghost desc = out@;
    let mut r: Vec<N> = Vec::new();
    while out.len() > 0
        invariant
            out@ == desc.take(out@.len() as int),
            desc.len() >= out@.len(),
            r@.len() + out@.len() == desc.len(),
            forall|k: int| 0 <= k < r@.len() ==> #[trigger] r@[k] == desc[desc.len() - 1 - k],
        decreases out@.len(),
    {
        let ghost n = out@.len();
        let x = out.pop().unwrap();
        assert(x == desc[n - 1]);
        r.push(x);
        assert(out@ =~= desc.take(out@.len() as int));
    }
    proof {
        let s = a0 + b0;
        assert forall|p: int, q: int| 0 <= p < q < r@.len() implies #[trigger] r@[p].position()
            < #[trigger] r@[q].position() by {
            assert(r@[p] == desc[desc.len() - 1 - p]);
            assert(r@[q] == desc[desc.len() - 1 - q]);
        }
        assert forall|x: N| s.contains(x) implies covers(r@, x) by {
            let i = choose|i: int| 0 <= i < s.len() && s[i] == x;
            let k = if i < a0.len() {
                assert(a0[i] == x);
                choose|k: int| 0 <= k < desc.len() && #[trigger] desc[k].position() == a0[i].position()
            } else {
                assert(b0[i - a0.len()] == x);
                choose|k: int| 0 <= k < desc.len() && #[trigger] desc[k].position() == b0[i - a0.len()].position()
            };
            assert(r@[desc.len() - 1 - k] == desc[k]);
        }
        assert forall|x: N| r@.contains(x) implies s.contains(x) by {
            let k = choose|k: int| 0 <= k < r@.len() && r@[k] == x;
            assert(desc.contains(desc[desc.len() - 1 - k]));
            if a0.contains(x) {
                let i = choose|i: int| 0 <= i < a0.len() && a0[i] == x;
                assert(s[i] == x);
            } else {
                let i = choose|i: int| 0 <= i < b0.len() && b0[i] == x;
                assert(s[a0.len() + i] == x);
            }
        }
    }
    r
}

/// Sorts nodes into document order, keeping each node once.
pub fn sort_in_document_order<N: Node>(v: Vec<N>) -> (r: Vec<N>)
    ensures
        in_document_order(r@),
        same_nodes(v@, r@),
    decreases v@.len(),
{
    if v.len() <= 1 {
        proof {
            assert forall|x: N| v@.contains(x) implies covers(v@, x) by {
                lemma_contains_covers(v@, x);
            }
        }
        return v;
    }
    let ghost v0 = v@;
    let mut left = v;
    let mid = left.len() / 2;
    let right = left.split_off(mid);
    assert(v0 =~= left@ + right@);
    let l = sort_in_document_order(left);
    let r = sort_in_document_order(right);
    let ghost lv = l@;
    let ghost rv = r@;
    let ghost leftv = v0.subrange(0, mid as int);
    let ghost rightv = v0.subrange(mid as int, v0.len() as int);
    let m = merge(l, r);
    proof {
        assert forall|x: N| v0.contains(x) implies covers(m@, x) by {
            let i = choose|i: int| 0 <= i < v0.len() && v0[i] == x;
            if i < mid {
                assert(leftv[i] == x);
                assert(leftv.contains(x));
                let k = choose|k: int| 0 <= k < lv.len() && #[trigger] lv[k].position() == x.position();
                assert((lv + rv)[k] == lv[k]);
                assert((lv + rv).contains(lv[k]));
                assert(covers(m@, lv[k]));
                let j = choose|j: int| 0 <= j < m@.len() && #[trigger] m@[j].position() == lv[k].position();
                assert(m@[j].position() == x.position());
            } else {
                assert(rightv[i - mid] == x);
                assert(rightv.contains(x));
                let k = choose|k: int| 0 <= k < rv.len() && #[trigger] rv[k].position() == x.position();
                assert((lv + rv)[lv.len() + k] == rv[k]);
                assert((lv + rv).contains(rv[k]));
                assert(covers(m@, rv[k]));
                let j = choose|j: int| 0 <= j < m@.len() && #[trigger] m@[j].position() == rv[k].position();
                assert(m@[j].position() == x.position());
            }
        }
        assert forall|x: N| m@.contains(x) implies v0.contains(x) by {
            let k = choose|k: int| 0 <= k < (lv + rv).len() && (lv + rv)[k] == x;
            if k < lv.len() {
                assert(lv.contains(x));
                let i = choose|i: int| 0 <= i < leftv.len() && leftv[i] == x;
                assert(v0[i] == x);
            } else {
                assert(rv[k - lv.len()] == x);
                assert(rv.contains(x));
                let i = choose|i: int| 0 <= i < rightv.len() && rightv[i] == x;
                assert(v0[mid + i] == x);
            }
        }
    }
    m
}

} // verus!

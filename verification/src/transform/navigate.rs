//! Navigation routines.

use vstd::prelude::*;

use crate::item::{clone_item, copy_of, Item, Node, NodeType, Sequence};
use crate::transform::context::Context;
use crate::transform::docorder::{
    covers, in_document_order, in_reverse_document_order, same_nodes, sort_in_document_order,
};
use crate::transform::{Axis, NodeMatch};
use crate::names::grammar::is_ncname;
use crate::names::{NcName, QName};
use crate::xdmerror::{Error, ErrorKind};

verus! {

/// The root node of the context item: the document node itself, the
/// outermost ancestor of another node, or the node itself when it has no
/// ancestors.
pub fn root<N: Node, V>(ctxt: &Context<N, V>) -> (r: Result<Sequence<N, V>, Error>)
    ensures
        match ctxt.context_item {
            None => r matches Err(e) && e.kind == ErrorKind::ContextNotNode && e.message@
                == "no context"@,
            Some(Item::Value(_)) => r matches Err(e) && e.kind == ErrorKind::ContextNotNode
                && e.message@ == "context item is not a node"@,
            Some(Item::Node(n)) => r matches Ok(s) && s@ == (if n.spec_node_type()
                == NodeType::Document {
                seq![Item::<N, V>::Node(n)]
            } else if n.spec_ancestors().len() > 0 {
                seq![Item::<N, V>::Node(n.spec_ancestors().last())]
            } else {
                seq![Item::<N, V>::Node(n)]
            }),
        },
{
    match &ctxt.context_item {
        None => Err(Error::new(ErrorKind::ContextNotNode, String::from_str("no context"))),
        Some(Item::Node(n)) => match n.node_type() {
            NodeType::Document => {
                let r = vec![Item::Node(n.duplicate())];
                assert(r@ =~= seq![Item::Node(*n)]);
                Ok(r)
            },
            _ => {
                let mut ancestors = n.ancestors();
                match ancestors.pop() {
                    Some(m) => {
                        let r = vec![Item::Node(m)];
                        assert(r@ =~= seq![Item::Node(n.spec_ancestors().last())]);
                        Ok(r)
                    },
                    None => {
                        let r = vec![Item::Node(n.duplicate())];
                        assert(r@ =~= seq![Item::Node(*n)]);
                        Ok(r)
                    },
                }
            },
        },
        Some(Item::Value(_)) => Err(
            Error::new(ErrorKind::ContextNotNode, String::from_str("context item is not a node")),
        ),
    }
}

/// The context item.
pub fn context<N: Node, V: Clone>(ctxt: &Context<N, V>) -> (r: Result<Sequence<N, V>, Error>)
    ensures
        match ctxt.context_item {
            None => r matches Err(e) && e.kind == ErrorKind::DynamicAbsent && e.message@
                == "no context"@,
            Some(i) => r matches Ok(s) && s@.len() == 1 && match (i, s@[0]) {
                (Item::Node(a), Item::Node(b)) => a == b,
                (Item::Value(a), Item::Value(b)) => cloned(a, b),
                _ => false,
            },
        },
{
    match &ctxt.context_item {
        None => Err(Error::new(ErrorKind::DynamicAbsent, String::from_str("no context"))),
        Some(i) => Ok(vec![clone_item(i)]),
    }
}

/// The node an item holds; the item must be a node.
pub fn get_node_unchecked<N, V>(i: &Item<N, V>) -> (r: &N)
    requires
        i is Node,
    ensures
        *i == Item::<N, V>::Node(*r),
{
    match i {
        Item::Node(n) => n,
        Item::Value(_) => {
            vstd::pervasive::unreached()
        },
    }
}

/// The node an item holds, or an error if it is not a node.
pub fn get_node<N, V>(i: &Item<N, V>) -> (r: Result<&N, Error>)
    ensures
        match *i {
            Item::Node(n) => r matches Ok(m) && *m == n,
            Item::Value(_) => r matches Err(e) && e.kind == ErrorKind::Unknown && e.message@
                == "not a node"@,
        },
{
    match i {
        Item::Node(n) => Ok(n),
        Item::Value(_) => Err(Error::new(ErrorKind::Unknown, String::from_str("not a node"))),
    }
}

/// The items of `s` that the decisions `bs` keep (`bs[k]` for `s[k]`), in order.
pub open spec fn kept_items<A>(s: Seq<A>, bs: Seq<bool>) -> Seq<A>
    decreases s.len(),
{
    if s.len() == 0 {
        Seq::empty()
    } else {
        kept_items(s.drop_last(), bs) + (if bs[s.len() - 1] {
            seq![s.last()]
        } else {
            Seq::empty()
        })
    }
}

/// How many of the first `n` decisions of `bs` keep their item.
pub open spec fn count_kept(bs: Seq<bool>, n: int) -> int
    decreases n,
{
    if n <= 0 {
        0
    } else {
        count_kept(bs, n - 1) + if bs[n - 1] {
            1int
        } else {
            0int
        }
    }
}

proof fn lemma_count_kept_monotone(bs: Seq<bool>, a: int, b: int)
    requires
        0 <= a <= b,
    ensures
        count_kept(bs, a) <= count_kept(bs, b),
        count_kept(bs, b) - count_kept(bs, a) <= b - a,
    decreases b - a,
{
    if a < b {
        lemma_count_kept_monotone(bs, a, b - 1);
    }
}

/// Filtering keeps every item whose decision is to keep it, each once and in
/// order: the result has one item per kept decision, and the item decided at
/// index `j` stands at the place given by the number of kept decisions before
/// it. So when every decision keeps, the whole list comes back, and when none
/// does, nothing does.
pub proof fn lemma_kept_items<A>(s: Seq<A>, bs: Seq<bool>)
    ensures
        kept_items(s, bs).len() == count_kept(bs, s.len() as int),
        forall|j: int|
            #![trigger s[j]]
            0 <= j < s.len() && bs[j] ==> kept_items(s, bs)[count_kept(bs, j)] == s[j],
        (forall|j: int| 0 <= j < s.len() ==> bs[j]) ==> kept_items(s, bs) == s,
        (forall|j: int| 0 <= j < s.len() ==> !bs[j]) ==> kept_items(s, bs) == Seq::<A>::empty(),
    decreases s.len(),
{
    if s.len() > 0 {
        let s0 = s.drop_last();
        lemma_kept_items(s0, bs);
        let n = s.len() - 1;
        assert forall|j: int| #![trigger s[j]] 0 <= j < s.len() && bs[j] implies kept_items(s, bs)[count_kept(bs, j)]
            == s[j] by {
            let a = kept_items(s0, bs);
            let tail = if bs[n] {
                seq![s.last()]
            } else {
                Seq::empty()
            };
            assert(kept_items(s, bs) == a + tail);
            assert(count_kept(bs, j + 1) == count_kept(bs, j) + 1);
            lemma_count_kept_monotone(bs, 0, j);
            if j < n {
                lemma_count_kept_monotone(bs, j + 1, n);
                assert(s0[j] == s[j]);
                assert(count_kept(bs, j) < a.len());
                assert(a[count_kept(bs, j)] == s0[j]);
                assert((a + tail)[count_kept(bs, j)] == a[count_kept(bs, j)]);
            } else {
                assert(count_kept(bs, j) == a.len());
                assert((a + tail)[a.len() as int] == tail[0]);
            }
        }
        if forall|j: int| 0 <= j < s.len() ==> bs[j] {
            assert forall|j: int| 0 <= j < s.len() implies count_kept(bs, j) == j by {
                lemma_count_kept_all(bs, j);
            }
            assert forall|j: int| 0 <= j < s.len() implies kept_items(s, bs)[j] == s[j] by {
                assert(bs[j]);
                lemma_count_kept_all(bs, j);
            }
            lemma_count_kept_all(bs, s.len() as int);
            assert(kept_items(s, bs) =~= s);
        }
        if forall|j: int| 0 <= j < s.len() ==> !bs[j] {
            assert(kept_items(s, bs) =~= Seq::<A>::empty());
        }
    } else {
        assert(kept_items(s, bs) =~= Seq::<A>::empty());
        assert(kept_items(s, bs) =~= s);
    }
}

proof fn lemma_count_kept_all(bs: Seq<bool>, n: int)
    requires
        0 <= n,
        forall|j: int| 0 <= j < n ==> bs[j],
    ensures
        count_kept(bs, n) == n,
    decreases n,
{
    if n > 0 {
        lemma_count_kept_all(bs, n - 1);
    }
}

proof fn lemma_kept_items_prefix<A>(s: Seq<A>, bs: Seq<bool>, cs: Seq<bool>)
    requires
        forall|k: int| 0 <= k < s.len() ==> bs[k] == cs[k],
    ensures
        kept_items(s, bs) == kept_items(s, cs),
    decreases s.len(),
{
    if s.len() > 0 {
        lemma_kept_items_prefix(s.drop_last(), bs, cs);
    }
}

/// Filter `seq` by one predicate. `keep` evaluates the predicate with one
/// item of `seq` as the focus, given the item's index (its `position()` less
/// one) and the length of `seq` (its `last()`), and says whether the item
/// stays: for a numeric predicate value, whether it equals the position;
/// otherwise the value's effective boolean value. The items that stay keep
/// their order; the first error stops the filtering and is returned.
pub fn filter_seq<N: Node, V: Clone, P: Fn(&Item<N, V>, usize, usize) -> Result<bool, Error>>(
    seq: &Sequence<N, V>,
    keep: &P,
) -> (r: Result<Sequence<N, V>, Error>)
    requires
        forall|it: Item<N, V>, k: usize, n: usize| call_requires(*keep, (&it, k, n)),
    ensures
        match r {
            Ok(out) => exists|bs: Seq<bool>|
                {
                    &&& bs.len() == seq@.len()
                    &&& forall|k: int|
                        0 <= k < seq@.len() ==> call_ensures(
                            *keep,
                            (&seq@[k], k as usize, seq@.len() as usize),
                            Ok(#[trigger] bs[k]),
                        )
                    &&& out@.len() == kept_items(seq@, bs).len()
                    &&& forall|k: int|
                        0 <= k < out@.len() ==> copy_of(kept_items(seq@, bs)[k], #[trigger] out@[k])
                },
            Err(e) => exists|j: int|
                {
                    &&& 0 <= j < seq@.len()
                    &&& forall|k: int|
                        #![trigger seq@[k]]
                        0 <= k < j ==> exists|b: bool|
                            #[trigger] call_ensures(
                                *keep,
                                (&seq@[k], k as usize, seq@.len() as usize),
                                Ok::<bool, Error>(b),
                            )
                    &&& call_ensures(*keep, (&seq@[j], j as usize, seq@.len() as usize), Err(e))
                },
        },
{
    let len = seq.len();
    let mut out: Sequence<N, V> = Vec::new();
    let ghost mut bs: Seq<bool> = Seq::empty();
    let mut j: usize = 0;
    while j < len
        invariant
            forall|it: Item<N, V>, k: usize, n: usize| call_requires(*keep, (&it, k, n)),
            len == seq@.len(),
            j <= len,
            bs.len() == j,
            forall|k: int|
                0 <= k < j ==> call_ensures(*keep, (&seq@[k], k as usize, len), Ok(#[trigger] bs[k])),
            out@.len() == kept_items(seq@.take(j as int), bs).len(),
            forall|k: int|
                0 <= k < out@.len() ==> copy_of(
                    kept_items(seq@.take(j as int), bs)[k],
                    #[trigger] out@[k],
                ),
        decreases len - j,
    {
        match keep(&seq[j], j, len) {
            Ok(b) => {
                let ghost before = out@;
                if b {
                    let c = clone_item(&seq[j]);
                    out.push(c);
                }
                proof {
                    let cs = bs.push(b);
                    let t = seq@.take(j + 1);
                    assert(t.drop_last() =~= seq@.take(j as int));
                    lemma_kept_items_prefix(seq@.take(j as int), bs, cs);
                    assert(kept_items(t, cs) == kept_items(seq@.take(j as int), bs) + (if b {
                        seq![seq@[j as int]]
                    } else {
                        Seq::empty()
                    }));
                    assert forall|k: int| 0 <= k < out@.len() implies copy_of(
                        kept_items(t, cs)[k],
                        #[trigger] out@[k],
                    ) by {
                        if k < before.len() {
                            assert(out@[k] == before[k]);
                        }
                    }
                    bs = cs;
                }
            },
            Err(e) => {
                proof {
                    assert forall|k: int| #![trigger seq@[k]] 0 <= k < j implies exists|c: bool|
                        #[trigger] call_ensures(
                            *keep,
                            (&seq@[k], k as usize, seq@.len() as usize),
                            Ok::<bool, Error>(c),
                        ) by {
                        assert(call_ensures(*keep, (&seq@[k], k as usize, len), Ok(bs[k])));
                    }
                }
                return Err(e);
            },
        }
        j = j + 1;
    }
    assert(seq@.take(len as int) =~= seq@);
    Ok(out)
}

/// Remove the items of the context that the predicate does not keep: the
/// `(expr)[predicate]` form, where the predicate applies over the whole
/// context sequence. See [`filter_seq`] for what `keep` decides.
pub fn filter<N: Node, V: Clone, P: Fn(&Item<N, V>, usize, usize) -> Result<bool, Error>>(
    ctxt: &Context<N, V>,
    keep: &P,
) -> (r: Result<Sequence<N, V>, Error>)
    requires
        forall|it: Item<N, V>, k: usize, n: usize| call_requires(*keep, (&it, k, n)),
    ensures
        match r {
            Ok(out) => exists|bs: Seq<bool>|
                {
                    &&& bs.len() == ctxt.context@.len()
                    &&& forall|k: int|
                        0 <= k < ctxt.context@.len() ==> call_ensures(
                            *keep,
                            (&ctxt.context@[k], k as usize, ctxt.context@.len() as usize),
                            Ok(#[trigger] bs[k]),
                        )
                    &&& out@.len() == kept_items(ctxt.context@, bs).len()
                    &&& forall|k: int|
                        0 <= k < out@.len() ==> copy_of(
                            kept_items(ctxt.context@, bs)[k],
                            #[trigger] out@[k],
                        )
                },
            Err(e) => exists|j: int|
                {
                    &&& 0 <= j < ctxt.context@.len()
                    &&& forall|k: int|
                        #![trigger ctxt.context@[k]]
                        0 <= k < j ==> exists|b: bool|
                            #[trigger] call_ensures(
                                *keep,
                                (&ctxt.context@[k], k as usize, ctxt.context@.len() as usize),
                                Ok::<bool, Error>(b),
                            )
                    &&& call_ensures(
                        *keep,
                        (&ctxt.context@[j], j as usize, ctxt.context@.len() as usize),
                        Err(e),
                    )
                },
        },
{
    filter_seq(&ctxt.context, keep)
}

/// `keep`, asked with predicate number `p`, answered for item `k` of `input`.
pub open spec fn keep_answered<N, V, P: Fn(usize, &Item<N, V>, usize, usize) -> Result<bool, Error>>(
    keep: P,
    p: usize,
    input: Seq<Item<N, V>>,
    k: int,
) -> bool {
    exists|b: bool|
        #[trigger] call_ensures(keep, (p, &input[k], k as usize, input.len() as usize), Ok(b))
}

/// `out` is what filtering `input` by predicate number `p` gives: `keep`
/// decided for each item in turn, with its index and the length of `input`,
/// and copies of the items it kept are in `out`, in order.
pub open spec fn filter_kept<N, V: Clone, P: Fn(usize, &Item<N, V>, usize, usize) -> Result<
    bool,
    Error,
>>(keep: P, p: usize, input: Seq<Item<N, V>>, out: Seq<Item<N, V>>) -> bool {
    exists|bs: Seq<bool>|
        #![trigger kept_items(input, bs)]
        {
            &&& bs.len() == input.len()
            &&& forall|k: int|
                0 <= k < input.len() ==> call_ensures(
                    keep,
                    (p, &input[k], k as usize, input.len() as usize),
                    Ok(#[trigger] bs[k]),
                )
            &&& out.len() == kept_items(input, bs).len()
            &&& forall|k: int| 0 <= k < out.len() ==> copy_of(kept_items(input, bs)[k], #[trigger] out[k])
        }
}

/// Filtering `input` by predicate number `p` stopped with error `e`: `keep`
/// answered for the items before some item, and gave `e` for that item.
pub open spec fn filter_failed<N, V, P: Fn(usize, &Item<N, V>, usize, usize) -> Result<bool, Error>>(
    keep: P,
    p: usize,
    input: Seq<Item<N, V>>,
    e: Error,
) -> bool {
    exists|j: int|
        #![trigger input[j]]
        {
            &&& 0 <= j < input.len()
            &&& forall|k: int| 0 <= k < j ==> #[trigger] keep_answered(keep, p, input, k)
            &&& call_ensures(keep, (p, &input[j], j as usize, input.len() as usize), Err(e))
        }
}

/// Each of `stages` is what filtering the one before by the next predicate
/// gives, starting from `seq`.
pub open spec fn filtered_in_turn<N, V: Clone, P: Fn(usize, &Item<N, V>, usize, usize) -> Result<
    bool,
    Error,
>>(keep: P, seq: Seq<Item<N, V>>, stages: Seq<Seq<Item<N, V>>>) -> bool {
    &&& stages.len() >= 1
    &&& stages[0] == seq
    &&& forall|q: int|
        #![trigger stages[q]]
        0 <= q < stages.len() - 1 ==> filter_kept(keep, q as usize, stages[q], stages[q + 1])
}

proof fn lemma_stage_push<N, V: Clone, P: Fn(usize, &Item<N, V>, usize, usize) -> Result<
    bool,
    Error,
>>(keep: P, seq: Seq<Item<N, V>>, stages: Seq<Seq<Item<N, V>>>, out: Seq<Item<N, V>>)
    requires
        filtered_in_turn(keep, seq, stages),
        filter_kept(keep, (stages.len() - 1) as usize, stages.last(), out),
    ensures
        filtered_in_turn(keep, seq, stages.push(out)),
{
    let st = stages.push(out);
    assert forall|q: int| #![trigger st[q]] 0 <= q < st.len() - 1 implies filter_kept(
        keep,
        q as usize,
        st[q],
        st[q + 1],
    ) by {
        if q < stages.len() - 1 {
            assert(st[q] == stages[q]);
            assert(st[q + 1] == stages[q + 1]);
        }
    }
}

/// Filter `seq` by `count` predicates in turn, as `filter_seq` does for one:
/// predicate `p` (asked through `keep` with that number) sees the list that
/// the predicates before it left, with positions counted within that list.
/// The first error stops the filtering and is returned.
pub fn filter_predicates<N: Node, V: Clone, P: Fn(usize, &Item<N, V>, usize, usize) -> Result<
    bool,
    Error,
>>(seq: &Sequence<N, V>, count: usize, keep: &P) -> (r: Result<Sequence<N, V>, Error>)
    requires
        forall|p: usize, it: Item<N, V>, k: usize, n: usize| call_requires(*keep, (p, &it, k, n)),
    ensures
        match r {
            Ok(out) => exists|stages: Seq<Seq<Item<N, V>>>|
                {
                    &&& #[trigger] filtered_in_turn(*keep, seq@, stages)
                    &&& stages.len() == count + 1
                    &&& out@.len() == stages.last().len()
                    &&& count == 0 ==> forall|k: int|
                        0 <= k < out@.len() ==> copy_of(seq@[k], #[trigger] out@[k])
                    &&& count > 0 ==> out@ == stages.last()
                },
            Err(e) => exists|stages: Seq<Seq<Item<N, V>>>|
                {
                    &&& #[trigger] filtered_in_turn(*keep, seq@, stages)
                    &&& stages.len() <= count
                    &&& filter_failed(*keep, (stages.len() - 1) as usize, stages.last(), e)
                },
        },
{
    let mut cur: Option<Sequence<N, V>> = None;
    let ghost mut stages: Seq<Seq<Item<N, V>>> = seq![seq@];
    let mut p: usize = 0;
    while p < count
        invariant
            forall|q: usize, it: Item<N, V>, k: usize, n: usize| call_requires(*keep, (q, &it, k, n)),
            p <= count,
            stages.len() == p + 1,
            filtered_in_turn(*keep, seq@, stages),
            match cur {
                None => p == 0,
                Some(c) => c@ == stages.last(),
            },
        decreases count - p,
    {
        let kp = |it: &Item<N, V>, k: usize, n: usize| -> (r: Result<bool, Error>)
            requires
                call_requires(keep, (p, it, k, n)),
            ensures
                call_ensures(keep, (p, it, k, n), r),
            { keep(p, it, k, n) };
        let ghost input = stages.last();
        let r = match &cur {
            None => filter_seq(seq, &kp),
            Some(c) => filter_seq(c, &kp),
        };
        match r {
            Ok(out) => {
                proof {
                    let bs = choose|bs: Seq<bool>|
                        {
                            &&& bs.len() == input.len()
                            &&& forall|k: int|
                                0 <= k < input.len() ==> call_ensures(
                                    kp,
                                    (&input[k], k as usize, input.len() as usize),
                                    Ok(#[trigger] bs[k]),
                                )
                            &&& out@.len() == kept_items(input, bs).len()
                            &&& forall|k: int|
                                0 <= k < out@.len() ==> copy_of(
                                    kept_items(input, bs)[k],
                                    #[trigger] out@[k],
                                )
                        };
                    assert forall|k: int| 0 <= k < input.len() implies call_ensures(
                        *keep,
                        (p, &input[k], k as usize, input.len() as usize),
                        Ok(#[trigger] bs[k]),
                    ) by {
                        assert(call_ensures(kp, (&input[k], k as usize, input.len() as usize), Ok(bs[k])));
                    }
                    assert(filter_kept(*keep, p, input, out@));
                    lemma_stage_push(*keep, seq@, stages, out@);
                    stages = stages.push(out@);
                }
                cur = Some(out);
            },
            Err(e) => {
                proof {
                    let j = choose|j: int|
                        {
                            &&& 0 <= j < input.len()
                            &&& forall|k: int|
                                #![trigger input[k]]
                                0 <= k < j ==> exists|b: bool|
                                    #[trigger] call_ensures(
                                        kp,
                                        (&input[k], k as usize, input.len() as usize),
                                        Ok::<bool, Error>(b),
                                    )
                            &&& call_ensures(kp, (&input[j], j as usize, input.len() as usize), Err(e))
                        };
                    assert forall|k: int| 0 <= k < j implies #[trigger] keep_answered(*keep, p, input, k) by {
                        assert(input[k] == input[k]);
                        let b = choose|b: bool|
                            call_ensures(kp, (&input[k], k as usize, input.len() as usize), Ok::<bool, Error>(b));
                        assert(call_ensures(*keep, (p, &input[k], k as usize, input.len() as usize), Ok::<bool, Error>(b)));
                    }
                    assert(input[j] == input[j]);
                    assert(filter_failed(*keep, p, input, e));
                    assert(filtered_in_turn(*keep, seq@, stages));
                }
                return Err(e);
            },
        }
        p = p + 1;
    }
    match cur {
        Some(c) => Ok(c),
        None => {
            let mut out: Sequence<N, V> = Vec::new();
            let mut k: usize = 0;
            while k < seq.len()
                invariant
                    k <= seq@.len(),
                    out@.len() == k,
                    forall|i: int| 0 <= i < k ==> copy_of(seq@[i], #[trigger] out@[i]),
                decreases seq@.len() - k,
            {
                out.push(clone_item(&seq[k]));
                k = k + 1;
            }
            Ok(out)
        },
    }
}

/// Each step in turn is evaluated by `eval`, with the sequence that the step
/// before gave (`ctxt`'s own context sequence for the first step) as its
/// context sequence and the rest of the context, the current node set
/// included, taken from `ctxt`. What the last step gives is the result; with
/// no steps, a copy of the context sequence. The first error stops the
/// evaluation and is returned.
pub fn compose<N: Node, V: Clone, S, E: Fn(&S, &Sequence<N, V>, &Context<N, V>) -> Result<
    Sequence<N, V>,
    Error,
>>(ctxt: &Context<N, V>, steps: &Vec<S>, eval: &E) -> (r: Result<Sequence<N, V>, Error>)
    requires
        forall|st: S, q: Sequence<N, V>| call_requires(*eval, (&st, &q, ctxt)),
    ensures
        match r {
            Ok(out) => exists|rs: Seq<Sequence<N, V>>|
                {
                    &&& #[trigger] evaluated_in_turn(*eval, ctxt, steps@, rs)
                    &&& rs.len() == steps@.len() + 1
                    &&& steps@.len() == 0 ==> out@.len() == ctxt.context@.len() && forall|k: int|
                        0 <= k < out@.len() ==> copy_of(ctxt.context@[k], #[trigger] out@[k])
                    &&& steps@.len() > 0 ==> out == rs.last()
                },
            Err(e) => exists|rs: Seq<Sequence<N, V>>|
                {
                    &&& #[trigger] evaluated_in_turn(*eval, ctxt, steps@, rs)
                    &&& rs.len() <= steps@.len()
                    &&& call_ensures(*eval, (&steps@[rs.len() - 1], &rs.last(), ctxt), Err(e))
                },
        },
{
    let mut cur: Option<Sequence<N, V>> = None;
    let ghost mut rs: Seq<Sequence<N, V>> = seq![ctxt.context];
    let mut k: usize = 0;
    while k < steps.len()
        invariant
            forall|st: S, q: Sequence<N, V>| call_requires(*eval, (&st, &q, ctxt)),
            k <= steps@.len(),
            rs.len() == k + 1,
            evaluated_in_turn(*eval, ctxt, steps@, rs),
            match cur {
                None => k == 0,
                Some(c) => c == rs.last(),
            },
        decreases steps@.len() - k,
    {
        let r = match &cur {
            None => eval(&steps[k], &ctxt.context, ctxt),
            Some(c) => eval(&steps[k], c, ctxt),
        };
        match r {
            Ok(next) => {
                proof {
                    let old_rs = rs;
                    rs = rs.push(next);
                    assert forall|q: int| #![trigger rs[q]] 0 <= q < rs.len() - 1 implies call_ensures(
                        *eval,
                        (&steps@[q], &rs[q], ctxt),
                        Ok(rs[q + 1]),
                    ) by {
                        if q < k {
                            assert(rs[q] == old_rs[q]);
                            assert(rs[q + 1] == old_rs[q + 1]);
                        }
                    }
                }
                cur = Some(next);
            },
            Err(e) => {
                return Err(e);
            },
        }
        k = k + 1;
    }
    match cur {
        Some(c) => Ok(c),
        None => {
            let mut out: Sequence<N, V> = Vec::new();
            let mut i: usize = 0;
            while i < ctxt.context.len()
                invariant
                    i <= ctxt.context@.len(),
                    out@.len() == i,
                    forall|j: int| 0 <= j < i ==> copy_of(ctxt.context@[j], #[trigger] out@[j]),
                decreases ctxt.context@.len() - i,
            {
                out.push(clone_item(&ctxt.context[i]));
                i = i + 1;
            }
            Ok(out)
        },
    }
}

/// `rs` starts with `ctxt`'s context sequence, and each next one is what
/// `eval` gave for the next step, with the one before as context sequence.
pub open spec fn evaluated_in_turn<N, V, S, E: Fn(&S, &Sequence<N, V>, &Context<N, V>) -> Result<
    Sequence<N, V>,
    Error,
>>(eval: E, ctxt: &Context<N, V>, steps: Seq<S>, rs: Seq<Sequence<N, V>>) -> bool {
    &&& rs.len() >= 1
    &&& rs.len() <= steps.len() + 1
    &&& rs[0] == ctxt.context
    &&& forall|q: int|
        #![trigger rs[q]]
        0 <= q < rs.len() - 1 ==> call_ensures(eval, (&steps[q], &rs[q], ctxt), Ok(rs[q + 1]))
}

/// Appends to `acc` the nodes of `cands` that pass the test of `nm`.
fn push_passing<N: Node, T: Fn(&N) -> bool>(acc: &mut Vec<N>, cands: Vec<N>, nm: &NodeMatch<T>)
    requires
        forall|m: N| call_requires(nm.nodetest, (&m,)),
    ensures
        forall|m: N|
            cands@.contains(m) ==> final(acc)@.contains(m) || call_ensures(nm.nodetest, (&m,), false),
        forall|x: N| old(acc)@.contains(x) ==> final(acc)@.contains(x),
        forall|x: N|
            final(acc)@.contains(x) ==> old(acc)@.contains(x) || (cands@.contains(x) && call_ensures(
                nm.nodetest,
                (&x,),
                true,
            )),
{
    let ghost start = acc@;
    let mut i: usize = 0;
    while i < cands.len()
        invariant
            forall|m: N| call_requires(nm.nodetest, (&m,)),
            i <= cands@.len(),
            start.len() <= acc@.len(),
            forall|k: int| 0 <= k < start.len() ==> #[trigger] acc@[k] == start[k],
            forall|j: int|
                0 <= j < i ==> acc@.contains(#[trigger] cands@[j]) || call_ensures(
                    nm.nodetest,
                    (&cands@[j],),
                    false,
                ),
            forall|x: N|
                acc@.contains(x) ==> start.contains(x) || (cands@.contains(x) && call_ensures(
                    nm.nodetest,
                    (&x,),
                    true,
                )),
        decreases cands@.len() - i,
    {
        let ghost before_acc = acc@;
        let pass = nm.matches(&cands[i]);
        if pass {
            acc.push(cands[i].duplicate());
        }
        proof {
            assert forall|j: int| 0 <= j < i + 1 implies acc@.contains(#[trigger] cands@[j])
                || call_ensures(nm.nodetest, (&cands@[j],), false) by {
                if j < i && before_acc.contains(cands@[j]) {
                    let k = choose|k: int| 0 <= k < before_acc.len() && before_acc[k] == cands@[j];
                    assert(acc@[k] == before_acc[k]);
                }
                if j == i && pass {
                    assert(acc@[acc@.len() - 1] == cands@[j]);
                }
            }
            assert forall|x: N| acc@.contains(x) implies start.contains(x) || (cands@.contains(x)
                && call_ensures(nm.nodetest, (&x,), true)) by {
                let k = choose|k: int| 0 <= k < acc@.len() && acc@[k] == x;
                if k < before_acc.len() {
                    assert(before_acc[k] == x);
                } else {
                    assert(x == cands@[i as int]);
                }
            }
        }
        i = i + 1;
    }
    proof {
        assert forall|x: N| start.contains(x) implies acc@.contains(x) by {
            let k = choose|k: int| 0 <= k < start.len() && start[k] == x;
            assert(acc@[k] == x);
        }
        assert forall|m: N| cands@.contains(m) implies acc@.contains(m) || call_ensures(
            nm.nodetest,
            (&m,),
            false,
        ) by {
            let j = choose|j: int| 0 <= j < cands@.len() && cands@[j] == m;
            assert(acc@.contains(cands@[j]) || call_ensures(nm.nodetest, (&cands@[j],), false));
        }
    }
}

// ─────────────────────────────────────────────────────────────────────────
//  What each axis reaches
// ─────────────────────────────────────────────────────────────────────────

/// Each node of `s`, followed by its descendants.
pub open spec fn with_descendants<N: Node>(s: Seq<N>) -> Seq<N>
    decreases s.len(),
{
    if s.len() == 0 {
        Seq::empty()
    } else {
        with_descendants(s.drop_last()) + seq![s.last()] + s.last().spec_descendants()
    }
}

/// The siblings after (`forward`) or before a node.
pub open spec fn sibling_side<N: Node>(n: N, forward: bool) -> Seq<N> {
    if forward {
        n.spec_following_siblings()
    } else {
        n.spec_preceding_siblings()
    }
}

/// For each ancestor in turn, its siblings on one side with their descendants.
pub open spec fn beyond_ancestors<N: Node>(anc: Seq<N>, forward: bool) -> Seq<N>
    decreases anc.len(),
{
    if anc.len() == 0 {
        Seq::empty()
    } else {
        beyond_ancestors(anc.drop_last(), forward) + with_descendants(
            sibling_side(anc.last(), forward),
        )
    }
}

/// The nodes of the following (`forward`) or preceding axis: the siblings on
/// that side of the node and of each of its ancestors, each with its
/// descendants.
pub open spec fn document_side<N: Node>(n: N, forward: bool) -> Seq<N> {
    with_descendants(sibling_side(n, forward)) + beyond_ancestors(n.spec_ancestors(), forward)
}

/// The nodes an axis takes from `n` whatever the node test says.
pub open spec fn axis_always<N: Node>(axis: Axis, n: N) -> Seq<N> {
    match axis {
        Axis::SelfDocument => if n.spec_node_type() == NodeType::Document {
            seq![n]
        } else {
            Seq::empty()
        },
        Axis::ParentDocument => if n.spec_node_type() == NodeType::Document {
            seq![n]
        } else {
            Seq::empty()
        },
        Axis::DescendantOrSelfOrRoot => seq![n.spec_owner_document()],
        Axis::SelfAttribute => if n.spec_node_type() == NodeType::Attribute {
            seq![n]
        } else {
            Seq::empty()
        },
        _ => Seq::empty(),
    }
}

/// The nodes an axis takes from `n` when they pass the node test.
pub open spec fn axis_tested<N: Node>(axis: Axis, n: N) -> Seq<N> {
    match axis {
        Axis::SelfAxis => seq![n],
        Axis::Child => n.spec_children(),
        Axis::Parent => match n.spec_parent() {
            Some(p) => seq![p],
            None => Seq::empty(),
        },
        Axis::Descendant => n.spec_descendants(),
        Axis::DescendantOrSelf => seq![n] + n.spec_descendants(),
        Axis::DescendantOrSelfOrRoot => seq![n] + n.spec_descendants(),
        Axis::Ancestor => n.spec_ancestors(),
        Axis::AncestorOrSelf => n.spec_ancestors() + seq![n],
        Axis::FollowingSibling => n.spec_following_siblings(),
        Axis::PrecedingSibling => n.spec_preceding_siblings(),
        Axis::Following => document_side(n, true),
        Axis::Preceding => document_side(n, false),
        Axis::Attribute => n.spec_attributes(),
        _ => Seq::empty(),
    }
}

/// The axes that a step can take.
pub open spec fn axis_supported(axis: Axis) -> bool {
    !(axis == Axis::Namespace || axis == Axis::AncestorOrSelfOrRoot || axis == Axis::Unknown)
}

/// Appends each node of `s` followed by its descendants.
fn push_with_descendants<N: Node>(bcc: &mut Vec<N>, s: Vec<N>)
    ensures
        final(bcc)@ == old(bcc)@ + with_descendants(s@),
{
    let ghost start = bcc@;
    let mut i: usize = 0;
    assert(s@.take(0) =~= Seq::<N>::empty());
    assert(start + with_descendants(Seq::<N>::empty()) =~= start);
    while i < s.len()
        invariant
            i <= s@.len(),
            bcc@ == start + with_descendants(s@.take(i as int)),
        decreases s@.len() - i,
    {
        let a = s[i].duplicate();
        let mut d = s[i].descendants();
        bcc.push(a);
        bcc.append(&mut d);
        proof {
            let t = s@.take(i + 1);
            assert(t.drop_last() =~= s@.take(i as int));
            assert(t.last() == s@[i as int]);
            assert(bcc@ =~= start + with_descendants(s@.take(i + 1)));
        }
        i = i + 1;
    }
    assert(s@.take(s@.len() as int) =~= s@);
}

pub(crate) proof fn lemma_concat_contains<A>(a: Seq<A>, b: Seq<A>, x: A)
    ensures
        a.contains(x) || b.contains(x) ==> (a + b).contains(x),
{
    if a.contains(x) {
        let k = choose|k: int| 0 <= k < a.len() && a[k] == x;
        assert((a + b)[k] == x);
    } else if b.contains(x) {
        let k = choose|k: int| 0 <= k < b.len() && b[k] == x;
        assert((a + b)[a.len() + k] == x);
    }
}

proof fn lemma_concat_contains_iff<A>(a: Seq<A>, b: Seq<A>, x: A)
    ensures
        (a + b).contains(x) <==> a.contains(x) || b.contains(x),
{
    lemma_concat_contains(a, b, x);
    if (a + b).contains(x) {
        let k = choose|k: int| 0 <= k < (a + b).len() && (a + b)[k] == x;
        if k < a.len() {
            assert(a[k] == x);
        } else {
            assert(b[k - a.len()] == x);
        }
    }
}

/// A node of `s`, or a descendant of one, is in `with_descendants(s)`.
pub(crate) proof fn lemma_with_descendants_contains<N: Node>(s: Seq<N>, k: int, x: N)
    requires
        0 <= k < s.len(),
        x == s[k] || s[k].spec_descendants().contains(x),
    ensures
        with_descendants(s).contains(x),
    decreases s.len(),
{
    let s0 = s.drop_last();
    let last = s.last();
    if k == s.len() - 1 {
        lemma_concat_contains(seq![last], last.spec_descendants(), x);
        if x == last {
            assert(seq![last][0] == x);
        }
        lemma_concat_contains(with_descendants(s0), seq![last] + last.spec_descendants(), x);
        assert(with_descendants(s) == with_descendants(s0) + (seq![last] + last.spec_descendants()));
    } else {
        assert(s0[k] == s[k]);
        lemma_with_descendants_contains(s0, k, x);
        lemma_concat_contains(with_descendants(s0), seq![last] + last.spec_descendants(), x);
        assert(with_descendants(s) == with_descendants(s0) + (seq![last] + last.spec_descendants()));
    }
}

/// What `with_descendants` gives from the siblings on one side of a node of
/// `anc` is in `beyond_ancestors(anc)`.
pub(crate) proof fn lemma_beyond_ancestors_contains<N: Node>(anc: Seq<N>, forward: bool, k: int, x: N)
    requires
        0 <= k < anc.len(),
        with_descendants(sibling_side(anc[k], forward)).contains(x),
    ensures
        beyond_ancestors(anc, forward).contains(x),
    decreases anc.len(),
{
    let a0 = anc.drop_last();
    let w = with_descendants(sibling_side(anc.last(), forward));
    if k < anc.len() - 1 {
        assert(a0[k] == anc[k]);
        lemma_beyond_ancestors_contains(a0, forward, k, x);
    }
    lemma_concat_contains(beyond_ancestors(a0, forward), w, x);
}

/// What holds of each node of `s` and of each of its descendants holds of
/// every node of `with_descendants(s)`.
proof fn lemma_with_descendants_all<N: Node>(s: Seq<N>, p: spec_fn(N) -> bool)
    requires
        forall|k: int| 0 <= k < s.len() ==> #[trigger] p(s[k]),
        forall|k: int, j: int|
            0 <= k < s.len() && 0 <= j < s[k].spec_descendants().len() ==> #[trigger] p(
                s[k].spec_descendants()[j],
            ),
    ensures
        forall|i: int| 0 <= i < with_descendants(s).len() ==> #[trigger] p(with_descendants(s)[i]),
    decreases s.len(),
{
    if s.len() > 0 {
        let s0 = s.drop_last();
        assert forall|k: int| 0 <= k < s0.len() implies #[trigger] p(s0[k]) by {
            assert(s0[k] == s[k]);
        }
        assert forall|k: int, j: int|
            0 <= k < s0.len() && 0 <= j < s0[k].spec_descendants().len() implies #[trigger] p(
                s0[k].spec_descendants()[j],
            ) by {
            assert(s0[k] == s[k]);
        }
        lemma_with_descendants_all(s0, p);
        let a = with_descendants(s0);
        let last = s.last();
        let w = with_descendants(s);
        assert forall|i: int| 0 <= i < w.len() implies #[trigger] p(w[i]) by {
            if i < a.len() {
                assert(w[i] == a[i]);
            } else if i == a.len() {
                assert(w[i] == s[s.len() - 1]);
            } else {
                let j = i - a.len() - 1;
                assert(w[i] == s[s.len() - 1].spec_descendants()[j]);
            }
        }
    }
}

/// What holds of every node that `with_descendants` gives from the siblings
/// on one side of each node of `anc` holds of all of `beyond_ancestors(anc)`.
proof fn lemma_beyond_ancestors_all<N: Node>(anc: Seq<N>, forward: bool, p: spec_fn(N) -> bool)
    requires
        forall|k: int, i: int|
            0 <= k < anc.len() && 0 <= i < with_descendants(sibling_side(anc[k], forward)).len()
                ==> #[trigger] p(with_descendants(sibling_side(anc[k], forward))[i]),
    ensures
        forall|i: int|
            0 <= i < beyond_ancestors(anc, forward).len() ==> #[trigger] p(
                beyond_ancestors(anc, forward)[i],
            ),
    decreases anc.len(),
{
    if anc.len() > 0 {
        let a0 = anc.drop_last();
        assert forall|k: int, i: int|
            0 <= k < a0.len() && 0 <= i < with_descendants(sibling_side(a0[k], forward)).len()
                implies #[trigger] p(with_descendants(sibling_side(a0[k], forward))[i]) by {
            assert(a0[k] == anc[k]);
        }
        lemma_beyond_ancestors_all(a0, forward, p);
        let b = beyond_ancestors(a0, forward);
        let w = with_descendants(sibling_side(anc[anc.len() - 1], forward));
        let all = beyond_ancestors(anc, forward);
        assert forall|i: int| 0 <= i < all.len() implies #[trigger] p(all[i]) by {
            if i < b.len() {
                assert(all[i] == b[i]);
            } else {
                assert(all[i] == w[i - b.len()]);
            }
        }
    }
}

/// Nothing positioned after `n` and after all of its descendants is `n`'s
/// ancestor or descendant.
proof fn lemma_after_subtree<N: Node>(n: N, m: N)
    requires
        n.valid(),
        n.position() < m.position(),
        forall|j: int|
            0 <= j < n.spec_descendants().len() ==> #[trigger] n.spec_descendants()[j].position()
                < m.position(),
    ensures
        !n.spec_ancestors().contains(m),
        !n.spec_descendants().contains(m),
{
    n.lemma_document_order();
    if n.spec_ancestors().contains(m) {
        let q = choose|q: int| 0 <= q < n.spec_ancestors().len() && n.spec_ancestors()[q] == m;
        assert(n.spec_ancestors()[q].position() < n.position());
    }
    if n.spec_descendants().contains(m) {
        let q = choose|q: int|
            0 <= q < n.spec_descendants().len() && n.spec_descendants()[q] == m;
        assert(n.spec_descendants()[q].position() < m.position());
    }
}

/// A node below `s`, or `s` itself, where `s` is no ancestor of `n`, is no
/// ancestor of `n` either.
proof fn lemma_below_not_ancestor<N: Node>(n: N, s: N, e: N)
    requires
        e.valid(),
        e.spec_ancestors().contains(s),
        !n.spec_ancestors().contains(s),
    ensures
        !n.spec_ancestors().contains(e),
{
    e.lemma_document_order();
    if n.spec_ancestors().contains(e) {
        let q = choose|q: int| 0 <= q < e.spec_ancestors().len() && e.spec_ancestors()[q] == s;
        assert(n.spec_ancestors().contains(e.spec_ancestors()[q]));
    }
}

/// Every node that the following axis reaches from `n` comes after `n` and
/// after each of its descendants; every node that the preceding axis reaches
/// comes before `n`. Neither axis reaches an ancestor or a descendant of `n`.
pub proof fn lemma_following_preceding<N: Node>(n: N)
    requires
        n.valid(),
    ensures
        forall|i: int|
            0 <= i < document_side(n, true).len() ==> {
                let m = #[trigger] document_side(n, true)[i];
                &&& n.position() < m.position()
                &&& forall|j: int|
                    0 <= j < n.spec_descendants().len() ==> #[trigger] n.spec_descendants()[j].position()
                        < m.position()
                &&& !n.spec_ancestors().contains(m)
                &&& !n.spec_descendants().contains(m)
            },
        forall|i: int|
            0 <= i < document_side(n, false).len() ==> {
                let m = #[trigger] document_side(n, false)[i];
                &&& m.position() < n.position()
                &&& !n.spec_ancestors().contains(m)
                &&& !n.spec_descendants().contains(m)
            },
{
    n.lemma_document_order();
    let desc = n.spec_descendants();
    let anc = n.spec_ancestors();
    let after = |m: N|
        {
            &&& n.position() < m.position()
            &&& forall|j: int| 0 <= j < desc.len() ==> #[trigger] desc[j].position() < m.position()
            &&& !anc.contains(m)
            &&& !desc.contains(m)
        };
    let before = |m: N|
        {
            &&& m.position() < n.position()
            &&& !anc.contains(m)
            &&& !desc.contains(m)
        };
    // Siblings after `n`, with their descendants.
    let fs = n.spec_following_siblings();
    assert forall|k: int| 0 <= k < fs.len() implies #[trigger] after(fs[k]) && forall|j: int|
        0 <= j < fs[k].spec_descendants().len() ==> #[trigger] after(fs[k].spec_descendants()[j]) by {
        let x = fs[k];
        assert forall|j: int| 0 <= j < desc.len() implies #[trigger] desc[j].position()
            < x.position() by {
            assert(desc[j].spec_ancestors().contains(n));
        }
        lemma_after_subtree(n, x);
        x.lemma_document_order();
        assert forall|j: int| 0 <= j < x.spec_descendants().len() implies #[trigger] after(
            x.spec_descendants()[j],
        ) by {
            lemma_after_subtree(n, x.spec_descendants()[j]);
        }
    }
    assert forall|k: int, j: int| 0 <= k < fs.len() && 0 <= j < fs[k].spec_descendants().len()
        implies #[trigger] after(fs[k].spec_descendants()[j]) by {
        assert(after(fs[k]));
    }
    lemma_with_descendants_all(fs, after);
    // Siblings after each ancestor, with their descendants.
    assert forall|k: int, i: int|
        0 <= k < anc.len() && 0 <= i < with_descendants(sibling_side(anc[k], true)).len()
            implies #[trigger] after(with_descendants(sibling_side(anc[k], true))[i]) by {
        let a = anc[k];
        a.lemma_document_order();
        assert(anc.contains(a));
        let afs = a.spec_following_siblings();
        assert forall|q: int| 0 <= q < afs.len() implies #[trigger] after(afs[q]) && forall|j: int|
            0 <= j < afs[q].spec_descendants().len() ==> #[trigger] after(
                afs[q].spec_descendants()[j],
            ) by {
            let x = afs[q];
            assert(n.spec_ancestors().contains(a));
            assert(n.position() < x.position());
            assert forall|j: int| 0 <= j < desc.len() implies #[trigger] desc[j].position()
                < x.position() by {
                assert(desc[j].spec_ancestors().contains(n));
                assert(desc[j].spec_ancestors().contains(anc[k]));
            }
            lemma_after_subtree(n, x);
            x.lemma_document_order();
            assert forall|j: int| 0 <= j < x.spec_descendants().len() implies #[trigger] after(
                x.spec_descendants()[j],
            ) by {
                lemma_after_subtree(n, x.spec_descendants()[j]);
            }
        }
        assert forall|q: int, j: int|
            0 <= q < afs.len() && 0 <= j < afs[q].spec_descendants().len() implies #[trigger] after(
                afs[q].spec_descendants()[j],
            ) by {
            assert(after(afs[q]));
        }
        lemma_with_descendants_all(afs, after);
    }
    lemma_beyond_ancestors_all(anc, true, after);
    assert forall|i: int| 0 <= i < document_side(n, true).len() implies after(
        #[trigger] document_side(n, true)[i],
    ) by {
        let w = with_descendants(fs);
        let b = beyond_ancestors(anc, true);
        if i < w.len() {
            assert(document_side(n, true)[i] == w[i]);
        } else {
            assert(document_side(n, true)[i] == b[i - w.len()]);
        }
    }
    // Siblings before `n`, with their descendants.
    let ps = n.spec_preceding_siblings();
    assert forall|k: int| 0 <= k < ps.len() implies #[trigger] before(ps[k]) && forall|j: int|
        0 <= j < ps[k].spec_descendants().len() ==> #[trigger] before(ps[k].spec_descendants()[j]) by {
        let s = ps[k];
        if anc.contains(s) {
            assert(n.spec_ancestors().contains(n.spec_preceding_siblings()[k]));
        }
        lemma_before_not_descendant(n, s);
        s.lemma_document_order();
        assert forall|j: int| 0 <= j < s.spec_descendants().len() implies #[trigger] before(
            s.spec_descendants()[j],
        ) by {
            let e = s.spec_descendants()[j];
            assert(e.spec_ancestors().contains(n.spec_preceding_siblings()[k]));
            lemma_before_not_descendant(n, e);
            lemma_below_not_ancestor(n, s, e);
        }
    }
    assert forall|k: int, j: int| 0 <= k < ps.len() && 0 <= j < ps[k].spec_descendants().len()
        implies #[trigger] before(ps[k].spec_descendants()[j]) by {
        assert(before(ps[k]));
    }
    lemma_with_descendants_all(ps, before);
    // Siblings before each ancestor, with their descendants.
    assert forall|k: int, i: int|
        0 <= k < anc.len() && 0 <= i < with_descendants(sibling_side(anc[k], false)).len()
            implies #[trigger] before(with_descendants(sibling_side(anc[k], false))[i]) by {
        let a = anc[k];
        a.lemma_document_order();
        assert(anc.contains(a));
        let aps = a.spec_preceding_siblings();
        assert forall|q: int| 0 <= q < aps.len() implies #[trigger] before(aps[q]) && forall|j: int|
            0 <= j < aps[q].spec_descendants().len() ==> #[trigger] before(
                aps[q].spec_descendants()[j],
            ) by {
            let x = aps[q];
            if anc.contains(x) {
                assert(n.spec_ancestors().contains(a.spec_preceding_siblings()[q]));
            }
            lemma_before_not_descendant(n, x);
            x.lemma_document_order();
            assert forall|j: int| 0 <= j < x.spec_descendants().len() implies #[trigger] before(
                x.spec_descendants()[j],
            ) by {
                let e = x.spec_descendants()[j];
                assert(e.spec_ancestors().contains(a.spec_preceding_siblings()[q]));
                lemma_before_not_descendant(n, e);
                lemma_below_not_ancestor(n, x, e);
            }
        }
        assert forall|q: int, j: int|
            0 <= q < aps.len() && 0 <= j < aps[q].spec_descendants().len() implies #[trigger] before(
                aps[q].spec_descendants()[j],
            ) by {
            assert(before(aps[q]));
        }
        lemma_with_descendants_all(aps, before);
    }
    lemma_beyond_ancestors_all(anc, false, before);
    assert forall|i: int| 0 <= i < document_side(n, false).len() implies before(
        #[trigger] document_side(n, false)[i],
    ) by {
        let w = with_descendants(ps);
        let b = beyond_ancestors(anc, false);
        if i < w.len() {
            assert(document_side(n, false)[i] == w[i]);
        } else {
            assert(document_side(n, false)[i] == b[i - w.len()]);
        }
    }
}

/// Nothing positioned before `n` is one of its descendants.
proof fn lemma_before_not_descendant<N: Node>(n: N, m: N)
    requires
        n.valid(),
        m.position() < n.position(),
    ensures
        !n.spec_descendants().contains(m),
{
    n.lemma_document_order();
    if n.spec_descendants().contains(m) {
        let q = choose|q: int|
            0 <= q < n.spec_descendants().len() && n.spec_descendants()[q] == m;
        assert(n.position() < n.spec_descendants()[q].position());
    }
}

/// The nodes of the following (`forward`) or preceding axis of `n`.
fn document_side_nodes<N: Node>(n: &N, forward: bool) -> (r: Vec<N>)
    ensures
        r@ == document_side(*n, forward),
{
    let mut bcc: Vec<N> = Vec::new();
    let sibs = if forward {
        n.following_siblings()
    } else {
        n.preceding_siblings()
    };
    push_with_descendants(&mut bcc, sibs);
    let anc = n.ancestors();
    let ghost first = bcc@;
    let mut k: usize = 0;
    assert(anc@.take(0) =~= Seq::<N>::empty());
    assert(first + beyond_ancestors(Seq::<N>::empty(), forward) =~= first);
    while k < anc.len()
        invariant
            k <= anc@.len(),
            anc@ == n.spec_ancestors(),
            first == with_descendants(sibling_side(*n, forward)),
            bcc@ == first + beyond_ancestors(anc@.take(k as int), forward),
        decreases anc@.len() - k,
    {
        let side = if forward {
            anc[k].following_siblings()
        } else {
            anc[k].preceding_siblings()
        };
        push_with_descendants(&mut bcc, side);
        proof {
            let t = anc@.take(k + 1);
            assert(t.drop_last() =~= anc@.take(k as int));
            assert(t.last() == anc@[k as int]);
            assert(bcc@ =~= first + beyond_ancestors(anc@.take(k + 1), forward));
        }
        k = k + 1;
    }
    assert(anc@.take(anc@.len() as int) =~= anc@);
    bcc
}

/// The nodes an axis takes from `n` whatever the test says.
fn always_nodes<N: Node>(axis: Axis, n: &N) -> (r: Vec<N>)
    ensures
        r@ == axis_always(axis, *n),
{
    let mut r: Vec<N> = Vec::new();
    match axis {
        Axis::SelfDocument | Axis::ParentDocument => {
            match n.node_type() {
                NodeType::Document => r.push(n.duplicate()),
                _ => {},
            }
        },
        Axis::DescendantOrSelfOrRoot => r.push(n.owner_document()),
        Axis::SelfAttribute => {
            match n.node_type() {
                NodeType::Attribute => r.push(n.duplicate()),
                _ => {},
            }
        },
        _ => {},
    }
    assert(r@ =~= axis_always(axis, *n));
    r
}

/// The nodes an axis takes from `n` when they pass the test.
fn tested_nodes<N: Node>(axis: Axis, n: &N) -> (r: Vec<N>)
    ensures
        r@ == axis_tested(axis, *n),
{
    match axis {
        Axis::SelfAxis => {
            let r = vec![n.duplicate()];
            assert(r@ =~= seq![*n]);
            r
        },
        Axis::Child => n.children(),
        Axis::Parent => {
            let mut r: Vec<N> = Vec::new();
            match n.parent() {
                Some(p) => r.push(p),
                None => {},
            }
            assert(r@ =~= axis_tested(axis, *n));
            r
        },
        Axis::Descendant => n.descendants(),
        Axis::DescendantOrSelf | Axis::DescendantOrSelfOrRoot => {
            let mut r = vec![n.duplicate()];
            let mut d = n.descendants();
            r.append(&mut d);
            assert(r@ =~= seq![*n] + n.spec_descendants());
            r
        },
        Axis::Ancestor => n.ancestors(),
        Axis::AncestorOrSelf => {
            let mut r = n.ancestors();
            r.push(n.duplicate());
            r
        },
        Axis::FollowingSibling => n.following_siblings(),
        Axis::PrecedingSibling => n.preceding_siblings(),
        Axis::Following => document_side_nodes(n, true),
        Axis::Preceding => document_side_nodes(n, false),
        Axis::Attribute => n.attributes(),
        _ => {
            let r: Vec<N> = Vec::new();
            assert(r@ =~= axis_tested(axis, *n));
            r
        },
    }
}

// ─────────────────────────────────────────────────────────────────────────
//  step
// ─────────────────────────────────────────────────────────────────────────

/// `m` is taken from the context node `n`: the axis takes it outright, or it
/// is on the axis and passed the node test.
pub open spec fn takes<N: Node, T: Fn(&N) -> bool>(nm: NodeMatch<T>, n: N, m: N) -> bool {
    ||| axis_always(nm.axis, n).contains(m)
    ||| axis_tested(nm.axis, n).contains(m) && call_ensures(nm.nodetest, (&m,), true)
}

/// Everything the axis takes from `n` is in `acc`: the nodes taken outright,
/// and those on the axis that did not fail the node test.
pub open spec fn gathered<N: Node, T: Fn(&N) -> bool>(acc: Seq<N>, nm: NodeMatch<T>, n: N) -> bool {
    &&& forall|m: N| axis_always(nm.axis, n).contains(m) ==> covers(acc, m)
    &&& forall|m: N|
        axis_tested(nm.axis, n).contains(m) ==> covers(acc, m) || call_ensures(
            nm.nodetest,
            (&m,),
            false,
        )
}

/// A step fails on an item that is not a node, or when the axis is not one a
/// step can take.
pub open spec fn step_fails<N, V>(i: Item<N, V>, axis: Axis) -> bool {
    i is Value || !axis_supported(axis)
}

/// The error a step raises on the item it fails on.
pub open spec fn step_error<N, V>(i: Item<N, V>, e: Error) -> bool {
    if i is Value {
        &&& e.kind == ErrorKind::DynamicAbsent
        &&& e.message@ == "context item is not a node"@
        &&& e.code matches Some(q) && q@ == (None::<Seq<char>>, "XTTE0510"@)
    } else {
        &&& e.kind == ErrorKind::NotImplemented
        &&& e.message@ == "coming soon"@
        &&& e.code is None
    }
}

/// The item at `j` is a node that `m` is taken from.
pub open spec fn taken_at<N: Node, V, T: Fn(&N) -> bool>(
    ctx: Seq<Item<N, V>>,
    j: int,
    nm: NodeMatch<T>,
    m: N,
) -> bool {
    ctx[j] matches Item::Node(n) && takes(nm, n, m)
}

/// Some node of the context (before `upto`) is one that `m` is taken from.
pub open spec fn taken_before<N: Node, V, T: Fn(&N) -> bool>(
    ctx: Seq<Item<N, V>>,
    upto: int,
    nm: NodeMatch<T>,
    m: N,
) -> bool {
    exists|j: int| 0 <= j < upto && #[trigger] taken_at(ctx, j, nm, m)
}

/// If the item at `j` is a node, all it contributes is in `acc`.
pub open spec fn gathered_at<N: Node, V, T: Fn(&N) -> bool>(
    ctx: Seq<Item<N, V>>,
    j: int,
    acc: Seq<N>,
    nm: NodeMatch<T>,
) -> bool {
    ctx[j] matches Item::Node(n) ==> gathered(acc, nm, n)
}

/// The nodes of a sequence of items.
pub open spec fn item_nodes<N, V>(s: Seq<Item<N, V>>) -> Seq<N> {
    s.map_values(
        |i: Item<N, V>|
            match i {
                Item::Node(n) => n,
                Item::Value(_) => vstd::pervasive::arbitrary(),
            },
    )
}

/// Everything the axis takes from `n` is held in `acc` (before sorting).
spec fn collected<N: Node, T: Fn(&N) -> bool>(acc: Seq<N>, nm: NodeMatch<T>, n: N) -> bool {
    &&& forall|m: N| axis_always(nm.axis, n).contains(m) ==> acc.contains(m)
    &&& forall|m: N|
        axis_tested(nm.axis, n).contains(m) ==> acc.contains(m) || call_ensures(
            nm.nodetest,
            (&m,),
            false,
        )
}

/// If the item at `j` is a node, all it contributes is held in `acc`.
spec fn collected_at<N: Node, V, T: Fn(&N) -> bool>(
    ctx: Seq<Item<N, V>>,
    j: int,
    acc: Seq<N>,
    nm: NodeMatch<T>,
) -> bool {
    ctx[j] matches Item::Node(n) ==> collected(acc, nm, n)
}

proof fn lemma_collected_sorted<N: Node, T: Fn(&N) -> bool>(
    acc: Seq<N>,
    sorted: Seq<N>,
    nm: NodeMatch<T>,
    n: N,
)
    requires
        collected(acc, nm, n),
        same_nodes(acc, sorted),
    ensures
        gathered(sorted, nm, n),
{
}

/// The error code of a context item that is not a node.
fn not_a_node_code() -> (r: QName)
    ensures
        r@ == (None::<Seq<char>>, "XTTE0510"@),
{
    proof {
        reveal_strlit("XTTE0510");
        assert(is_ncname("XTTE0510"@)) by {
            let s = "XTTE0510"@;
            assert(crate::names::grammar::spec_is_ncname_char(s[1]));
            assert(crate::names::grammar::spec_is_ncname_char(s[2]));
            assert(crate::names::grammar::spec_is_ncname_char(s[3]));
            assert(crate::names::grammar::spec_is_ncname_char(s[4]));
            assert(crate::names::grammar::spec_is_ncname_char(s[5]));
            assert(crate::names::grammar::spec_is_ncname_char(s[6]));
            assert(crate::names::grammar::spec_is_ncname_char(s[7]));
        }
    }
    QName::from_local_name(NcName::try_from("XTTE0510").unwrap())
}

/// For each item in the current context, evaluate the given node matching
/// operation. The result holds the nodes taken, in document order, each once.
pub fn step<N: Node, V, T: Fn(&N) -> bool>(ctxt: &Context<N, V>, nm: &NodeMatch<T>) -> (r: Result<
    Sequence<N, V>,
    Error,
>)
    requires
        forall|m: N| call_requires(nm.nodetest, (&m,)),
    ensures
        match r {
            Err(e) => exists|j: int|
                0 <= j < ctxt.context@.len() && step_fails(#[trigger] ctxt.context@[j], nm.axis)
                    && (forall|k: int|
                    0 <= k < j ==> !step_fails(#[trigger] ctxt.context@[k], nm.axis)) && step_error(
                    ctxt.context@[j],
                    e,
                ),
            Ok(s) => {
                &&& forall|j: int|
                    0 <= j < ctxt.context@.len() ==> !step_fails(
                        #[trigger] ctxt.context@[j],
                        nm.axis,
                    )
                &&& forall|k: int| 0 <= k < s@.len() ==> (#[trigger] s@[k]) is Node
                &&& in_document_order(item_nodes(s@))
                &&& forall|k: int|
                    0 <= k < s@.len() ==> taken_before(
                        ctxt.context@,
                        ctxt.context@.len() as int,
                        *nm,
                        #[trigger] item_nodes(s@)[k],
                    )
                &&& forall|j: int|
                    0 <= j < ctxt.context@.len() ==> gathered_at(
                        ctxt.context@,
                        j,
                        item_nodes(s@),
                        *nm,
                    )
            },
        },
{
    let mut acc: Vec<N> = Vec::new();
    let mut i: usize = 0;
    while i < ctxt.context.len()
        invariant
            forall|m: N| call_requires(nm.nodetest, (&m,)),
            i <= ctxt.context@.len(),
            forall|k: int| 0 <= k < i ==> !step_fails(#[trigger] ctxt.context@[k], nm.axis),
            forall|x: N| acc@.contains(x) ==> taken_before(ctxt.context@, i as int, *nm, x),
            forall|j: int| 0 <= j < i ==> #[trigger] collected_at(ctxt.context@, j, acc@, *nm),
        decreases ctxt.context@.len() - i,
    {
        match &ctxt.context[i] {
            Item::Node(n) => {
                let supported = match nm.axis {
                    Axis::Namespace | Axis::AncestorOrSelfOrRoot | Axis::Unknown => false,
                    _ => true,
                };
                if !supported {
                    return Err(
                        Error::new(ErrorKind::NotImplemented, String::from_str("coming soon")),
                    );
                }
                let ghost acc0 = acc@;
                let mut always = always_nodes(nm.axis, n);
                let ghost always_seq = always@;
                acc.append(&mut always);
                let ghost acc1 = acc@;
                let tested = tested_nodes(nm.axis, n);
                push_passing(&mut acc, tested, nm);
                proof {
                    let acc2 = acc@;
                    assert forall|x: N| acc0.contains(x) implies acc1.contains(x) by {
                        let k = choose|k: int| 0 <= k < acc0.len() && acc0[k] == x;
                        assert(acc1[k] == x);
                    }
                    assert forall|x: N| always_seq.contains(x) implies acc1.contains(x) by {
                        let k = choose|k: int| 0 <= k < always_seq.len() && always_seq[k] == x;
                        assert(acc1[acc0.len() + k] == x);
                    }
                    assert forall|x: N| acc1.contains(x) implies acc0.contains(x) || always_seq.contains(x) by {
                        let k = choose|k: int| 0 <= k < acc1.len() && acc1[k] == x;
                        if k < acc0.len() {
                            assert(acc0[k] == x);
                        } else {
                            assert(always_seq[k - acc0.len()] == x);
                        }
                    }
                    assert forall|x: N| acc2.contains(x) implies taken_before(
                        ctxt.context@,
                        i + 1,
                        *nm,
                        x,
                    ) by {
                        if !acc0.contains(x) {
                            assert(taken_at(ctxt.context@, i as int, *nm, x));
                        } else {
                            let j = choose|j: int|
                                0 <= j < i && #[trigger] taken_at(ctxt.context@, j, *nm, x);
                            assert(taken_at(ctxt.context@, j, *nm, x));
                        }
                    }
                    assert forall|j: int| 0 <= j < i + 1 implies #[trigger] collected_at(
                        ctxt.context@,
                        j,
                        acc2,
                        *nm,
                    ) by {
                        if j < i {
                            assert(collected_at(ctxt.context@, j, acc0, *nm));
                        }
                    }
                }
            },
            Item::Value(_) => {
                return Err(
                    Error::new_with_code(
                        ErrorKind::DynamicAbsent,
                        "context item is not a node",
                        Some(not_a_node_code()),
                    ),
                );
            },
        }
        i = i + 1;
    }
    let ghost unsorted = acc@;
    let sorted = sort_in_document_order(acc);
    let mut r: Sequence<N, V> = Vec::new();
    let mut k: usize = 0;
    while k < sorted.len()
        invariant
            k <= sorted@.len(),
            r@.len() == k,
            forall|q: int| 0 <= q < k ==> #[trigger] r@[q] == Item::<N, V>::Node(sorted@[q]),
        decreases sorted@.len() - k,
    {
        r.push(Item::Node(sorted[k].duplicate()));
        k = k + 1;
    }
    proof {
        assert(item_nodes(r@) =~= sorted@);
        assert forall|q: int| 0 <= q < r@.len() implies taken_before(
            ctxt.context@,
            ctxt.context@.len() as int,
            *nm,
            #[trigger] item_nodes(r@)[q],
        ) by {
            assert(item_nodes(r@)[q] == sorted@[q]);
            assert(sorted@.contains(sorted@[q]));
        }
        assert forall|j: int| 0 <= j < ctxt.context@.len() implies gathered_at(
            ctxt.context@,
            j,
            item_nodes(r@),
            *nm,
        ) by {
            assert(collected_at(ctxt.context@, j, unsorted, *nm));
            if let Item::Node(nj) = ctxt.context@[j] {
                lemma_collected_sorted(unsorted, sorted@, *nm, nj);
            }
        }
    }
    Ok(r)
}

// ─────────────────────────────────────────────────────────────────────────
//  Steps with predicates
// ─────────────────────────────────────────────────────────────────────────
//
// A step with predicates takes the step from each context node on its own,
// puts the nodes in axis order, filters them through the predicates (which
// the expression evaluator does), and merges what is left over all context
// nodes into one node-set.

/// The reverse axes: they number `position()` from the context node outward.
pub open spec fn spec_is_reverse_axis(axis: Axis) -> bool {
    ||| axis == Axis::Ancestor
    ||| axis == Axis::AncestorOrSelf
    ||| axis == Axis::AncestorOrSelfOrRoot
    ||| axis == Axis::Preceding
    ||| axis == Axis::PrecedingSibling
}

/// The reverse axes are exactly ancestor, ancestor-or-self,
/// ancestor-or-self-or-root, preceding and preceding-sibling. The nodes that
/// a step from one item hands on (to the predicates, say) are in reverse
/// document order on those axes and in document order on every other one.
pub proof fn lemma_reverse_axes<N: Node, V, T: Fn(&N) -> bool>(
    it: Item<N, V>,
    nm: NodeMatch<T>,
    s: Sequence<N, V>,
)
    ensures
        spec_is_reverse_axis(nm.axis) <==> (nm.axis == Axis::Ancestor || nm.axis
            == Axis::AncestorOrSelf || nm.axis == Axis::AncestorOrSelfOrRoot || nm.axis
            == Axis::Preceding || nm.axis == Axis::PrecedingSibling),
        axis_step(it, nm, s) && (nm.axis == Axis::Ancestor || nm.axis == Axis::AncestorOrSelf
            || nm.axis == Axis::AncestorOrSelfOrRoot || nm.axis == Axis::Preceding || nm.axis
            == Axis::PrecedingSibling) ==> in_reverse_document_order(item_nodes(s@)),
        axis_step(it, nm, s) && !(nm.axis == Axis::Ancestor || nm.axis == Axis::AncestorOrSelf
            || nm.axis == Axis::AncestorOrSelfOrRoot || nm.axis == Axis::Preceding || nm.axis
            == Axis::PrecedingSibling) ==> in_document_order(item_nodes(s@)),
{
}

/// What a step takes along each axis that applies the node test: a node is
/// taken only if the test passed for it. Along the child, attribute,
/// descendant, parent, ancestor and sibling axes, exactly the nodes in that
/// relation to the context node that pass the test are taken.
pub proof fn lemma_node_test_applies<N: Node, T: Fn(&N) -> bool>(nm: NodeMatch<T>, n: N, m: N)
    ensures
        !(nm.axis == Axis::SelfDocument || nm.axis == Axis::ParentDocument || nm.axis
            == Axis::SelfAttribute || nm.axis == Axis::DescendantOrSelfOrRoot) && takes(nm, n, m)
            ==> call_ensures(nm.nodetest, (&m,), true),
        nm.axis == Axis::Child ==> (takes(nm, n, m) <==> n.spec_children().contains(m)
            && call_ensures(nm.nodetest, (&m,), true)),
        nm.axis == Axis::Attribute ==> (takes(nm, n, m) <==> n.spec_attributes().contains(m)
            && call_ensures(nm.nodetest, (&m,), true)),
        nm.axis == Axis::Descendant ==> (takes(nm, n, m) <==> n.spec_descendants().contains(m)
            && call_ensures(nm.nodetest, (&m,), true)),
        nm.axis == Axis::Ancestor ==> (takes(nm, n, m) <==> n.spec_ancestors().contains(m)
            && call_ensures(nm.nodetest, (&m,), true)),
        nm.axis == Axis::FollowingSibling ==> (takes(nm, n, m)
            <==> n.spec_following_siblings().contains(m) && call_ensures(nm.nodetest, (&m,), true)),
        nm.axis == Axis::PrecedingSibling ==> (takes(nm, n, m)
            <==> n.spec_preceding_siblings().contains(m) && call_ensures(nm.nodetest, (&m,), true)),
        nm.axis == Axis::Parent ==> (takes(nm, n, m) <==> n.spec_parent() == Some(m)
            && call_ensures(nm.nodetest, (&m,), true)),
        nm.axis == Axis::SelfAxis ==> (takes(nm, n, m) <==> m == n && call_ensures(
            nm.nodetest,
            (&m,),
            true,
        )),
        nm.axis == Axis::DescendantOrSelf ==> (takes(nm, n, m) <==> (m == n
            || n.spec_descendants().contains(m)) && call_ensures(nm.nodetest, (&m,), true)),
        nm.axis == Axis::AncestorOrSelf ==> (takes(nm, n, m) <==> (m == n
            || n.spec_ancestors().contains(m)) && call_ensures(nm.nodetest, (&m,), true)),
        nm.axis == Axis::Following ==> (takes(nm, n, m) <==> document_side(n, true).contains(m)
            && call_ensures(nm.nodetest, (&m,), true)),
        nm.axis == Axis::Preceding ==> (takes(nm, n, m) <==> document_side(n, false).contains(m)
            && call_ensures(nm.nodetest, (&m,), true)),
{
    lemma_concat_contains_iff(seq![n], n.spec_descendants(), m);
    lemma_concat_contains_iff(n.spec_ancestors(), seq![n], m);
    assert(seq![n][0] == n);
    if seq![n].contains(m) {
        let k = choose|k: int| 0 <= k < 1 && seq![n][k] == m;
    }
    if let Some(p) = n.spec_parent() {
        assert(seq![p][0] == p);
        if seq![p].contains(m) {
            let k = choose|k: int| 0 <= k < 1 && seq![p][k] == m;
        }
    }
}

/// Is `axis` a reverse axis?
pub fn is_reverse_axis(axis: Axis) -> (r: bool)
    ensures
        r == spec_is_reverse_axis(axis),
{
    match axis {
        Axis::Ancestor | Axis::AncestorOrSelf | Axis::AncestorOrSelfOrRoot | Axis::Preceding
        | Axis::PrecedingSibling => true,
        _ => false,
    }
}

/// The step from one context item, in axis order: document order for a
/// forward axis, reverse document order (nearest the context node first) for
/// a reverse axis.
pub fn step_in_axis_order<N: Node, V: Clone, T: Fn(&N) -> bool>(
    it: &Item<N, V>,
    nm: &NodeMatch<T>,
) -> (r: Result<Sequence<N, V>, Error>)
    requires
        forall|m: N| call_requires(nm.nodetest, (&m,)),
    ensures
        match r {
            Err(e) => step_fails(*it, nm.axis) && step_error(*it, e),
            Ok(s) => {
                &&& !step_fails(*it, nm.axis)
                &&& forall|k: int| 0 <= k < s@.len() ==> (#[trigger] s@[k]) is Node
                &&& if spec_is_reverse_axis(nm.axis) {
                    in_reverse_document_order(item_nodes(s@))
                } else {
                    in_document_order(item_nodes(s@))
                }
                &&& forall|k: int|
                    0 <= k < s@.len() ==> (*it matches Item::Node(n) && takes(
                        *nm,
                        n,
                        #[trigger] item_nodes(s@)[k],
                    ))
                &&& *it matches Item::Node(n) ==> gathered(item_nodes(s@), *nm, n)
            },
        },
{
    let single = Context { context: vec![clone_item(it)], context_item: Some(clone_item(it)) };
    let nodes = step(&single, nm)?;
    proof {
        assert forall|k: int| 0 <= k < nodes@.len() implies (*it matches Item::Node(n) && takes(
            *nm,
            n,
            #[trigger] item_nodes(nodes@)[k],
        )) by {
            assert(taken_before(single.context@, 1, *nm, item_nodes(nodes@)[k]));
            let j = choose|j: int|
                0 <= j < 1 && #[trigger] taken_at(single.context@, j, *nm, item_nodes(nodes@)[k]);
        }
        assert(gathered_at(single.context@, 0, item_nodes(nodes@), *nm));
    }
    if !is_reverse_axis(nm.axis) {
        return Ok(nodes);
    }
    let ghost fwd = nodes@;
    let mut rest = nodes;
    let mut r: Sequence<N, V> = Vec::new();
    while rest.len() > 0
        invariant
            rest@ == fwd.take(rest@.len() as int),
            fwd.len() >= rest@.len(),
            r@.len() + rest@.len() == fwd.len(),
            forall|k: int| 0 <= k < r@.len() ==> #[trigger] r@[k] == fwd[fwd.len() - 1 - k],
        decreases rest@.len(),
    {
        let ghost n = rest@.len();
        let x = rest.pop().unwrap();
        assert(x == fwd[n - 1]);
        r.push(x);
        assert(rest@ =~= fwd.take(rest@.len() as int));
    }
    proof {
        let fwd_nodes = item_nodes(fwd);
        let rev_nodes = item_nodes(r@);
        assert forall|k: int| 0 <= k < rev_nodes.len() implies #[trigger] rev_nodes[k]
            == fwd_nodes[fwd.len() - 1 - k] by {
            assert(r@[k] == fwd[fwd.len() - 1 - k]);
        }
        assert forall|a: int, b: int| 0 <= a < b < rev_nodes.len() implies #[trigger] rev_nodes[a].position()
            > #[trigger] rev_nodes[b].position() by {
            assert(rev_nodes[a] == fwd_nodes[fwd.len() - 1 - a]);
            assert(rev_nodes[b] == fwd_nodes[fwd.len() - 1 - b]);
        }
        assert forall|k: int| 0 <= k < r@.len() implies (*it matches Item::Node(n) && takes(
            *nm,
            n,
            #[trigger] item_nodes(r@)[k],
        )) by {
            assert(rev_nodes[k] == fwd_nodes[fwd.len() - 1 - k]);
            assert(r@[k] == fwd[fwd.len() - 1 - k]);
        }
        if let Item::Node(n0) = it {
            let n = *n0;
            assert(gathered(fwd_nodes, *nm, n));
            assert forall|m: N| axis_always(nm.axis, n).contains(m) implies covers(rev_nodes, m) by {
                let k = choose|k: int| 0 <= k < fwd_nodes.len() && #[trigger] fwd_nodes[k].position() == m.position();
                assert(rev_nodes[fwd.len() - 1 - k] == fwd_nodes[k]);
            }
            assert forall|m: N| axis_tested(nm.axis, n).contains(m) implies covers(rev_nodes, m)
                || call_ensures(nm.nodetest, (&m,), false) by {
                if covers(fwd_nodes, m) {
                    let k = choose|k: int| 0 <= k < fwd_nodes.len() && #[trigger] fwd_nodes[k].position() == m.position();
                    assert(rev_nodes[fwd.len() - 1 - k] == fwd_nodes[k]);
                }
            }
        }
    }
    Ok(r)
}

/// Merges node lists into one node-set: the nodes of `items`, in document
/// order, each once.
pub fn nodes_in_document_order<N: Node, V>(items: Sequence<N, V>) -> (r: Sequence<N, V>)
    requires
        forall|k: int| 0 <= k < items@.len() ==> (#[trigger] items@[k]) is Node,
    ensures
        forall|k: int| 0 <= k < r@.len() ==> (#[trigger] r@[k]) is Node,
        in_document_order(item_nodes(r@)),
        same_nodes(item_nodes(items@), item_nodes(r@)),
{
    let ghost all = items@;
    let mut rest = items;
    let mut nodes: Vec<N> = Vec::new();
    while rest.len() > 0
        invariant
            forall|k: int| 0 <= k < all.len() ==> (#[trigger] all[k]) is Node,
            rest@ == all.take(rest@.len() as int),
            all.len() >= rest@.len(),
            nodes@.len() + rest@.len() == all.len(),
            forall|k: int| 0 <= k < nodes@.len() ==> Item::<N, V>::Node(#[trigger] nodes@[k])
                == all[all.len() - 1 - k],
        decreases rest@.len(),
    {
        let ghost n = rest@.len();
        let x = rest.pop().unwrap();
        assert(x == all[n - 1]);
        match x {
            Item::Node(m) => nodes.push(m),
            Item::Value(_) => {
                assert(all[n - 1] is Node);
            },
        }
        assert(rest@ =~= all.take(rest@.len() as int));
    }
    let ghost unsorted = nodes@;
    let sorted = sort_in_document_order(nodes);
    let mut r: Sequence<N, V> = Vec::new();
    let mut k: usize = 0;
    while k < sorted.len()
        invariant
            k <= sorted@.len(),
            r@.len() == k,
            forall|q: int| 0 <= q < k ==> #[trigger] r@[q] == Item::<N, V>::Node(sorted@[q]),
        decreases sorted@.len() - k,
    {
        r.push(Item::Node(sorted[k].duplicate()));
        k = k + 1;
    }
    proof {
        let inodes = item_nodes(all);
        assert(item_nodes(r@) =~= sorted@);
        assert forall|x: N| inodes.contains(x) implies unsorted.contains(x) by {
            let i = choose|i: int| 0 <= i < inodes.len() && inodes[i] == x;
            assert(all[i] is Node);
            assert(unsorted[all.len() - 1 - i] == x);
        }
        assert forall|x: N| unsorted.contains(x) implies inodes.contains(x) by {
            let k = choose|k: int| 0 <= k < unsorted.len() && unsorted[k] == x;
            assert(inodes[all.len() - 1 - k] == x);
        }
        assert forall|x: N| inodes.contains(x) implies covers(sorted@, x) by {
            assert(unsorted.contains(x));
        }
    }
    r
}

/// What `step_in_axis_order` gives for the context item `it`.
pub open spec fn axis_step<N: Node, V, T: Fn(&N) -> bool>(
    it: Item<N, V>,
    nm: NodeMatch<T>,
    s: Sequence<N, V>,
) -> bool {
    &&& !step_fails(it, nm.axis)
    &&& forall|k: int| 0 <= k < s@.len() ==> (#[trigger] s@[k]) is Node
    &&& if spec_is_reverse_axis(nm.axis) {
        in_reverse_document_order(item_nodes(s@))
    } else {
        in_document_order(item_nodes(s@))
    }
    &&& forall|k: int|
        0 <= k < s@.len() ==> (it matches Item::Node(n) && takes(nm, n, #[trigger] item_nodes(s@)[k]))
    &&& it matches Item::Node(n) ==> gathered(item_nodes(s@), nm, n)
}

/// `t` is what the predicates left of the step from `it`: the filter was
/// given the step's nodes in axis order and gave back `t`.
pub open spec fn filtered_step<N: Node, V, T: Fn(&N) -> bool, F: Fn(
    Sequence<N, V>,
    &Item<N, V>,
) -> Result<Sequence<N, V>, Error>>(
    it: Item<N, V>,
    nm: NodeMatch<T>,
    filter: F,
    t: Sequence<N, V>,
) -> bool {
    exists|s: Sequence<N, V>| axis_step(it, nm, s) && #[trigger] call_ensures(filter, (s, &it), Ok(t))
}

/// `x` is among what the predicates left for some node of the context.
pub open spec fn kept_for_some<N: Node, V, T: Fn(&N) -> bool, F: Fn(
    Sequence<N, V>,
    &Item<N, V>,
) -> Result<Sequence<N, V>, Error>>(
    ctx: Seq<Item<N, V>>,
    nm: NodeMatch<T>,
    filter: F,
    x: N,
) -> bool {
    exists|j: int, t: Sequence<N, V>|
        0 <= j < ctx.len() && #[trigger] filtered_step(ctx[j], nm, filter, t) && item_nodes(
            t@,
        ).contains(x)
}

/// Everything the predicates left for the context item `it` is in `out`.
pub open spec fn kept_all_in<N: Node, V, T: Fn(&N) -> bool, F: Fn(
    Sequence<N, V>,
    &Item<N, V>,
) -> Result<Sequence<N, V>, Error>>(
    it: Item<N, V>,
    nm: NodeMatch<T>,
    filter: F,
    out: Seq<N>,
) -> bool {
    exists|t: Sequence<N, V>|
        #[trigger] filtered_step(it, nm, filter, t) && forall|x: N|
            item_nodes(t@).contains(x) ==> covers(out, x)
}

/// The filter gave back a list for each of the first `j` items of `ctx`.
pub open spec fn filtered_before<N: Node, V, T: Fn(&N) -> bool, F: Fn(
    Sequence<N, V>,
    &Item<N, V>,
) -> Result<Sequence<N, V>, Error>>(
    ctx: Seq<Item<N, V>>,
    nm: NodeMatch<T>,
    filter: F,
    j: int,
) -> bool {
    forall|k: int| 0 <= k < j ==> #[trigger] filter_succeeded(ctx[k], nm, filter)
}

/// The step from `it` succeeded and the filter gave back a list for it.
pub open spec fn filter_succeeded<N: Node, V, T: Fn(&N) -> bool, F: Fn(
    Sequence<N, V>,
    &Item<N, V>,
) -> Result<Sequence<N, V>, Error>>(it: Item<N, V>, nm: NodeMatch<T>, filter: F) -> bool {
    exists|t: Sequence<N, V>| #[trigger] filtered_step(it, nm, filter, t)
}

proof fn lemma_filtered_before<N: Node, V, T: Fn(&N) -> bool, F: Fn(
    Sequence<N, V>,
    &Item<N, V>,
) -> Result<Sequence<N, V>, Error>>(
    ctx: Seq<Item<N, V>>,
    nm: NodeMatch<T>,
    filter: F,
    kept: Seq<Sequence<N, V>>,
    j: int,
)
    requires
        forall|k: int| 0 <= k < j ==> filtered_step(ctx[k], nm, filter, #[trigger] kept[k]),
    ensures
        filtered_before(ctx, nm, filter, j),
{
    assert forall|k: int| 0 <= k < j implies #[trigger] filter_succeeded(ctx[k], nm, filter) by {
        assert(filtered_step(ctx[k], nm, filter, kept[k]));
    }
}

/// Given a list of nodes only, the filter gives back nodes only.
pub open spec fn filter_keeps_nodes<N, V, F: Fn(Sequence<N, V>, &Item<N, V>) -> Result<
    Sequence<N, V>,
    Error,
>>(filter: F) -> bool {
    forall|s: Sequence<N, V>, it: Item<N, V>, t: Sequence<N, V>|
        #[trigger] call_ensures(filter, (s, &it), Ok(t)) && (forall|k: int|
            0 <= k < s@.len() ==> (#[trigger] s@[k]) is Node) ==> forall|k: int|
            0 <= k < t@.len() ==> (#[trigger] t@[k]) is Node
}

/// Evaluate an axis step together with its predicates. For each node of the
/// context on its own, the step's nodes are put in axis order and `filter`
/// applies the predicates to them, with that node as the current node (so
/// `position()` and `last()` count within each node's own list). What is left
/// for all the context nodes is merged into one node-set, in document order
/// and each node once.
pub fn step_predicated<N: Node, V: Clone, T: Fn(&N) -> bool, F: Fn(
    Sequence<N, V>,
    &Item<N, V>,
) -> Result<Sequence<N, V>, Error>>(ctxt: &Context<N, V>, nm: &NodeMatch<T>, filter: &F) -> (r:
    Result<Sequence<N, V>, Error>)
    requires
        forall|m: N| call_requires(nm.nodetest, (&m,)),
        forall|s: Sequence<N, V>, it: Item<N, V>| call_requires(*filter, (s, &it)),
        filter_keeps_nodes(*filter),
    ensures
        match r {
            Err(e) => exists|j: int|
                0 <= j < ctxt.context@.len() && (forall|k: int|
                    0 <= k < j ==> !step_fails(#[trigger] ctxt.context@[k], nm.axis)) && filtered_before(ctxt.context@, *nm, *filter, j) && ({
                    ||| step_fails(ctxt.context@[j], nm.axis) && step_error(ctxt.context@[j], e)
                    ||| exists|s: Sequence<N, V>|
                        axis_step(ctxt.context@[j], *nm, s) && #[trigger] call_ensures(
                            *filter,
                            (s, &ctxt.context@[j]),
                            Err(e),
                        )
                }),
            Ok(out) => {
                &&& forall|k: int| 0 <= k < out@.len() ==> (#[trigger] out@[k]) is Node
                &&& in_document_order(item_nodes(out@))
                &&& forall|k: int|
                    0 <= k < out@.len() ==> kept_for_some(
                        ctxt.context@,
                        *nm,
                        *filter,
                        #[trigger] item_nodes(out@)[k],
                    )
                &&& forall|j: int|
                    0 <= j < ctxt.context@.len() ==> kept_all_in(
                        #[trigger] ctxt.context@[j],
                        *nm,
                        *filter,
                        item_nodes(out@),
                    )
            },
        },
{
    let mut acc: Sequence<N, V> = Vec::new();
    let ghost mut kept: Seq<Sequence<N, V>> = Seq::empty();
    let mut i: usize = 0;
    while i < ctxt.context.len()
        invariant
            forall|m: N| call_requires(nm.nodetest, (&m,)),
            forall|s: Sequence<N, V>, it: Item<N, V>| call_requires(*filter, (s, &it)),
            filter_keeps_nodes(*filter),
            i <= ctxt.context@.len(),
            kept.len() == i,
            forall|k: int| 0 <= k < i ==> !step_fails(#[trigger] ctxt.context@[k], nm.axis),
            forall|k: int| 0 <= k < acc@.len() ==> (#[trigger] acc@[k]) is Node,
            forall|j: int|
                0 <= j < i ==> filtered_step(ctxt.context@[j], *nm, *filter, #[trigger] kept[j]),
            forall|j: int, x: N|
                0 <= j < i && #[trigger] item_nodes(kept[j]@).contains(x) ==> item_nodes(
                    acc@,
                ).contains(x),
            forall|x: N|
                item_nodes(acc@).contains(x) ==> exists|j: int|
                    0 <= j < i && #[trigger] item_nodes(kept[j]@).contains(x),
        decreases ctxt.context@.len() - i,
    {
        let it = &ctxt.context[i];
        let nodes = match step_in_axis_order(it, nm) {
            Ok(nodes) => nodes,
            Err(e) => {
                proof {
                    lemma_filtered_before(ctxt.context@, *nm, *filter, kept, i as int);
                }
                return Err(e);
            },
        };
        let ghost s = nodes;
        assert(axis_step(*it, *nm, s));
        let t = match filter(nodes, it) {
            Ok(t) => t,
            Err(e) => {
                assert(call_ensures(*filter, (s, it), Err(e)));
                proof {
                    lemma_filtered_before(ctxt.context@, *nm, *filter, kept, i as int);
                }
                return Err(e);
            },
        };
        let ghost tvec = t;
        proof {
            assert(call_ensures(*filter, (s, it), Ok(tvec)));
            assert(filtered_step(*it, *nm, *filter, tvec));
            assert(forall|k: int| 0 <= k < s@.len() ==> (#[trigger] s@[k]) is Node);
            assert(forall|k: int| 0 <= k < tvec@.len() ==> (#[trigger] tvec@[k]) is Node);
        }
        let ghost acc0 = acc@;
        let ghost kept0 = kept;
        let mut t = t;
        acc.append(&mut t);
        proof {
            kept = kept.push(tvec);
            let a = acc@;
            assert(a == acc0 + tvec@);
            assert(item_nodes(a) =~= item_nodes(acc0) + item_nodes(tvec@));
            assert forall|k: int| 0 <= k < a.len() implies (#[trigger] a[k]) is Node by {
                if k >= acc0.len() {
                    assert(a[k] == tvec@[k - acc0.len()]);
                } else {
                    assert(a[k] == acc0[k]);
                }
            }
            assert forall|j: int| 0 <= j < i + 1 implies filtered_step(
                ctxt.context@[j],
                *nm,
                *filter,
                #[trigger] kept[j],
            ) by {
                if j < i {
                    assert(kept[j] == kept0[j]);
                }
            }
            assert forall|j: int, x: N|
                0 <= j < i + 1 && #[trigger] item_nodes(kept[j]@).contains(x) implies item_nodes(
                a,
            ).contains(x) by {
                let left = item_nodes(acc0);
                let right = item_nodes(tvec@);
                if j < i {
                    assert(kept[j] == kept0[j]);
                    assert(left.contains(x));
                    let q = choose|q: int| 0 <= q < left.len() && left[q] == x;
                    assert((left + right)[q] == x);
                } else {
                    assert(kept[j] == tvec);
                    let q = choose|q: int| 0 <= q < right.len() && right[q] == x;
                    assert((left + right)[left.len() + q] == x);
                }
            }
            assert forall|x: N| item_nodes(a).contains(x) implies exists|j: int|
                0 <= j < i + 1 && #[trigger] item_nodes(kept[j]@).contains(x) by {
                let left = item_nodes(acc0);
                let right = item_nodes(tvec@);
                let q = choose|q: int| 0 <= q < (left + right).len() && (left + right)[q] == x;
                if q < left.len() {
                    assert(left.contains(x));
                    let j = choose|j: int| 0 <= j < i && #[trigger] item_nodes(kept0[j]@).contains(x);
                    assert(kept[j] == kept0[j]);
                } else {
                    assert(right[q - left.len()] == x);
                    assert(kept[i as int] == tvec);
                    assert(item_nodes(kept[i as int]@).contains(x));
                }
            }
        }
        i = i + 1;
    }
    let ghost all = acc@;
    let out = nodes_in_document_order(acc);
    proof {
        assert forall|k: int| 0 <= k < out@.len() implies kept_for_some(
            ctxt.context@,
            *nm,
            *filter,
            #[trigger] item_nodes(out@)[k],
        ) by {
            let y = item_nodes(out@)[k];
            assert(item_nodes(out@).contains(y));
            assert(item_nodes(all).contains(y));
            let j = choose|j: int| 0 <= j < i && #[trigger] item_nodes(kept[j]@).contains(y);
            assert(filtered_step(ctxt.context@[j], *nm, *filter, kept[j]));
        }
        assert forall|j: int| 0 <= j < ctxt.context@.len() implies kept_all_in(
            #[trigger] ctxt.context@[j],
            *nm,
            *filter,
            item_nodes(out@),
        ) by {
            assert(filtered_step(ctxt.context@[j], *nm, *filter, kept[j]));
            assert forall|x: N| item_nodes(kept[j]@).contains(x) implies covers(
                item_nodes(out@),
                x,
            ) by {
                assert(item_nodes(all).contains(x));
            }
        }
    }
    Ok(out)
}

} // verus!

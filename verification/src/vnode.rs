//! The virtual node tree: pure data describing a UI fragment, together with
//! its mathematical view and the message functor `do_map`.
//!
//! Event producers are first-order data: a listener carries the identity of
//! the producer the host registered (`producer`) and the chain of message
//! transforms (`maps`) that must be applied, in order, to whatever message
//! the producer yields.  The host interprets both identities; the core only
//! rearranges them, which is what makes the functor laws provable.

use vstd::prelude::*;
use crate::lazy::fx_pair;
use crate::lazy::Lazy;

verus! {

/// A namespace a rendered element lives in.
#[derive(Clone, Copy, PartialEq, Eq, Structural, Debug)]
pub enum Namespace {
    Html,
    Svg,
}

/// An event subscription: when `event` fires on the rendered node, the host
/// runs producer `producer` and then applies the transforms in `maps`, in
/// order, to the produced message before delivering it.
#[derive(Clone, Debug)]
pub struct Listener {
    pub event: String,
    pub producer: u64,
    pub maps: Vec<u64>,
}

/// A plain attribute: a name and a string value.
#[derive(Clone, Debug)]
pub struct Attribute {
    pub name: String,
    pub value: String,
}

/// The children of an element: matched by position, or by explicit key.
pub enum Children {
    NonKeyed(Vec<VNode>),
    Keyed(Vec<(String, VNode)>),
}

/// A virtual element: namespace, tag, attributes, listeners and children,
/// plus the handle of its rendered counterpart once materialized.
pub struct Element {
    pub ns: Namespace,
    pub tag: String,
    pub attributes: Vec<Attribute>,
    pub listeners: Vec<Listener>,
    pub children: Children,
    pub handle: Option<usize>,
}

/// A virtual tree node.  `Text` and `Elem` describe single rendered nodes;
/// `List` is a fragment rendering zero or more siblings under one container;
/// `Lazy` defers rendering of a subtree to a host thunk, memoized by hash.
pub enum VNode {
    Text { text: String, handle: Option<usize> },
    Elem(Element),
    List { items: Vec<VNode>, handle: Option<usize> },
    Lazy(Lazy),
}

/// The view of a listener.
pub struct LView {
    pub event: Seq<char>,
    pub producer: u64,
    pub maps: Seq<u64>,
}

/// The view of a child set.
#[verifier::ext_equal]
pub enum CView {
    NonKeyed(Seq<VTree>),
    Keyed(Seq<(Seq<char>, VTree)>),
}

/// The mathematical view of a virtual tree: the node's content with handles
/// and memoization caches erased.  Two nodes with equal views ask the host
/// for the same rendering.  A `Lazy` is its cache key: the content hash, the
/// thunk identity and the pending transform chain (the hash is trusted to
/// determine the rendered output, so the cached subtree is not part of the
/// view).
#[verifier::ext_equal]
pub enum VTree {
    Text(Seq<char>),
    Elem {
        ns: Namespace,
        tag: Seq<char>,
        attrs: Seq<(Seq<char>, Seq<char>)>,
        listeners: Seq<LView>,
        children: CView,
    },
    List(Seq<VTree>),
    Lazy { hash: u64, thunk: u64, maps: Seq<u64> },
}

pub open spec fn attr_views(s: Seq<Attribute>) -> Seq<(Seq<char>, Seq<char>)> {
    Seq::new(s.len(), |i: int| (s[i].name@, s[i].value@))
}

pub open spec fn listener_views(s: Seq<Listener>) -> Seq<LView> {
    Seq::new(s.len(), |i: int| (LView { event: s[i].event@, producer: s[i].producer, maps: s[i].maps@ }))
}

pub open spec fn vtrees(s: Seq<VNode>) -> Seq<VTree>
    decreases s,
{
    if s.len() == 0 {
        Seq::empty()
    } else {
        seq![vtree(s[0])] + vtrees(s.drop_first())
    }
}

/// `vtrees` is the elementwise view.
pub proof fn lemma_vtrees(s: Seq<VNode>)
    ensures
        vtrees(s).len() == s.len(),
        forall|i: int| 0 <= i < s.len() ==> vtrees(s)[i] == vtree(s[i]),
    decreases s,
{
    if s.len() > 0 {
        lemma_vtrees(s.drop_first());
    }
}

pub open spec fn keyed_views(s: Seq<(String, VNode)>) -> Seq<(Seq<char>, VTree)>
    decreases s,
{
    if s.len() == 0 {
        Seq::empty()
    } else {
        seq![(s[0].0@, vtree(s[0].1))] + keyed_views(s.drop_first())
    }
}

/// `keyed_views` is the elementwise view.
pub proof fn lemma_keyed_views(s: Seq<(String, VNode)>)
    ensures
        keyed_views(s).len() == s.len(),
        forall|i: int| 0 <= i < s.len() ==> keyed_views(s)[i] == (s[i].0@, vtree(s[i].1)),
    decreases s,
{
    if s.len() > 0 {
        lemma_keyed_views(s.drop_first());
    }
}

pub open spec fn vtree(n: VNode) -> VTree
    decreases n,
{
    match n {
        VNode::Text { text, handle } => VTree::Text(text@),
        VNode::Elem(e) => VTree::Elem {
            ns: e.ns,
            tag: e.tag@,
            attrs: attr_views(e.attributes@),
            listeners: listener_views(e.listeners@),
            children: match e.children {
                Children::NonKeyed(v) => CView::NonKeyed(vtrees(v@)),
                Children::Keyed(v) => CView::Keyed(keyed_views(v@)),
            },
        },
        VNode::List { items, handle } => VTree::List(vtrees(items@)),
        VNode::Lazy(l) => VTree::Lazy { hash: l.hash, thunk: l.thunk, maps: l.maps@ },
    }
}

impl View for VNode {
    type V = VTree;

    open spec fn view(&self) -> VTree {
        vtree(*self)
    }
}

/// The handle of the rendered node a tree stands for: the node's own handle,
/// or, for a deferred subtree, the handle of its cached rendering.
pub open spec fn root_handle(n: VNode) -> Option<usize>
    decreases n,
{
    match n {
        VNode::Text { text, handle } => handle,
        VNode::Elem(e) => e.handle,
        VNode::List { items, handle } => handle,
        VNode::Lazy(l) => match l.vnode {
            Some(b) => root_handle(*b),
            None => None,
        },
    }
}

/// The handle of a materialized tree.
pub open spec fn root_of(n: VNode) -> usize {
    root_handle(n)->Some_0
}

/// True of a tree every node of which has been materialized: each node
/// carries a handle, and every deferred subtree holds a cached rendering
/// that is itself materialized.
pub open spec fn materialized(n: VNode) -> bool
    decreases n,
{
    match n {
        VNode::Text { text, handle } => handle is Some,
        VNode::Elem(e) => e.handle is Some && match e.children {
            Children::NonKeyed(v) => all_materialized(v@),
            Children::Keyed(v) => all_materialized_keyed(v@),
        },
        VNode::List { items, handle } => handle is Some && all_materialized(items@),
        VNode::Lazy(l) => match l.vnode {
            Some(b) => materialized(*b),
            None => false,
        },
    }
}

pub open spec fn all_materialized(s: Seq<VNode>) -> bool
    decreases s,
{
    forall|i: int| 0 <= i < s.len() ==> materialized(#[trigger] s[i])
}

pub open spec fn all_materialized_keyed(s: Seq<(String, VNode)>) -> bool
    decreases s,
{
    forall|i: int| 0 <= i < s.len() ==> materialized((#[trigger] s[i]).1)
}

/// True when every handle in the tree is below `n`: the tree only refers to
/// nodes the surface has handed out.
pub open spec fn bounded(t: VNode, n: int) -> bool
    decreases t,
{
    match t {
        VNode::Text { text, handle } => (handle matches Some(h) ==> h < n),
        VNode::Elem(e) => (e.handle matches Some(h) ==> h < n) && match e.children {
            Children::NonKeyed(v) => all_bounded(v@, n),
            Children::Keyed(v) => all_bounded_keyed(v@, n),
        },
        VNode::List { items, handle } => (handle matches Some(h) ==> h < n) && all_bounded(
            items@,
            n,
        ),
        VNode::Lazy(l) => match l.vnode {
            Some(b) => bounded(*b, n),
            None => true,
        },
    }
}

pub open spec fn all_bounded(s: Seq<VNode>, n: int) -> bool
    decreases s,
{
    forall|i: int| 0 <= i < s.len() ==> bounded(#[trigger] s[i], n)
}

pub open spec fn all_bounded_keyed(s: Seq<(String, VNode)>, n: int) -> bool
    decreases s,
{
    forall|i: int| 0 <= i < s.len() ==> bounded((#[trigger] s[i]).1, n)
}

/// True when every handle in the tree is at or above `n`: the whole tree was
/// materialized by allocations made after the surface had `n` nodes.
pub open spec fn handles_from(t: VNode, n: int) -> bool
    decreases t,
{
    match t {
        VNode::Text { text, handle } => (handle matches Some(h) ==> h >= n),
        VNode::Elem(e) => (e.handle matches Some(h) ==> h >= n) && match e.children {
            Children::NonKeyed(v) => all_handles_from(v@, n),
            Children::Keyed(v) => all_handles_from_keyed(v@, n),
        },
        VNode::List { items, handle } => (handle matches Some(h) ==> h >= n)
            && all_handles_from(items@, n),
        VNode::Lazy(l) => match l.vnode {
            Some(b) => handles_from(*b, n),
            None => true,
        },
    }
}

pub open spec fn all_handles_from(s: Seq<VNode>, n: int) -> bool
    decreases s,
{
    forall|i: int| 0 <= i < s.len() ==> handles_from(#[trigger] s[i], n)
}

pub open spec fn all_handles_from_keyed(s: Seq<(String, VNode)>, n: int) -> bool
    decreases s,
{
    forall|i: int| 0 <= i < s.len() ==> handles_from((#[trigger] s[i]).1, n)
}

/// A tree bounded by `a` is bounded by any larger arena.
pub proof fn lemma_bounded_weaken(t: VNode, a: int, b: int)
    requires
        bounded(t, a),
        a <= b,
    ensures
        bounded(t, b),
    decreases t,
{
    match t {
        VNode::Text { text, handle } => {
            assert((handle matches Some(h) ==> h < a));
            assert((handle matches Some(h) ==> h < b));
            assert(bounded(t, b));
        }
        VNode::Elem(e) => {
            match e.children {
                Children::NonKeyed(v) => {
                    assert(all_bounded(v@, a));
                    assert forall|i: int| 0 <= i < v@.len() implies bounded(#[trigger] v@[i], b) by {
                        lemma_bounded_weaken(v@[i], a, b);
                    }
                    assert(all_bounded(v@, b));
                }
                Children::Keyed(v) => {
                    assert(all_bounded_keyed(v@, a));
                    assert forall|i: int| 0 <= i < v@.len() implies bounded(
                        (#[trigger] v@[i]).1,
                        b,
                    ) by {
                        lemma_bounded_weaken(v@[i].1, a, b);
                    }
                    assert(all_bounded_keyed(v@, b));
                }
            }
            assert(bounded(t, b));
        }
        VNode::List { items, handle } => {
            assert(all_bounded(items@, a));
            assert forall|i: int| 0 <= i < items@.len() implies bounded(
                #[trigger] items@[i],
                b,
            ) by {
                lemma_bounded_weaken(items@[i], a, b);
            }
            assert(all_bounded(items@, b));
            assert(bounded(t, b));
        }
        VNode::Lazy(l) => {
            match l.vnode {
                Some(bx) => {
                    lemma_bounded_weaken(*bx, a, b);
                }
                None => {}
            }
            assert(bounded(t, b));
        }
    }
}

/// A tree whose handles start at `a` also has them starting at any lower
/// mark.
pub proof fn lemma_handles_from_weaken(t: VNode, a: int, b: int)
    requires
        handles_from(t, a),
        b <= a,
    ensures
        handles_from(t, b),
    decreases t,
{
    match t {
        VNode::Text { text, handle } => {}
        VNode::Elem(e) => {
            match e.children {
                Children::NonKeyed(v) => {
                    assert(all_handles_from(v@, a));
                    assert forall|i: int| 0 <= i < v@.len() implies handles_from(
                        #[trigger] v@[i],
                        b,
                    ) by {
                        lemma_handles_from_weaken(v@[i], a, b);
                    }
                    assert(all_handles_from(v@, b));
                }
                Children::Keyed(v) => {
                    assert(all_handles_from_keyed(v@, a));
                    assert forall|i: int| 0 <= i < v@.len() implies handles_from(
                        (#[trigger] v@[i]).1,
                        b,
                    ) by {
                        lemma_handles_from_weaken(v@[i].1, a, b);
                    }
                    assert(all_handles_from_keyed(v@, b));
                }
            }
            assert(handles_from(t, b));
        }
        VNode::List { items, handle } => {
            assert(all_handles_from(items@, a));
            assert forall|i: int| 0 <= i < items@.len() implies handles_from(
                #[trigger] items@[i],
                b,
            ) by {
                lemma_handles_from_weaken(items@[i], a, b);
            }
            assert(all_handles_from(items@, b));
            assert(handles_from(t, b));
        }
        VNode::Lazy(l) => {
            match l.vnode {
                Some(bx) => {
                    lemma_handles_from_weaken(*bx, a, b);
                }
                None => {}
            }
            assert(handles_from(t, b));
        }
    }
}

/// True when `j` is one of the tree's handles, a cached rendering's
/// included.
pub open spec fn tree_has_handle(t: VNode, j: int) -> bool
    decreases t,
{
    match t {
        VNode::Text { text, handle } => (handle matches Some(h) && h == j),
        VNode::Elem(e) => (e.handle matches Some(h) && h == j) || match e.children {
            Children::NonKeyed(v) => exists|i: int|
                0 <= i < v@.len() && tree_has_handle(#[trigger] v@[i], j),
            Children::Keyed(v) => exists|i: int|
                0 <= i < v@.len() && tree_has_handle((#[trigger] v@[i]).1, j),
        },
        VNode::List { items, handle } => (handle matches Some(h) && h == j) || exists|i: int|
            0 <= i < items@.len() && tree_has_handle(#[trigger] items@[i], j),
        VNode::Lazy(l) => match l.vnode {
            Some(b) => tree_has_handle(*b, j),
            None => false,
        },
    }
}

/// A handle of a bounded tree lies below the bound.
pub proof fn lemma_tree_has_handle_bounded(t: VNode, j: int, n: int)
    requires
        tree_has_handle(t, j),
        bounded(t, n),
    ensures
        j < n,
    decreases t,
{
    match t {
        VNode::Text { text, handle } => {}
        VNode::Elem(e) => {
            if !(e.handle matches Some(h) && h == j) {
                match e.children {
                    Children::NonKeyed(v) => {
                        assert(all_bounded(v@, n));
                        let w = choose|i: int|
                            0 <= i < v@.len() && tree_has_handle(#[trigger] v@[i], j);
                        assert(bounded(v@[w], n));
                        lemma_tree_has_handle_bounded(v@[w], j, n);
                    }
                    Children::Keyed(v) => {
                        assert(all_bounded_keyed(v@, n));
                        let w = choose|i: int|
                            0 <= i < v@.len() && tree_has_handle((#[trigger] v@[i]).1, j);
                        assert(bounded(v@[w].1, n));
                        lemma_tree_has_handle_bounded(v@[w].1, j, n);
                    }
                }
            }
        }
        VNode::List { items, handle } => {
            if !(handle matches Some(h) && h == j) {
                assert(all_bounded(items@, n));
                let w = choose|i: int|
                    0 <= i < items@.len() && tree_has_handle(#[trigger] items@[i], j);
                assert(bounded(items@[w], n));
                lemma_tree_has_handle_bounded(items@[w], j, n);
            }
        }
        VNode::Lazy(l) => {
            match l.vnode {
                Some(b) => {
                    lemma_tree_has_handle_bounded(*b, j, n);
                }
                None => {}
            }
        }
    }
}

/// True of a tree with no deferred subtree anywhere: reconciling it never
/// invokes a render thunk, so it never spends render budget.
pub open spec fn lazy_free(n: VNode) -> bool
    decreases n,
{
    match n {
        VNode::Text { text, handle } => true,
        VNode::Elem(e) => match e.children {
            Children::NonKeyed(v) => all_lazy_free(v@),
            Children::Keyed(v) => all_lazy_free_keyed(v@),
        },
        VNode::List { items, handle } => all_lazy_free(items@),
        VNode::Lazy(l) => false,
    }
}

pub open spec fn all_lazy_free(s: Seq<VNode>) -> bool
    decreases s,
{
    forall|i: int| 0 <= i < s.len() ==> lazy_free(#[trigger] s[i])
}

pub open spec fn all_lazy_free_keyed(s: Seq<(String, VNode)>) -> bool
    decreases s,
{
    forall|i: int| 0 <= i < s.len() ==> lazy_free((#[trigger] s[i]).1)
}

/// The keys of a keyed child list.
pub open spec fn keys_of(s: Seq<(String, VNode)>) -> Seq<Seq<char>> {
    Seq::new(s.len(), |i: int| s[i].0@)
}

/// True when no key occurs twice.
pub open spec fn unique_keys(ks: Seq<Seq<char>>) -> bool {
    forall|i: int, j: int| 0 <= i < j < ks.len() ==> ks[i] != ks[j]
}

/// The handles of the roots of a keyed child list.
pub open spec fn roots_of_keyed(s: Seq<(String, VNode)>) -> Seq<usize> {
    Seq::new(s.len(), |i: int| root_of(s[i].1))
}

/// True when no two entries share a root handle.
pub open spec fn distinct_handles(hs: Seq<usize>) -> bool {
    forall|i: int, j: int| 0 <= i < j < hs.len() ==> hs[i] != hs[j]
}

/// The attribute names of an element, in order.
pub open spec fn attr_name_seq(s: Seq<Attribute>) -> Seq<Seq<char>> {
    Seq::new(s.len(), |i: int| s[i].name@)
}

/// The event names an element listens for, in order.
pub open spec fn listener_event_seq(s: Seq<Listener>) -> Seq<Seq<char>> {
    Seq::new(s.len(), |i: int| s[i].event@)
}

/// A well-kept tree: within every element the attribute names and the
/// listened-for events are unique, and within every keyed child set the
/// keys are unique and the materialized roots are distinct live nodes of
/// their own.  All are invariants of trees a well-behaved builder produces;
/// a caller that repeats a key or a name has left the well-kept world and
/// gets the first-match policy with no further promises.
pub open spec fn sane(n: VNode) -> bool
    decreases n,
{
    match n {
        VNode::Text { text, handle } => true,
        VNode::Elem(e) => unique_keys(attr_name_seq(e.attributes@)) && unique_keys(
            listener_event_seq(e.listeners@),
        ) && match e.children {
            Children::NonKeyed(v) => all_sane(v@),
            Children::Keyed(v) => unique_keys(keys_of(v@)) && distinct_handles(roots_of_keyed(v@))
                && all_sane_keyed(v@),
        },
        VNode::List { items, handle } => all_sane(items@),
        VNode::Lazy(l) => match l.vnode {
            Some(b) => sane(*b),
            None => true,
        },
    }
}

pub open spec fn all_sane(s: Seq<VNode>) -> bool
    decreases s,
{
    forall|i: int| 0 <= i < s.len() ==> sane(#[trigger] s[i])
}

pub open spec fn all_sane_keyed(s: Seq<(String, VNode)>) -> bool
    decreases s,
{
    forall|i: int| 0 <= i < s.len() ==> sane((#[trigger] s[i]).1)
}

/// The index of the first entry with key `k`, or -1 when no entry has it.
pub open spec fn key_index(s: Seq<(String, VNode)>, k: Seq<char>) -> int
    decreases s,
{
    if s.len() == 0 {
        -1
    } else if s[0].0@ == k {
        0
    } else if key_index(s.drop_first(), k) < 0 {
        -1
    } else {
        1 + key_index(s.drop_first(), k)
    }
}

/// What `key_index` finds: the first match, or no match at all.
pub proof fn lemma_key_index(s: Seq<(String, VNode)>, k: Seq<char>)
    ensures
        key_index(s, k) >= 0 ==> key_index(s, k) < s.len() && s[key_index(s, k)].0@ == k
            && forall|q: int| 0 <= q < key_index(s, k) ==> (#[trigger] s[q]).0@ != k,
        key_index(s, k) < 0 ==> forall|q: int| 0 <= q < s.len() ==> (#[trigger] s[q]).0@ != k,
    decreases s,
{
    if s.len() > 0 {
        lemma_key_index(s.drop_first(), k);
        assert forall|q: int| 1 <= q < s.len() implies s.drop_first()[q - 1] == (
        #[trigger] s[q]) by {}
    }
}

/// A materialized tree has a root handle.
pub proof fn lemma_materialized_root(n: VNode)
    requires
        materialized(n),
    ensures
        root_handle(n) is Some,
    decreases n,
{
    match n {
        VNode::Lazy(l) => {
            match l.vnode {
                Some(b) => {
                    lemma_materialized_root(*b);
                }
                None => {}
            }
        }
        _ => {}
    }
}

/// A materialized, bounded tree has its root below the arena bound.
pub proof fn lemma_root_bounded(n: VNode, len: int)
    requires
        materialized(n),
        bounded(n, len),
    ensures
        root_handle(n) is Some,
        root_of(n) < len,
    decreases n,
{
    match n {
        VNode::Lazy(l) => {
            match l.vnode {
                Some(b) => {
                    lemma_root_bounded(*b, len);
                }
                None => {}
            }
        }
        _ => {}
    }
}

/// Shallow agreement of two trees: the same node kind, and for elements the
/// same namespace and tag.  Reconciliation reuses the old rendered node
/// exactly when the kinds match; on a mismatch it replaces wholesale.
pub open spec fn kinds_match(a: VTree, b: VTree) -> bool {
    match (a, b) {
        (VTree::Text(ta), VTree::Text(tb)) => true,
        (
            VTree::Elem { ns: na, tag: ta, attrs: aa, listeners: la, children: ca },
            VTree::Elem { ns: nb, tag: tb, attrs: ab, listeners: lb, children: cb },
        ) => na == nb && ta == tb,
        (VTree::List(la), VTree::List(lb)) => true,
        (VTree::Lazy { hash: ha, thunk: tha, maps: ma }, VTree::Lazy { hash: hb, thunk: thb, maps: mb }) => true,
        _ => false,
    }
}

impl VNode {
    /// The live handle this tree stands for, if it has been materialized.
    pub fn node(&self) -> (r: Option<usize>)
        ensures
            r == root_handle(*self),
        decreases *self,
    {
        match self {
            VNode::Text { text, handle } => *handle,
            VNode::Elem(e) => e.handle,
            VNode::List { items, handle } => *handle,
            VNode::Lazy(l) => l.node(),
        }
    }
}

/// The number of nodes in a tree, cached renderings included: the measure
/// by which the recursive passes terminate.
pub open spec fn size(n: VNode) -> nat
    decreases n,
{
    match n {
        VNode::Text { text, handle } => 1,
        VNode::Elem(e) => 1 + match e.children {
            Children::NonKeyed(v) => sizes(v@),
            Children::Keyed(v) => sizes_keyed(v@),
        },
        VNode::List { items, handle } => 1 + sizes(items@),
        VNode::Lazy(l) => 1 + lazy_size(l),
    }
}

/// The size of a memoization wrapper: one for the wrapper itself plus the
/// cached rendering, if any.
pub open spec fn lazy_size(l: Lazy) -> nat
    decreases l,
{
    match l.vnode {
        Some(b) => 1 + size(*b),
        None => 1,
    }
}

pub open spec fn sizes(s: Seq<VNode>) -> nat
    decreases s,
{
    if s.len() == 0 {
        0
    } else {
        size(s[0]) + sizes(s.drop_first())
    }
}

pub open spec fn sizes_keyed(s: Seq<(String, VNode)>) -> nat
    decreases s,
{
    if s.len() == 0 {
        0
    } else {
        size(s[0].1) + sizes_keyed(s.drop_first())
    }
}

/// No element of a child list outweighs the whole list.
pub proof fn lemma_sizes_ge(s: Seq<VNode>, i: int)
    requires
        0 <= i < s.len(),
    ensures
        sizes(s) >= size(s[i]),
    decreases s,
{
    if i > 0 {
        lemma_sizes_ge(s.drop_first(), i - 1);
    }
}

/// No element of a keyed child list outweighs the whole list.
pub proof fn lemma_sizes_keyed_ge(s: Seq<(String, VNode)>, i: int)
    requires
        0 <= i < s.len(),
    ensures
        sizes_keyed(s) >= size(s[i].1),
    decreases s,
{
    if i > 0 {
        lemma_sizes_keyed_ge(s.drop_first(), i - 1);
    }
}

/// The cache key after the transforms in `ms` have been mixed in, one at a
/// time and in order, with the pair hash.
pub open spec fn chain_hash(h: u64, ms: Seq<u64>) -> u64
    decreases ms.len(),
{
    if ms.len() == 0 {
        h
    } else {
        chain_hash(fx_pair(h, ms[0]), ms.drop_first())
    }
}

/// The view of a tree after the message transforms in `ms` have been
/// appended, in order, to every event producer's transform chain.  The tree
/// is otherwise untouched: same kinds, keys, tags and attributes.  On a
/// deferred subtree the transforms join the pending chain and each is mixed
/// into the cache key, so that a different transform chain is a different
/// cache entry.
pub open spec fn tree_map_chain(t: VTree, ms: Seq<u64>) -> VTree
    decreases t,
{
    match t {
        VTree::Text(s) => VTree::Text(s),
        VTree::Elem { ns, tag, attrs, listeners, children } => VTree::Elem {
            ns,
            tag,
            attrs,
            listeners: Seq::new(
                listeners.len(),
                |i: int| (LView {
                    event: listeners[i].event,
                    producer: listeners[i].producer,
                    maps: listeners[i].maps + ms,
                }),
            ),
            children: match children {
                CView::NonKeyed(cs) => CView::NonKeyed(seq_map_chain(cs, ms)),
                CView::Keyed(ks) => CView::Keyed(keyed_map_chain(ks, ms)),
            },
        },
        VTree::List(cs) => VTree::List(seq_map_chain(cs, ms)),
        VTree::Lazy { hash, thunk, maps } => VTree::Lazy {
            hash: chain_hash(hash, ms),
            thunk,
            maps: maps + ms,
        },
    }
}

pub open spec fn seq_map_chain(s: Seq<VTree>, ms: Seq<u64>) -> Seq<VTree>
    decreases s,
{
    if s.len() == 0 {
        Seq::empty()
    } else {
        seq![tree_map_chain(s[0], ms)] + seq_map_chain(s.drop_first(), ms)
    }
}

/// `seq_map_chain` is the elementwise transform.
pub proof fn lemma_seq_map_chain(s: Seq<VTree>, ms: Seq<u64>)
    ensures
        seq_map_chain(s, ms).len() == s.len(),
        forall|i: int| 0 <= i < s.len() ==> seq_map_chain(s, ms)[i] == tree_map_chain(s[i], ms),
    decreases s,
{
    if s.len() > 0 {
        lemma_seq_map_chain(s.drop_first(), ms);
    }
}

pub open spec fn keyed_map_chain(s: Seq<(Seq<char>, VTree)>, ms: Seq<u64>) -> Seq<(Seq<char>, VTree)>
    decreases s,
{
    if s.len() == 0 {
        Seq::empty()
    } else {
        seq![(s[0].0, tree_map_chain(s[0].1, ms))] + keyed_map_chain(s.drop_first(), ms)
    }
}

/// `keyed_map_chain` is the elementwise transform.
pub proof fn lemma_keyed_map_chain(s: Seq<(Seq<char>, VTree)>, ms: Seq<u64>)
    ensures
        keyed_map_chain(s, ms).len() == s.len(),
        forall|i: int| 0 <= i < s.len() ==> keyed_map_chain(s, ms)[i] == (
            s[i].0,
            tree_map_chain(s[i].1, ms),
        ),
    decreases s,
{
    if s.len() > 0 {
        lemma_keyed_map_chain(s.drop_first(), ms);
    }
}

/// The view of a tree one transform was appended to.
pub open spec fn tree_map(t: VTree, m: u64) -> VTree {
    tree_map_chain(t, seq![m])
}

proof fn lemma_chain_hash_concat(h: u64, xs: Seq<u64>, ys: Seq<u64>)
    ensures
        chain_hash(chain_hash(h, xs), ys) == chain_hash(h, xs + ys),
    decreases xs.len(),
{
    if xs.len() == 0 {
        assert(xs + ys =~= ys);
    } else {
        lemma_chain_hash_concat(fx_pair(h, xs[0]), xs.drop_first(), ys);
        assert(xs.drop_first() + ys =~= (xs + ys).drop_first());
        assert((xs + ys)[0] == xs[0]);
    }
}

/// The empty transform chain changes nothing.
pub proof fn lemma_tree_map_chain_empty(t: VTree)
    ensures
        tree_map_chain(t, Seq::<u64>::empty()) == t,
    decreases t,
{
    let ms = Seq::<u64>::empty();
    match t {
        VTree::Text(s) => {}
        VTree::Elem { ns, tag, attrs, listeners, children } => {
            match children {
                CView::NonKeyed(cs) => {
                    lemma_seq_map_chain_empty(cs);
                }
                CView::Keyed(ks) => {
                    lemma_keyed_map_chain_empty(ks);
                }
            }
            assert forall|i: int| 0 <= i < listeners.len() implies listeners[i].maps + ms
                == listeners[i].maps by {
                assert(listeners[i].maps + ms =~= listeners[i].maps);
            }
            assert(tree_map_chain(t, ms) =~= t);
        }
        VTree::List(cs) => {
            lemma_seq_map_chain_empty(cs);
            assert(tree_map_chain(t, ms) =~= t);
        }
        VTree::Lazy { hash, thunk, maps } => {
            assert(maps + ms =~= maps);
            assert(tree_map_chain(t, ms) =~= t);
        }
    }
}

proof fn lemma_seq_map_chain_empty(s: Seq<VTree>)
    ensures
        seq_map_chain(s, Seq::<u64>::empty()) == s,
    decreases s,
{
    if s.len() > 0 {
        lemma_tree_map_chain_empty(s[0]);
        lemma_seq_map_chain_empty(s.drop_first());
        assert(seq_map_chain(s, Seq::<u64>::empty()) =~= s);
    } else {
        assert(seq_map_chain(s, Seq::<u64>::empty()) =~= s);
    }
}

proof fn lemma_keyed_map_chain_empty(s: Seq<(Seq<char>, VTree)>)
    ensures
        keyed_map_chain(s, Seq::<u64>::empty()) == s,
    decreases s,
{
    if s.len() > 0 {
        lemma_tree_map_chain_empty(s[0].1);
        lemma_keyed_map_chain_empty(s.drop_first());
        assert(keyed_map_chain(s, Seq::<u64>::empty()) =~= s);
    } else {
        assert(keyed_map_chain(s, Seq::<u64>::empty()) =~= s);
    }
}

/// The functor law for the message transform: appending the transforms of
/// `xs` and then those of `ys` is the same transformation of a tree as
/// appending the transforms of `xs + ys` in one pass.  In particular,
/// mapping by one transform and then by another equals mapping once by the
/// two-transform chain, so the delivered message of any event — the fold of
/// the chain over the produced message — is the same either way.
pub proof fn lemma_do_map_compose(t: VTree, xs: Seq<u64>, ys: Seq<u64>)
    ensures
        tree_map_chain(tree_map_chain(t, xs), ys) == tree_map_chain(t, xs + ys),
    decreases t,
{
    match t {
        VTree::Text(s) => {}
        VTree::Elem { ns, tag, attrs, listeners, children } => {
            match children {
                CView::NonKeyed(cs) => {
                    lemma_seq_map_compose(cs, xs, ys);
                }
                CView::Keyed(ks) => {
                    lemma_keyed_map_compose(ks, xs, ys);
                }
            }
            assert forall|i: int| 0 <= i < listeners.len() implies (listeners[i].maps + xs) + ys
                == listeners[i].maps + (xs + ys) by {
                assert((listeners[i].maps + xs) + ys =~= listeners[i].maps + (xs + ys));
            }
            assert(tree_map_chain(tree_map_chain(t, xs), ys) =~= tree_map_chain(t, xs + ys));
        }
        VTree::List(cs) => {
            lemma_seq_map_compose(cs, xs, ys);
            assert(tree_map_chain(tree_map_chain(t, xs), ys) =~= tree_map_chain(t, xs + ys));
        }
        VTree::Lazy { hash, thunk, maps } => {
            lemma_chain_hash_concat(hash, xs, ys);
            assert(maps + xs + ys =~= maps + (xs + ys));
            assert(tree_map_chain(tree_map_chain(t, xs), ys) =~= tree_map_chain(t, xs + ys));
        }
    }
}

proof fn lemma_seq_map_compose(s: Seq<VTree>, xs: Seq<u64>, ys: Seq<u64>)
    ensures
        seq_map_chain(seq_map_chain(s, xs), ys) == seq_map_chain(s, xs + ys),
    decreases s,
{
    if s.len() > 0 {
        lemma_do_map_compose(s[0], xs, ys);
        lemma_seq_map_compose(s.drop_first(), xs, ys);
        assert(seq_map_chain(s, xs).drop_first() =~= seq_map_chain(s.drop_first(), xs));
        assert(seq_map_chain(seq_map_chain(s, xs), ys) =~= seq_map_chain(s, xs + ys));
    }
}

proof fn lemma_keyed_map_compose(s: Seq<(Seq<char>, VTree)>, xs: Seq<u64>, ys: Seq<u64>)
    ensures
        keyed_map_chain(keyed_map_chain(s, xs), ys) == keyed_map_chain(s, xs + ys),
    decreases s,
{
    if s.len() > 0 {
        lemma_do_map_compose(s[0].1, xs, ys);
        lemma_keyed_map_compose(s.drop_first(), xs, ys);
        assert(keyed_map_chain(s, xs).drop_first() =~= keyed_map_chain(s.drop_first(), xs));
        assert(keyed_map_chain(keyed_map_chain(s, xs), ys) =~= keyed_map_chain(s, xs + ys));
    }
}

impl VNode {
    /// Appends transform `m` to every event producer in the tree and mixes
    /// it into every deferred subtree's cache key.  The structure — kinds,
    /// tags, attributes, keys — is untouched, and composing two such passes
    /// equals one pass with the two-transform chain
    /// (`lemma_do_map_compose`).
    pub fn do_map(self, m: u64) -> (r: VNode)
        ensures
            r@ == tree_map(self@, m),
            root_handle(r) == root_handle(self),
        decreases size(self),
    {
        proof {
            assert(seq![m].drop_first() =~= Seq::<u64>::empty());
        }
        match self {
            VNode::Text { text, handle } => VNode::Text { text, handle },
            VNode::Elem(e) => {
                let Element { ns, tag, attributes, listeners, children, handle } = e;
                let ghost ls0 = listeners@;
                let mut ls = listeners;
                let mut ls2: Vec<Listener> = Vec::new();
                while ls.len() > 0
                    invariant
                        ls2@.len() + ls@.len() == ls0.len(),
                        ls@ == ls0.subrange(ls2@.len() as int, ls0.len() as int),
                        forall|i: int| 0 <= i < ls2@.len() ==> (#[trigger] ls2@[i]).event@
                            == ls0[i].event@ && ls2@[i].producer == ls0[i].producer
                            && ls2@[i].maps@ == ls0[i].maps@ + seq![m],
                    decreases ls@.len(),
                {
                    let ghost k = ls2@.len() as int;
                    let mut l = ls.remove(0);
                    proof {
                        assert(ls0.subrange(k, ls0.len() as int)[0] == ls0[k]);
                        assert(ls@ =~= ls0.subrange(k + 1, ls0.len() as int));
                        assert(ls0[k].maps@.push(m) =~= ls0[k].maps@ + seq![m]);
                    }
                    l.maps.push(m);
                    ls2.push(l);
                }
                let children2 = match children {
                    Children::NonKeyed(v) => {
                        let ghost v0 = v@;
                        let mut rest = v;
                        let mut out: Vec<VNode> = Vec::new();
                        while rest.len() > 0
                            invariant
                                out@.len() + rest@.len() == v0.len(),
                                rest@ == v0.subrange(out@.len() as int, v0.len() as int),
                                forall|i: int| 0 <= i < out@.len() ==> vtree(
                                    #[trigger] out@[i],
                                ) == tree_map_chain(vtree(v0[i]), seq![m]),
                                size(self) == 1 + sizes(v0),
                            decreases rest@.len(),
                        {
                            let ghost k = out@.len() as int;
                            let c = rest.remove(0);
                            proof {
                                assert(v0.subrange(k, v0.len() as int)[0] == v0[k]);
                                assert(rest@ =~= v0.subrange(k + 1, v0.len() as int));
                                lemma_sizes_ge(v0, k);
                            }
                            let mc = c.do_map(m);
                            out.push(mc);
                        }
                        proof {
                            lemma_vtrees(out@);
                            lemma_vtrees(v0);
                            lemma_seq_map_chain(vtrees(v0), seq![m]);
                            assert(vtrees(out@) =~= seq_map_chain(vtrees(v0), seq![m]));
                        }
                        Children::NonKeyed(out)
                    }
                    Children::Keyed(v) => {
                        let ghost v0 = v@;
                        let mut rest = v;
                        let mut out: Vec<(String, VNode)> = Vec::new();
                        while rest.len() > 0
                            invariant
                                out@.len() + rest@.len() == v0.len(),
                                rest@ == v0.subrange(out@.len() as int, v0.len() as int),
                                forall|i: int| 0 <= i < out@.len() ==> (#[trigger] out@[i]).0@
                                    == v0[i].0@ && vtree(out@[i].1) == tree_map_chain(
                                    vtree(v0[i].1),
                                    seq![m],
                                ),
                                size(self) == 1 + sizes_keyed(v0),
                            decreases rest@.len(),
                        {
                            let ghost k = out@.len() as int;
                            let (key, c) = rest.remove(0);
                            proof {
                                assert(v0.subrange(k, v0.len() as int)[0] == v0[k]);
                                assert(rest@ =~= v0.subrange(k + 1, v0.len() as int));
                                lemma_sizes_keyed_ge(v0, k);
                            }
                            let mc = c.do_map(m);
                            out.push((key, mc));
                        }
                        proof {
                            lemma_keyed_views(out@);
                            lemma_keyed_views(v0);
                            lemma_keyed_map_chain(keyed_views(v0), seq![m]);
                            assert(keyed_views(out@) =~= keyed_map_chain(keyed_views(v0), seq![m]));
                        }
                        Children::Keyed(out)
                    }
                };
                let r = VNode::Elem(
                    Element { ns, tag, attributes, listeners: ls2, children: children2, handle },
                );
                proof {
                    assert(listener_views(ls2@) =~= Seq::new(
                        listener_views(ls0).len(),
                        |i: int| (LView {
                            event: listener_views(ls0)[i].event,
                            producer: listener_views(ls0)[i].producer,
                            maps: listener_views(ls0)[i].maps + seq![m],
                        }),
                    ));
                    assert(r@ =~= tree_map(self@, m));
                }
                r
            }
            VNode::List { items, handle } => {
                let ghost v0 = items@;
                let mut rest = items;
                let mut out: Vec<VNode> = Vec::new();
                while rest.len() > 0
                    invariant
                        out@.len() + rest@.len() == v0.len(),
                        rest@ == v0.subrange(out@.len() as int, v0.len() as int),
                        forall|i: int| 0 <= i < out@.len() ==> vtree(#[trigger] out@[i])
                            == tree_map_chain(vtree(v0[i]), seq![m]),
                        size(self) == 1 + sizes(v0),
                    decreases rest@.len(),
                {
                    let ghost k = out@.len() as int;
                    let c = rest.remove(0);
                    proof {
                        assert(v0.subrange(k, v0.len() as int)[0] == v0[k]);
                        assert(rest@ =~= v0.subrange(k + 1, v0.len() as int));
                        lemma_sizes_ge(v0, k);
                    }
                    let mc = c.do_map(m);
                    out.push(mc);
                }
                let r = VNode::List { items: out, handle };
                proof {
                    lemma_vtrees(r->List_items@);
                    lemma_vtrees(v0);
                    lemma_seq_map_chain(vtrees(v0), seq![m]);
                    assert(vtrees(r->List_items@) =~= seq_map_chain(vtrees(v0), seq![m]));
                    assert(r@ =~= tree_map(self@, m));
                }
                r
            }
            VNode::Lazy(l) => VNode::Lazy(l.do_map(m)),
        }
    }

    /// Applies a whole transform chain, front to back.  One pass per
    /// transform; by the composition law the result is the single-pass
    /// transform by the chain.
    pub fn do_map_chain(self, ms: &Vec<u64>) -> (r: VNode)
        ensures
            r@ == tree_map_chain(self@, ms@),
            root_handle(r) == root_handle(self),
    {
        let ghost t0 = self@;
        proof {
            lemma_tree_map_chain_empty(t0);
            assert(ms@.take(0) =~= Seq::<u64>::empty());
        }
        let mut t = self;
        let mut i: usize = 0;
        while i < ms.len()
            invariant
                i <= ms@.len(),
                t@ == tree_map_chain(t0, ms@.take(i as int)),
                root_handle(t) == root_handle(self),
            decreases ms@.len() - i,
        {
            let m = ms[i];
            t = t.do_map(m);
            proof {
                lemma_do_map_compose(t0, ms@.take(i as int), seq![m]);
                assert(ms@.take(i as int) + seq![m] =~= ms@.take(i as int + 1));
            }
            i += 1;
        }
        proof {
            assert(ms@.take(ms@.len() as int) =~= ms@);
        }
        t
    }
}

} // verus!

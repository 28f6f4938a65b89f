//! The reconciliation engine: materializing a virgin tree (`create`),
//! moving the surface from an old tree's shape to a new one's (`patch`),
//! and tearing a subtree down (`destroy`).
//!
//! Reconciliation is driven by the virtual trees alone: the retained old
//! tree is the authority on what the surface currently shows, so the
//! reconciler never queries the surface — it only instructs it.  Deferred
//! subtrees are rendered through the host's [`Renderer`]; `fuel` bounds how
//! deeply deferred renderings may nest before the pass gives up, since the
//! core cannot know what a host thunk will return.

use vstd::prelude::*;
use crate::lazy::{Lazy, Renderer};
use crate::surface::{Op, Surface};
use crate::vnode::{
    all_bounded, all_bounded_keyed, all_handles_from, all_handles_from_keyed, all_lazy_free,
    all_lazy_free_keyed, all_materialized, all_materialized_keyed, all_sane, all_sane_keyed,
    attr_name_seq, attr_views, bounded, distinct_handles, handles_from, keyed_views, keys_of,
    key_index, kinds_match, lazy_free, lazy_size, lemma_bounded_weaken,
    lemma_handles_from_weaken, lemma_key_index, lemma_keyed_views, lemma_materialized_root,
    lemma_sizes_ge, lemma_sizes_keyed_ge, lemma_vtrees, listener_event_seq,
    lemma_tree_has_handle_bounded, listener_views, materialized, root_handle, root_of,
    roots_of_keyed, sane, size, sizes, tree_has_handle, LView,
    sizes_keyed, unique_keys, vtree, vtrees, Attribute, Children, Element, Listener, Namespace,
    VNode, VTree,
};

verus! {

/// Why a reconciliation pass failed.  The surface itself is infallible;
/// the only failure is a chain of deferred renderings nested more deeply
/// than the render budget allows.
#[derive(Clone, Copy, PartialEq, Eq, Structural, Debug)]
pub enum PatchError {
    DepthExceeded,
}

/// The second surface continues the first: the mutation log has only been
/// appended to, handles have only been added, and no destroyed node has
/// come back to life.
pub open spec fn appended(s0: Surface, s1: Surface) -> bool {
    &&& s0.ops().is_prefix_of(s1.ops())
    &&& s0.nodes@.len() <= s1.nodes@.len()
    &&& forall|j: int| 0 <= j < s0.nodes@.len() && !s0.nodes@[j] ==> !s1.nodes@[j]
}

/// The second surface is the first with nothing but fresh allocations: no
/// existing node changed state.
pub open spec fn preserves_existing(s0: Surface, s1: Surface) -> bool {
    forall|j: int| 0 <= j < s0.nodes@.len() ==> s1.nodes@[j] == s0.nodes@[j]
}

/// Between the two surface states, every node that died is a handle of
/// `t`: destruction never reaches outside the tree it was asked for.
pub open spec fn kills_within(s0: Surface, s1: Surface, t: VNode) -> bool {
    forall|j: int|
        0 <= j < s0.nodes@.len() && s0.nodes@[j] && !(#[trigger] s1.nodes@[j])
            ==> tree_has_handle(t, j)
}

/// As `kills_within`, for a child list: every node that died is a handle
/// of one of the listed children.
pub open spec fn kills_within_seq(s0: Surface, s1: Surface, items: Seq<VNode>) -> bool {
    forall|j: int|
        0 <= j < s0.nodes@.len() && s0.nodes@[j] && !(#[trigger] s1.nodes@[j]) ==> exists|i: int|
            0 <= i < items.len() && tree_has_handle(#[trigger] items[i], j)
}

/// As `kills_within`, for a keyed child list.
pub open spec fn kills_within_keyed(s0: Surface, s1: Surface, items: Seq<(String, VNode)>) -> bool {
    forall|j: int|
        0 <= j < s0.nodes@.len() && s0.nodes@[j] && !(#[trigger] s1.nodes@[j]) ==> exists|i: int|
            0 <= i < items.len() && tree_has_handle((#[trigger] items[i]).1, j)
}

/// `appended` composes.
pub proof fn lemma_appended_trans(s0: Surface, s1: Surface, s2: Surface)
    requires
        appended(s0, s1),
        appended(s1, s2),
    ensures
        appended(s0, s2),
{
    assert(s0.ops() =~= s2.ops().subrange(0, s0.ops().len() as int));
}

/// Every handle the tree holds is dead on the surface.
pub open spec fn all_dead(n: VNode, s: Surface) -> bool
    decreases n,
{
    match n {
        VNode::Text { text, handle } => !s.alive(handle->Some_0),
        VNode::Elem(e) => !s.alive(e.handle->Some_0) && match e.children {
            Children::NonKeyed(v) => forall|i: int| 0 <= i < v@.len() ==> all_dead(
                #[trigger] v@[i],
                s,
            ),
            Children::Keyed(v) => forall|i: int| 0 <= i < v@.len() ==> all_dead(
                (#[trigger] v@[i]).1,
                s,
            ),
        },
        VNode::List { items, handle } => !s.alive(handle->Some_0) && forall|i: int|
            0 <= i < items@.len() ==> all_dead(#[trigger] items@[i], s),
        VNode::Lazy(l) => match l.vnode {
            Some(b) => all_dead(*b, s),
            None => true,
        },
    }
}

/// Death is forever: once a tree's handles are all dead, they stay dead on
/// any continuation of the surface.
pub proof fn lemma_all_dead_mono(n: VNode, s0: Surface, s1: Surface)
    requires
        all_dead(n, s0),
        materialized(n),
        bounded(n, s0.nodes@.len() as int),
        appended(s0, s1),
    ensures
        all_dead(n, s1),
    decreases n,
{
    match n {
        VNode::Text { text, handle } => {}
        VNode::Elem(e) => {
            match e.children {
                Children::NonKeyed(v) => {
                    assert(all_materialized(v@));
                    assert(all_bounded(v@, s0.nodes@.len() as int));
                    assert forall|i: int| 0 <= i < v@.len() implies all_dead(
                        #[trigger] v@[i],
                        s1,
                    ) by {
                        lemma_all_dead_mono(v@[i], s0, s1);
                    }
                }
                Children::Keyed(v) => {
                    assert(all_materialized_keyed(v@));
                    assert(all_bounded_keyed(v@, s0.nodes@.len() as int));
                    assert forall|i: int| 0 <= i < v@.len() implies all_dead(
                        (#[trigger] v@[i]).1,
                        s1,
                    ) by {
                        lemma_all_dead_mono(v@[i].1, s0, s1);
                    }
                }
            }
        }
        VNode::List { items, handle } => {
            assert(all_materialized(items@));
            assert(all_bounded(items@, s0.nodes@.len() as int));
            assert forall|i: int| 0 <= i < items@.len() implies all_dead(
                #[trigger] items@[i],
                s1,
            ) by {
                lemma_all_dead_mono(items@[i], s0, s1);
            }
        }
        VNode::Lazy(l) => {
            match l.vnode {
                Some(b) => {
                    lemma_all_dead_mono(*b, s0, s1);
                }
                None => {}
            }
        }
    }
}

/// The releases destruction asks for: one per listener, in order.
pub open spec fn unregister_ops(ls: Seq<LView>, h: usize) -> Seq<Op>
    decreases ls,
{
    if ls.len() == 0 {
        Seq::empty()
    } else {
        seq![(Op::Unregister { node: h, event: ls[0].event })] + unregister_ops(
            ls.drop_first(),
            h,
        )
    }
}

proof fn lemma_unregister_ops_snoc(ls: Seq<LView>, x: LView, h: usize)
    ensures
        unregister_ops(ls.push(x), h) == unregister_ops(ls, h) + seq![
            (Op::Unregister { node: h, event: x.event }),
        ],
    decreases ls,
{
    if ls.len() == 0 {
        assert(ls.push(x)[0] == x);
        assert(ls.push(x).drop_first() =~= Seq::<LView>::empty());
        assert(unregister_ops(Seq::<LView>::empty(), h) == Seq::<Op>::empty());
        assert(unregister_ops(ls.push(x), h) =~= unregister_ops(ls, h) + seq![
            (Op::Unregister { node: h, event: x.event }),
        ]);
    } else {
        lemma_unregister_ops_snoc(ls.drop_first(), x, h);
        assert(ls.push(x)[0] == ls[0]);
        assert(ls.push(x).drop_first() =~= ls.drop_first().push(x));
        assert(unregister_ops(ls.push(x), h) =~= unregister_ops(ls, h) + seq![
            (Op::Unregister { node: h, event: x.event }),
        ]);
    }
}

/// The exact mutations destroying a tree emits: per node, its listener
/// releases, then its own destruction, then its children's, in order.  A
/// deferred subtree contributes its cached rendering's mutations.
pub open spec fn destroy_ops(n: VNode) -> Seq<Op>
    decreases n, 0int,
{
    match n {
        VNode::Text { text, handle } => seq![(Op::Destroy { node: handle->Some_0 })],
        VNode::Elem(e) => unregister_ops(listener_views(e.listeners@), e.handle->Some_0) + seq![
            (Op::Destroy { node: e.handle->Some_0 }),
        ] + match e.children {
            Children::NonKeyed(v) => destroy_ops_seq(v@),
            Children::Keyed(v) => destroy_ops_keyed(v@),
        },
        VNode::List { items, handle } => seq![(Op::Destroy { node: handle->Some_0 })]
            + destroy_ops_seq(items@),
        VNode::Lazy(l) => match l.vnode {
            Some(b) => destroy_ops(*b),
            None => Seq::empty(),
        },
    }
}

pub open spec fn destroy_ops_seq(s: Seq<VNode>) -> Seq<Op>
    decreases s, 1int,
{
    if s.len() == 0 {
        Seq::empty()
    } else {
        destroy_ops(s[0]) + destroy_ops_seq(s.drop_first())
    }
}

pub open spec fn destroy_ops_keyed(s: Seq<(String, VNode)>) -> Seq<Op>
    decreases s, 1int,
{
    if s.len() == 0 {
        Seq::empty()
    } else {
        destroy_ops(s[0].1) + destroy_ops_keyed(s.drop_first())
    }
}

proof fn lemma_destroy_ops_seq_snoc(s: Seq<VNode>, x: VNode)
    ensures
        destroy_ops_seq(s.push(x)) == destroy_ops_seq(s) + destroy_ops(x),
    decreases s,
{
    if s.len() == 0 {
        assert(s.push(x)[0] == x);
        assert(s.push(x).drop_first() =~= Seq::<VNode>::empty());
        assert(destroy_ops_seq(Seq::<VNode>::empty()) == Seq::<Op>::empty());
        assert(destroy_ops_seq(s.push(x)) =~= destroy_ops_seq(s) + destroy_ops(x));
    } else {
        lemma_destroy_ops_seq_snoc(s.drop_first(), x);
        assert(s.push(x)[0] == s[0]);
        assert(s.push(x).drop_first() =~= s.drop_first().push(x));
        assert(destroy_ops_seq(s.push(x)) =~= destroy_ops_seq(s) + destroy_ops(x));
    }
}

proof fn lemma_destroy_ops_keyed_snoc(s: Seq<(String, VNode)>, x: (String, VNode))
    ensures
        destroy_ops_keyed(s.push(x)) == destroy_ops_keyed(s) + destroy_ops(x.1),
    decreases s,
{
    if s.len() == 0 {
        assert(s.push(x)[0] == x);
        assert(s.push(x).drop_first() =~= Seq::<(String, VNode)>::empty());
        assert(destroy_ops_keyed(Seq::<(String, VNode)>::empty()) == Seq::<Op>::empty());
        assert(destroy_ops_keyed(s.push(x)) =~= destroy_ops_keyed(s) + destroy_ops(x.1));
    } else {
        lemma_destroy_ops_keyed_snoc(s.drop_first(), x);
        assert(s.push(x)[0] == s[0]);
        assert(s.push(x).drop_first() =~= s.drop_first().push(x));
        assert(destroy_ops_keyed(s.push(x)) =~= destroy_ops_keyed(s) + destroy_ops(x.1));
    }
}

/// Tears a rendered subtree down: unregisters every listener it owns, then
/// destroys every node in it, parents before children.  The emitted
/// mutations are exactly `destroy_ops`; nothing else on the surface is
/// touched.
pub fn destroy(n: &VNode, s: &mut Surface)
    requires
        materialized(*n),
        bounded(*n, old(s).nodes@.len() as int),
    ensures
        appended(*old(s), *final(s)),
        final(s).nodes@.len() == old(s).nodes@.len(),
        all_dead(*n, *final(s)),
        final(s).ops() == old(s).ops() + destroy_ops(*n),
        kills_within(*old(s), *final(s), *n),
    decreases size(*n),
{
    match n {
        VNode::Text { text, handle } => {
            let h = handle.unwrap();
            s.destroy(h);
            proof {
                assert(appended(*old(s), *s));
                assert(s.ops() =~= old(s).ops() + destroy_ops(*n));
                assert(tree_has_handle(*n, h as int));
            }
        }
        VNode::Elem(e) => {
            let h = e.handle.unwrap();
            let ghost lv = listener_views(e.listeners@);
            proof {
                assert(lv.take(0) =~= Seq::<LView>::empty());
                assert(unregister_ops(Seq::<LView>::empty(), h) == Seq::<Op>::empty());
                assert(s.ops() =~= s.ops() + unregister_ops(lv.take(0), h));
            }
            let mut i: usize = 0;
            while i < e.listeners.len()
                invariant
                    i <= e.listeners@.len(),
                    lv == listener_views(e.listeners@),
                    lv.len() == e.listeners@.len(),
                    appended(*old(s), *s),
                    s.nodes@ == old(s).nodes@,
                    s.ops() == old(s).ops() + unregister_ops(lv.take(i as int), h),
                decreases e.listeners@.len() - i,
            {
                let ghost s_pre = *s;
                s.unregister(h, &e.listeners[i].event);
                proof {
                    lemma_appended_trans(*old(s), s_pre, *s);
                    assert(lv[i as int].event == e.listeners@[i as int].event@);
                    lemma_unregister_ops_snoc(lv.take(i as int), lv[i as int], h);
                    assert(lv.take(i as int).push(lv[i as int]) =~= lv.take(i as int + 1));
                    assert(s.ops() =~= old(s).ops() + unregister_ops(lv.take(i as int + 1), h));
                }
                i += 1;
            }
            let ghost s_pre = *s;
            s.destroy(h);
            proof {
                lemma_appended_trans(*old(s), s_pre, *s);
                assert(lv.take(e.listeners@.len() as int) =~= lv);
                assert(s.ops() =~= old(s).ops() + unregister_ops(lv, h) + seq![
                    (Op::Destroy { node: h }),
                ]);
                assert(tree_has_handle(*n, h as int));
                assert(kills_within(*old(s), *s, *n));
            }
            match &e.children {
                Children::NonKeyed(v) => {
                    let ghost s_mid = *s;
                    proof {
                        assert(v@.take(0) =~= Seq::<VNode>::empty());
                        assert(destroy_ops_seq(Seq::<VNode>::empty()) == Seq::<Op>::empty());
                        assert(s.ops() =~= s_mid.ops() + destroy_ops_seq(v@.take(0)));
                    }
                    let mut i: usize = 0;
                    while i < v.len()
                        invariant
                            appended(s_mid, *s),
                            appended(*old(s), *s),
                            s.nodes@.len() == old(s).nodes@.len(),
                            !s.alive(h),
                            materialized(*n),
                            bounded(*n, old(s).nodes@.len() as int),
                            n matches VNode::Elem(e2) && e2.children matches Children::NonKeyed(
                                v2,
                            ) && v2@ == v@,
                            i <= v@.len(),
                            s.ops() == s_mid.ops() + destroy_ops_seq(v@.take(i as int)),
                            kills_within(*old(s), *s, *n),
                            forall|k: int| 0 <= k < i ==> all_dead(#[trigger] v@[k], *s),
                        decreases v@.len() - i,
                    {
                        let ghost s_pre = *s;
                        proof {
                            lemma_sizes_ge(v@, i as int);
                            assert(materialized(*n));
                            assert(all_materialized(v@));
                            assert(all_bounded(v@, old(s).nodes@.len() as int));
                            assert(materialized(v@[i as int]));
                            assert(bounded(v@[i as int], old(s).nodes@.len() as int));
                        }
                        destroy(&v[i], s);
                        proof {
                            lemma_appended_trans(s_mid, s_pre, *s);
                            lemma_appended_trans(*old(s), s_pre, *s);
                            lemma_destroy_ops_seq_snoc(v@.take(i as int), v@[i as int]);
                            assert(v@.take(i as int).push(v@[i as int]) =~= v@.take(i as int + 1));
                            assert(s.ops() =~= s_mid.ops() + destroy_ops_seq(
                                v@.take(i as int + 1),
                            ));
                            assert forall|j: int|
                                0 <= j < old(s).nodes@.len() && old(s).nodes@[j] && !(
                                #[trigger] s.nodes@[j]) implies tree_has_handle(*n, j) by {
                                if s_pre.nodes@[j] {
                                    assert(i < v@.len() && tree_has_handle(v@[i as int], j));
                                }
                            }
                            assert forall|k: int| 0 <= k < i implies all_dead(
                                #[trigger] v@[k],
                                *s,
                            ) by {
                                assert(materialized(v@[k]));
                                assert(bounded(v@[k], s_pre.nodes@.len() as int));
                                lemma_all_dead_mono(v@[k], s_pre, *s);
                            }
                        }
                        i += 1;
                    }
                    proof {
                        assert(v@.take(v@.len() as int) =~= v@);
                        assert(s.ops() =~= old(s).ops() + destroy_ops(*n));
                    }
                }
                Children::Keyed(v) => {
                    let ghost s_mid = *s;
                    proof {
                        assert(v@.take(0) =~= Seq::<(String, VNode)>::empty());
                        assert(destroy_ops_keyed(Seq::<(String, VNode)>::empty())
                            == Seq::<Op>::empty());
                        assert(s.ops() =~= s_mid.ops() + destroy_ops_keyed(v@.take(0)));
                    }
                    let mut i: usize = 0;
                    while i < v.len()
                        invariant
                            appended(s_mid, *s),
                            appended(*old(s), *s),
                            s.nodes@.len() == old(s).nodes@.len(),
                            !s.alive(h),
                            materialized(*n),
                            bounded(*n, old(s).nodes@.len() as int),
                            n matches VNode::Elem(e2) && e2.children matches Children::Keyed(v2)
                                && v2@ == v@,
                            i <= v@.len(),
                            s.ops() == s_mid.ops() + destroy_ops_keyed(v@.take(i as int)),
                            kills_within(*old(s), *s, *n),
                            forall|k: int| 0 <= k < i ==> all_dead((#[trigger] v@[k]).1, *s),
                        decreases v@.len() - i,
                    {
                        let ghost s_pre = *s;
                        proof {
                            lemma_sizes_keyed_ge(v@, i as int);
                            assert(all_materialized_keyed(v@));
                            assert(all_bounded_keyed(v@, old(s).nodes@.len() as int));
                            assert(materialized(v@[i as int].1));
                            assert(bounded(v@[i as int].1, old(s).nodes@.len() as int));
                        }
                        destroy(&v[i].1, s);
                        proof {
                            lemma_appended_trans(s_mid, s_pre, *s);
                            lemma_appended_trans(*old(s), s_pre, *s);
                            lemma_destroy_ops_keyed_snoc(v@.take(i as int), v@[i as int]);
                            assert(v@.take(i as int).push(v@[i as int]) =~= v@.take(i as int + 1));
                            assert(s.ops() =~= s_mid.ops() + destroy_ops_keyed(
                                v@.take(i as int + 1),
                            ));
                            assert forall|j: int|
                                0 <= j < old(s).nodes@.len() && old(s).nodes@[j] && !(
                                #[trigger] s.nodes@[j]) implies tree_has_handle(*n, j) by {
                                if s_pre.nodes@[j] {
                                    assert(i < v@.len() && tree_has_handle((v@[i as int]).1, j));
                                }
                            }
                            assert forall|k: int| 0 <= k < i implies all_dead(
                                (#[trigger] v@[k]).1,
                                *s,
                            ) by {
                                assert(materialized(v@[k].1));
                                assert(bounded(v@[k].1, s_pre.nodes@.len() as int));
                                lemma_all_dead_mono(v@[k].1, s_pre, *s);
                            }
                        }
                        i += 1;
                    }
                    proof {
                        assert(v@.take(v@.len() as int) =~= v@);
                        assert(s.ops() =~= old(s).ops() + destroy_ops(*n));
                    }
                }
            }
        }
        VNode::List { items, handle } => {
            let h = handle.unwrap();
            let ghost s_start = *s;
            s.destroy(h);
            proof {
                assert(items@.take(0) =~= Seq::<VNode>::empty());
                assert(destroy_ops_seq(Seq::<VNode>::empty()) == Seq::<Op>::empty());
                assert(s.ops() =~= s_start.ops() + seq![(Op::Destroy { node: h })]
                    + destroy_ops_seq(items@.take(0)));
                assert(tree_has_handle(*n, h as int));
                assert(kills_within(s_start, *s, *n));
            }
            let mut i: usize = 0;
            while i < items.len()
                invariant
                    appended(s_start, *s),
                    s.nodes@.len() == s_start.nodes@.len(),
                    !s.alive(h),
                    materialized(*n),
                    bounded(*n, s_start.nodes@.len() as int),
                    n matches VNode::List { items: items2, handle: handle2 } && items2@ == items@,
                    i <= items@.len(),
                    s.ops() == s_start.ops() + seq![(Op::Destroy { node: h })] + destroy_ops_seq(
                        items@.take(i as int),
                    ),
                    kills_within(s_start, *s, *n),
                    forall|k: int| 0 <= k < i ==> all_dead(#[trigger] items@[k], *s),
                decreases items@.len() - i,
            {
                let ghost s_pre = *s;
                proof {
                    lemma_sizes_ge(items@, i as int);
                    assert(all_materialized(items@));
                    assert(all_bounded(items@, s_start.nodes@.len() as int));
                    assert(materialized(items@[i as int]));
                    assert(bounded(items@[i as int], s_start.nodes@.len() as int));
                }
                destroy(&items[i], s);
                proof {
                    lemma_appended_trans(s_start, s_pre, *s);
                    lemma_destroy_ops_seq_snoc(items@.take(i as int), items@[i as int]);
                    assert(items@.take(i as int).push(items@[i as int]) =~= items@.take(
                        i as int + 1,
                    ));
                    assert(s.ops() =~= s_start.ops() + seq![(Op::Destroy { node: h })]
                        + destroy_ops_seq(items@.take(i as int + 1)));
                    assert forall|j: int|
                        0 <= j < s_start.nodes@.len() && s_start.nodes@[j] && !(
                        #[trigger] s.nodes@[j]) implies tree_has_handle(*n, j) by {
                        if s_pre.nodes@[j] {
                            assert(i < items@.len() && tree_has_handle(items@[i as int], j));
                        }
                    }
                    assert forall|k: int| 0 <= k < i implies all_dead(#[trigger] items@[k], *s) by {
                        assert(materialized(items@[k]));
                        assert(bounded(items@[k], s_pre.nodes@.len() as int));
                        lemma_all_dead_mono(items@[k], s_pre, *s);
                    }
                }
                i += 1;
            }
            proof {
                assert(items@.take(items@.len() as int) =~= items@);
                assert(s.ops() =~= old(s).ops() + destroy_ops(*n));
            }
        }
        VNode::Lazy(l) => {
            match &l.vnode {
                Some(b) => {
                    destroy(b, s);
                    proof {
                        assert(s.ops() =~= old(s).ops() + destroy_ops(*n));
                        assert forall|j: int|
                            0 <= j < old(s).nodes@.len() && old(s).nodes@[j] && !(
                            #[trigger] s.nodes@[j]) implies tree_has_handle(*n, j) by {
                            assert(tree_has_handle(**b, j));
                        }
                    }
                }
                None => {
                    proof {
                        assert(false);
                    }
                }
            }
        }
    }
}

/// Creates every child of a fresh parent in order, appending each at the
/// next position.  All allocated handles are fresh.
#[verifier::loop_isolation(false)]
fn create_children<R: Renderer>(
    items: Vec<VNode>,
    parent: usize,
    s: &mut Surface,
    th: &mut R,
    fuel: u64,
) -> (r: Result<Vec<VNode>, PatchError>)
    ensures
        appended(*old(s), *final(s)),
        preserves_existing(*old(s), *final(s)),
        r matches Ok(out) ==> ({
            &&& out@.len() == items@.len()
            &&& vtrees(out@) == vtrees(items@)
            &&& all_materialized(out@)
            &&& all_bounded(out@, final(s).nodes@.len() as int)
            &&& all_handles_from(out@, old(s).nodes@.len() as int)
        }),
        all_lazy_free(items@) ==> r is Ok,
    decreases fuel, sizes(items@), 2nat,
{
    let ghost items0 = items@;
    let mut rest = items;
    let mut out: Vec<VNode> = Vec::new();
    while rest.len() > 0
        invariant
            out@.len() + rest@.len() == items0.len(),
            rest@ == items0.subrange(out@.len() as int, items0.len() as int),
            appended(*old(s), *s),
            preserves_existing(*old(s), *s),
            forall|k: int| 0 <= k < out@.len() ==> vtree(#[trigger] out@[k]) == vtree(items0[k]),
            all_materialized(out@),
            all_bounded(out@, s.nodes@.len() as int),
            all_handles_from(out@, old(s).nodes@.len() as int),
        decreases rest@.len(),
    {
        let ghost k = out@.len() as int;
        let ghost s_pre = *s;
        let c = rest.remove(0);
        proof {
            assert(items0.subrange(k, items0.len() as int)[0] == items0[k]);
            assert(rest@ =~= items0.subrange(k + 1, items0.len() as int));
            lemma_sizes_ge(items0, k);
            assert(size(c) <= sizes(items0));
        }
        match create(c, s, th, fuel) {
            Ok(p) => {
                let (t, h) = p;
                let ghost s_created = *s;
                let pos = out.len();
                s.insert_child(parent, pos, h);
                out.push(t);
                proof {
                    lemma_appended_trans(s_pre, s_created, *s);
                    lemma_appended_trans(*old(s), s_pre, *s);
                    assert forall|q: int| 0 <= q < out@.len() implies bounded(
                        #[trigger] out@[q],
                        s.nodes@.len() as int,
                    ) by {
                        if q < k {
                            lemma_bounded_weaken(
                                out@[q],
                                s_pre.nodes@.len() as int,
                                s.nodes@.len() as int,
                            );
                        }
                    }
                    assert(all_bounded(out@, s.nodes@.len() as int));
                    lemma_handles_from_weaken(
                        t,
                        s_pre.nodes@.len() as int,
                        old(s).nodes@.len() as int,
                    );
                    assert(all_handles_from(out@, old(s).nodes@.len() as int));
                    assert(all_materialized(out@));
                }
            }
            Err(er) => {
                proof {
                    if all_lazy_free(items0) {
                        assert(lazy_free(items0[k]));
                        assert(false);
                    }
                }
                return Err(er);
            }
        }
    }
    proof {
        lemma_vtrees(out@);
        lemma_vtrees(items0);
        assert(vtrees(out@) =~= vtrees(items0));
    }
    Ok(out)
}

/// Creates every keyed child of a fresh parent in order.
#[verifier::loop_isolation(false)]
fn create_keyed_children<R: Renderer>(
    items: Vec<(String, VNode)>,
    parent: usize,
    s: &mut Surface,
    th: &mut R,
    fuel: u64,
) -> (r: Result<Vec<(String, VNode)>, PatchError>)
    ensures
        appended(*old(s), *final(s)),
        preserves_existing(*old(s), *final(s)),
        r matches Ok(out) ==> ({
            &&& out@.len() == items@.len()
            &&& keyed_views(out@) == keyed_views(items@)
            &&& all_materialized_keyed(out@)
            &&& all_bounded_keyed(out@, final(s).nodes@.len() as int)
            &&& all_handles_from_keyed(out@, old(s).nodes@.len() as int)
        }),
        all_lazy_free_keyed(items@) ==> r is Ok,
    decreases fuel, sizes_keyed(items@), 2nat,
{
    let ghost items0 = items@;
    let mut rest = items;
    let mut out: Vec<(String, VNode)> = Vec::new();
    while rest.len() > 0
        invariant
            out@.len() + rest@.len() == items0.len(),
            rest@ == items0.subrange(out@.len() as int, items0.len() as int),
            appended(*old(s), *s),
            preserves_existing(*old(s), *s),
            forall|k: int| 0 <= k < out@.len() ==> (#[trigger] out@[k]).0@ == items0[k].0@ && vtree(
                out@[k].1,
            ) == vtree(items0[k].1),
            all_materialized_keyed(out@),
            all_bounded_keyed(out@, s.nodes@.len() as int),
            all_handles_from_keyed(out@, old(s).nodes@.len() as int),
        decreases rest@.len(),
    {
        let ghost k = out@.len() as int;
        let ghost s_pre = *s;
        let (key, c) = rest.remove(0);
        proof {
            assert(items0.subrange(k, items0.len() as int)[0] == items0[k]);
            assert(rest@ =~= items0.subrange(k + 1, items0.len() as int));
            lemma_sizes_keyed_ge(items0, k);
            assert(size(c) <= sizes_keyed(items0));
        }
        match create(c, s, th, fuel) {
            Ok(p) => {
                let (t, h) = p;
                let ghost s_created = *s;
                let pos = out.len();
                s.insert_child(parent, pos, h);
                out.push((key, t));
                proof {
                    lemma_appended_trans(s_pre, s_created, *s);
                    lemma_appended_trans(*old(s), s_pre, *s);
                    assert forall|q: int| 0 <= q < out@.len() implies bounded(
                        (#[trigger] out@[q]).1,
                        s.nodes@.len() as int,
                    ) by {
                        if q < k {
                            lemma_bounded_weaken(
                                out@[q].1,
                                s_pre.nodes@.len() as int,
                                s.nodes@.len() as int,
                            );
                        }
                    }
                    assert(all_bounded_keyed(out@, s.nodes@.len() as int));
                    lemma_handles_from_weaken(
                        t,
                        s_pre.nodes@.len() as int,
                        old(s).nodes@.len() as int,
                    );
                    assert(all_handles_from_keyed(out@, old(s).nodes@.len() as int));
                    assert(all_materialized_keyed(out@));
                }
            }
            Err(er) => {
                proof {
                    if all_lazy_free_keyed(items0) {
                        assert(lazy_free(items0[k].1));
                        assert(false);
                    }
                }
                return Err(er);
            }
        }
    }
    proof {
        lemma_keyed_views(out@);
        lemma_keyed_views(items0);
        assert(keyed_views(out@) =~= keyed_views(items0));
    }
    Ok(out)
}

/// Compares two transform chains for equality.
fn eq_u64s(a: &Vec<u64>, b: &Vec<u64>) -> (r: bool)
    ensures
        r == (a@ == b@),
{
    if a.len() != b.len() {
        proof {
            assert(a@ != b@);
        }
        return false;
    }
    let mut i: usize = 0;
    while i < a.len()
        invariant
            i <= a@.len(),
            a@.len() == b@.len(),
            forall|q: int| 0 <= q < i ==> a@[q] == b@[q],
        decreases a@.len() - i,
    {
        if a[i] != b[i] {
            return false;
        }
        i += 1;
    }
    proof {
        assert(a@ =~= b@);
    }
    true
}

/// The first attribute with the given name, if any.
fn find_attr(v: &Vec<Attribute>, name: &String) -> (r: Option<usize>)
    ensures
        r matches Some(j) ==> j < v@.len() && v@[j as int].name@ == name@ && forall|q: int|
            0 <= q < j ==> v@[q].name@ != name@,
        r is None ==> forall|q: int| 0 <= q < v@.len() ==> v@[q].name@ != name@,
{
    let mut i: usize = 0;
    while i < v.len()
        invariant
            i <= v@.len(),
            forall|q: int| 0 <= q < i ==> v@[q].name@ != name@,
        decreases v@.len() - i,
    {
        if v[i].name == *name {
            return Some(i);
        }
        i += 1;
    }
    None
}

/// The first listener for the given event, if any.
fn find_listener(v: &Vec<Listener>, event: &String) -> (r: Option<usize>)
    ensures
        r matches Some(j) ==> j < v@.len() && v@[j as int].event@ == event@ && forall|q: int|
            0 <= q < j ==> v@[q].event@ != event@,
        r is None ==> forall|q: int| 0 <= q < v@.len() ==> v@[q].event@ != event@,
{
    let mut i: usize = 0;
    while i < v.len()
        invariant
            i <= v@.len(),
            forall|q: int| 0 <= q < i ==> v@[q].event@ != event@,
        decreases v@.len() - i,
    {
        if v[i].event == *event {
            return Some(i);
        }
        i += 1;
    }
    None
}

/// The first entry with the given name, or -1.
pub open spec fn find_name(s: Seq<(Seq<char>, Seq<char>)>, n: Seq<char>) -> int
    decreases s,
{
    if s.len() == 0 {
        -1
    } else if s[0].0 == n {
        0
    } else if find_name(s.drop_first(), n) < 0 {
        -1
    } else {
        1 + find_name(s.drop_first(), n)
    }
}

/// What `find_name` finds: the first match, or no match at all.
pub proof fn lemma_find_name(s: Seq<(Seq<char>, Seq<char>)>, n: Seq<char>)
    ensures
        find_name(s, n) >= 0 ==> find_name(s, n) < s.len() && s[find_name(s, n)].0 == n
            && forall|q: int| 0 <= q < find_name(s, n) ==> (#[trigger] s[q]).0 != n,
        find_name(s, n) < 0 ==> forall|q: int| 0 <= q < s.len() ==> (#[trigger] s[q]).0 != n,
    decreases s,
{
    if s.len() > 0 {
        lemma_find_name(s.drop_first(), n);
        assert forall|q: int| 1 <= q < s.len() implies s.drop_first()[q - 1] == (
        #[trigger] s[q]) by {}
    }
}

/// The mutations the attribute diff emits while walking the new list: one
/// set per name that is new or whose value changed, in order.
pub open spec fn attr_set_ops(
    new_a: Seq<(Seq<char>, Seq<char>)>,
    old_a: Seq<(Seq<char>, Seq<char>)>,
    h: usize,
) -> Seq<Op>
    decreases new_a,
{
    if new_a.len() == 0 {
        Seq::empty()
    } else {
        {
            let a = new_a[0];
            let j = find_name(old_a, a.0);
            let rest = attr_set_ops(new_a.drop_first(), old_a, h);
            if j >= 0 && old_a[j].1 == a.1 {
                rest
            } else {
                seq![(Op::SetAttribute { node: h, name: a.0, value: a.1 })] + rest
            }
        }
    }
}

/// The mutations the attribute diff emits while walking the old list: one
/// removal per name no longer present, in order.
pub open spec fn attr_remove_ops(
    new_a: Seq<(Seq<char>, Seq<char>)>,
    old_a: Seq<(Seq<char>, Seq<char>)>,
    h: usize,
) -> Seq<Op>
    decreases old_a,
{
    if old_a.len() == 0 {
        Seq::empty()
    } else {
        {
            let rest = attr_remove_ops(new_a, old_a.drop_first(), h);
            if find_name(new_a, old_a[0].0) < 0 {
                seq![(Op::RemoveAttribute { node: h, name: old_a[0].0 })] + rest
            } else {
                rest
            }
        }
    }
}

proof fn lemma_attr_set_ops_snoc(
    s: Seq<(Seq<char>, Seq<char>)>,
    x: (Seq<char>, Seq<char>),
    old_a: Seq<(Seq<char>, Seq<char>)>,
    h: usize,
)
    ensures
        attr_set_ops(s.push(x), old_a, h) == attr_set_ops(s, old_a, h) + ({
            let j = find_name(old_a, x.0);
            if j >= 0 && old_a[j].1 == x.1 {
                Seq::<Op>::empty()
            } else {
                seq![(Op::SetAttribute { node: h, name: x.0, value: x.1 })]
            }
        }),
    decreases s,
{
    let tail = ({
        let j = find_name(old_a, x.0);
        if j >= 0 && old_a[j].1 == x.1 {
            Seq::<Op>::empty()
        } else {
            seq![(Op::SetAttribute { node: h, name: x.0, value: x.1 })]
        }
    });
    if s.len() == 0 {
        assert(s.push(x)[0] == x);
        assert(s.push(x).drop_first() =~= Seq::<(Seq<char>, Seq<char>)>::empty());
        assert(attr_set_ops(Seq::<(Seq<char>, Seq<char>)>::empty(), old_a, h)
            == Seq::<Op>::empty());
        assert(attr_set_ops(s.push(x), old_a, h) =~= attr_set_ops(s, old_a, h) + tail);
    } else {
        lemma_attr_set_ops_snoc(s.drop_first(), x, old_a, h);
        assert(s.push(x)[0] == s[0]);
        assert(s.push(x).drop_first() =~= s.drop_first().push(x));
        assert(attr_set_ops(s.push(x), old_a, h) =~= attr_set_ops(s, old_a, h) + tail);
    }
}

proof fn lemma_attr_remove_ops_snoc(
    new_a: Seq<(Seq<char>, Seq<char>)>,
    s: Seq<(Seq<char>, Seq<char>)>,
    x: (Seq<char>, Seq<char>),
    h: usize,
)
    ensures
        attr_remove_ops(new_a, s.push(x), h) == attr_remove_ops(new_a, s, h) + ({
            if find_name(new_a, x.0) < 0 {
                seq![(Op::RemoveAttribute { node: h, name: x.0 })]
            } else {
                Seq::<Op>::empty()
            }
        }),
    decreases s,
{
    let tail = ({
        if find_name(new_a, x.0) < 0 {
            seq![(Op::RemoveAttribute { node: h, name: x.0 })]
        } else {
            Seq::<Op>::empty()
        }
    });
    if s.len() == 0 {
        assert(s.push(x)[0] == x);
        assert(s.push(x).drop_first() =~= Seq::<(Seq<char>, Seq<char>)>::empty());
        assert(attr_remove_ops(new_a, Seq::<(Seq<char>, Seq<char>)>::empty(), h)
            == Seq::<Op>::empty());
        assert(attr_remove_ops(new_a, s.push(x), h) =~= attr_remove_ops(new_a, s, h) + tail);
    } else {
        lemma_attr_remove_ops_snoc(new_a, s.drop_first(), x, h);
        assert(s.push(x)[0] == s[0]);
        assert(s.push(x).drop_first() =~= s.drop_first().push(x));
        assert(attr_remove_ops(new_a, s.push(x), h) =~= attr_remove_ops(new_a, s, h) + tail);
    }
}

/// Diffs attributes name by name: a name whose value is new or changed is
/// set, a name no longer present is removed, an unchanged pair is left
/// alone.  The emitted mutations are exactly `attr_set_ops` followed by
/// `attr_remove_ops`; equal attribute lists with unique names produce no
/// mutation.
#[verifier::loop_isolation(false)]
fn patch_attrs(h: usize, new_a: &Vec<Attribute>, old_a: &Vec<Attribute>, s: &mut Surface)
    ensures
        appended(*old(s), *final(s)),
        final(s).nodes@ == old(s).nodes@,
        final(s).ops() == old(s).ops() + attr_set_ops(attr_views(new_a@), attr_views(old_a@), h)
            + attr_remove_ops(attr_views(new_a@), attr_views(old_a@), h),
        (attr_views(new_a@) == attr_views(old_a@) && unique_keys(attr_name_seq(old_a@))
            ==> *final(s) == *old(s)),
{
    let ghost nv = attr_views(new_a@);
    let ghost ov = attr_views(old_a@);
    let ghost noop = nv == ov && unique_keys(attr_name_seq(old_a@));
    proof {
        assert(nv.len() == new_a@.len());
        assert(ov.len() == old_a@.len());
        assert(nv.take(0) =~= Seq::<(Seq<char>, Seq<char>)>::empty());
        assert(attr_set_ops(Seq::<(Seq<char>, Seq<char>)>::empty(), ov, h) == Seq::<Op>::empty());
        assert(s.ops() =~= s.ops() + attr_set_ops(nv.take(0), ov, h));
    }
    let mut i: usize = 0;
    while i < new_a.len()
        invariant
            i <= new_a@.len(),
            appended(*old(s), *s),
            s.nodes@ == old(s).nodes@,
            s.ops() == old(s).ops() + attr_set_ops(nv.take(i as int), ov, h),
            (noop ==> *s == *old(s)),
        decreases new_a@.len() - i,
    {
        let a = &new_a[i];
        proof {
            assert(nv[i as int] == (a.name@, a.value@));
        }
        let fa = find_attr(old_a, &a.name);
        proof {
            lemma_find_name(ov, a.name@);
            let fj = find_name(ov, a.name@);
            match fa {
                Some(j) => {
                    assert(ov[j as int].0 == a.name@);
                    assert forall|q: int| 0 <= q < j implies (#[trigger] ov[q]).0
                        != a.name@ by {
                        assert(old_a@[q].name@ != a.name@);
                        assert(ov[q] == (old_a@[q].name@, old_a@[q].value@));
                    }
                    if fj < j as int {
                        if fj >= 0 {
                            assert(ov[fj].0 == a.name@);
                        }
                        assert(false);
                    }
                    if fj > j as int {
                        assert(ov[j as int].0 != a.name@);
                        assert(false);
                    }
                    assert(fj == j as int);
                }
                None => {
                    assert forall|q: int| 0 <= q < ov.len() implies (#[trigger] ov[q]).0
                        != a.name@ by {
                        assert(old_a@[q].name@ != a.name@);
                        assert(ov[q] == (old_a@[q].name@, old_a@[q].value@));
                    }
                    if fj >= 0 {
                        assert(ov[fj].0 == a.name@);
                        assert(false);
                    }
                }
            }
        }
        let changed: bool = match fa {
            Some(j) => !(old_a[j].value == a.value),
            None => true,
        };
        proof {
            let fj = find_name(ov, a.name@);
            match fa {
                Some(j) => {
                    assert(ov[j as int].1 == old_a@[j as int].value@);
                }
                None => {}
            }
            assert(changed == !(fj >= 0 && ov[fj].1 == a.value@));
            if noop && changed {
                assert(ov[i as int] == nv[i as int]);
                assert(old_a@[i as int].name@ == a.name@);
                assert forall|j2: int|
                    0 <= j2 < old_a@.len() && old_a@[j2].name@ == a.name@ implies j2
                    == i as int by {
                    assert(attr_name_seq(old_a@)[j2] == attr_name_seq(old_a@)[i as int]);
                }
                assert(fj == i as int);
                assert(ov[i as int].1 == a.value@);
                assert(false);
            }
        }
        if changed {
            let ghost s_pre = *s;
            s.set_attribute(h, &a.name, &a.value);
            proof {
                lemma_appended_trans(*old(s), s_pre, *s);
            }
        }
        proof {
            lemma_attr_set_ops_snoc(nv.take(i as int), nv[i as int], ov, h);
            assert(nv.take(i as int).push(nv[i as int]) =~= nv.take(i as int + 1));
            assert(s.ops() =~= old(s).ops() + attr_set_ops(nv.take(i as int + 1), ov, h));
        }
        i += 1;
    }
    let ghost set_done = attr_set_ops(nv, ov, h);
    proof {
        assert(nv.take(new_a@.len() as int) =~= nv);
        assert(ov.take(0) =~= Seq::<(Seq<char>, Seq<char>)>::empty());
        assert(attr_remove_ops(nv, Seq::<(Seq<char>, Seq<char>)>::empty(), h)
            == Seq::<Op>::empty());
        assert(s.ops() =~= old(s).ops() + set_done + attr_remove_ops(nv, ov.take(0), h));
    }
    let mut i: usize = 0;
    while i < old_a.len()
        invariant
            i <= old_a@.len(),
            appended(*old(s), *s),
            s.nodes@ == old(s).nodes@,
            s.ops() == old(s).ops() + set_done + attr_remove_ops(nv, ov.take(i as int), h),
            (noop ==> *s == *old(s)),
        decreases old_a@.len() - i,
    {
        let a = &old_a[i];
        proof {
            assert(ov[i as int] == (a.name@, a.value@));
        }
        let fa = find_attr(new_a, &a.name);
        proof {
            lemma_find_name(nv, a.name@);
            let fj = find_name(nv, a.name@);
            match fa {
                Some(j) => {
                    assert(nv[j as int].0 == a.name@);
                    if fj < 0 {
                        assert(nv[j as int].0 != a.name@);
                        assert(false);
                    }
                }
                None => {
                    assert forall|q: int| 0 <= q < nv.len() implies (#[trigger] nv[q]).0
                        != a.name@ by {
                        assert(new_a@[q].name@ != a.name@);
                        assert(nv[q] == (new_a@[q].name@, new_a@[q].value@));
                    }
                    if fj >= 0 {
                        assert(nv[fj].0 == a.name@);
                        assert(false);
                    }
                }
            }
        }
        if fa.is_none() {
            proof {
                if noop {
                    assert(nv[i as int] == ov[i as int]);
                    assert(new_a@[i as int].name@ == a.name@);
                    assert(false);
                }
            }
            let ghost s_pre = *s;
            s.remove_attribute(h, &a.name);
            proof {
                lemma_appended_trans(*old(s), s_pre, *s);
            }
        }
        proof {
            lemma_attr_remove_ops_snoc(nv, ov.take(i as int), ov[i as int], h);
            assert(ov.take(i as int).push(ov[i as int]) =~= ov.take(i as int + 1));
            assert(s.ops() =~= old(s).ops() + set_done + attr_remove_ops(
                nv,
                ov.take(i as int + 1),
                h,
            ));
        }
        i += 1;
    }
    proof {
        assert(ov.take(old_a@.len() as int) =~= ov);
        assert(final(s).ops() =~= old(s).ops() + set_done + attr_remove_ops(nv, ov, h));
    }
}

/// The first listener for the given event, or -1.
pub open spec fn find_event(s: Seq<LView>, e: Seq<char>) -> int
    decreases s,
{
    if s.len() == 0 {
        -1
    } else if s[0].event == e {
        0
    } else if find_event(s.drop_first(), e) < 0 {
        -1
    } else {
        1 + find_event(s.drop_first(), e)
    }
}

/// What `find_event` finds: the first match, or no match at all.
pub proof fn lemma_find_event(s: Seq<LView>, e: Seq<char>)
    ensures
        find_event(s, e) >= 0 ==> find_event(s, e) < s.len() && s[find_event(s, e)].event == e
            && forall|q: int| 0 <= q < find_event(s, e) ==> (#[trigger] s[q]).event != e,
        find_event(s, e) < 0 ==> forall|q: int| 0 <= q < s.len() ==> (#[trigger] s[q]).event != e,
    decreases s,
{
    if s.len() > 0 {
        lemma_find_event(s.drop_first(), e);
        assert forall|q: int| 1 <= q < s.len() implies s.drop_first()[q - 1] == (
        #[trigger] s[q]) by {}
    }
}

/// The mutations one new listener asks for: nothing when the registration
/// is unchanged, a release-and-register when the producer or chain
/// changed, and a plain registration for a new event.
pub open spec fn listener_ops_for(l: LView, old_l: Seq<LView>, h: usize) -> Seq<Op> {
    {
        let j = find_event(old_l, l.event);
        if j >= 0 && old_l[j].producer == l.producer && old_l[j].maps == l.maps {
            Seq::empty()
        } else if j >= 0 {
            seq![
                (Op::Unregister { node: h, event: l.event }),
                (Op::Register { node: h, event: l.event, producer: l.producer, maps: l.maps }),
            ]
        } else {
            seq![(Op::Register { node: h, event: l.event, producer: l.producer, maps: l.maps })]
        }
    }
}

/// The mutations the listener diff emits while walking the new list.
pub open spec fn listener_set_ops(new_l: Seq<LView>, old_l: Seq<LView>, h: usize) -> Seq<Op>
    decreases new_l,
{
    if new_l.len() == 0 {
        Seq::empty()
    } else {
        listener_ops_for(new_l[0], old_l, h) + listener_set_ops(new_l.drop_first(), old_l, h)
    }
}

/// The mutations the listener diff emits while walking the old list: one
/// release per event no longer listened for, in order.
pub open spec fn listener_remove_ops(new_l: Seq<LView>, old_l: Seq<LView>, h: usize) -> Seq<Op>
    decreases old_l,
{
    if old_l.len() == 0 {
        Seq::empty()
    } else {
        {
            let rest = listener_remove_ops(new_l, old_l.drop_first(), h);
            if find_event(new_l, old_l[0].event) < 0 {
                seq![(Op::Unregister { node: h, event: old_l[0].event })] + rest
            } else {
                rest
            }
        }
    }
}

proof fn lemma_listener_set_ops_snoc(s: Seq<LView>, x: LView, old_l: Seq<LView>, h: usize)
    ensures
        listener_set_ops(s.push(x), old_l, h) == listener_set_ops(s, old_l, h)
            + listener_ops_for(x, old_l, h),
    decreases s,
{
    if s.len() == 0 {
        assert(s.push(x)[0] == x);
        assert(s.push(x).drop_first() =~= Seq::<LView>::empty());
        assert(listener_set_ops(Seq::<LView>::empty(), old_l, h) == Seq::<Op>::empty());
        assert(listener_set_ops(s.push(x), old_l, h) =~= listener_set_ops(s, old_l, h)
            + listener_ops_for(x, old_l, h));
    } else {
        lemma_listener_set_ops_snoc(s.drop_first(), x, old_l, h);
        assert(s.push(x)[0] == s[0]);
        assert(s.push(x).drop_first() =~= s.drop_first().push(x));
        assert(listener_set_ops(s.push(x), old_l, h) =~= listener_set_ops(s, old_l, h)
            + listener_ops_for(x, old_l, h));
    }
}

proof fn lemma_listener_remove_ops_snoc(new_l: Seq<LView>, s: Seq<LView>, x: LView, h: usize)
    ensures
        listener_remove_ops(new_l, s.push(x), h) == listener_remove_ops(new_l, s, h) + ({
            if find_event(new_l, x.event) < 0 {
                seq![(Op::Unregister { node: h, event: x.event })]
            } else {
                Seq::<Op>::empty()
            }
        }),
    decreases s,
{
    let tail = ({
        if find_event(new_l, x.event) < 0 {
            seq![(Op::Unregister { node: h, event: x.event })]
        } else {
            Seq::<Op>::empty()
        }
    });
    if s.len() == 0 {
        assert(s.push(x)[0] == x);
        assert(s.push(x).drop_first() =~= Seq::<LView>::empty());
        assert(listener_remove_ops(new_l, Seq::<LView>::empty(), h) == Seq::<Op>::empty());
        assert(listener_remove_ops(new_l, s.push(x), h) =~= listener_remove_ops(new_l, s, h)
            + tail);
    } else {
        lemma_listener_remove_ops_snoc(new_l, s.drop_first(), x, h);
        assert(s.push(x)[0] == s[0]);
        assert(s.push(x).drop_first() =~= s.drop_first().push(x));
        assert(listener_remove_ops(new_l, s.push(x), h) =~= listener_remove_ops(new_l, s, h)
            + tail);
    }
}

/// Replaces listeners event by event: an event whose producer or transform
/// chain differs is re-registered (the old registration is released
/// first), an event no longer listened for is unregistered, an identical
/// registration is left alone.  The emitted mutations are exactly
/// `listener_set_ops` followed by `listener_remove_ops`; equal listener
/// lists with unique events produce no mutation.
#[verifier::loop_isolation(false)]
fn patch_listeners(h: usize, new_l: &Vec<Listener>, old_l: &Vec<Listener>, s: &mut Surface)
    ensures
        appended(*old(s), *final(s)),
        final(s).nodes@ == old(s).nodes@,
        final(s).ops() == old(s).ops() + listener_set_ops(
            listener_views(new_l@),
            listener_views(old_l@),
            h,
        ) + listener_remove_ops(listener_views(new_l@), listener_views(old_l@), h),
        (listener_views(new_l@) == listener_views(old_l@) && unique_keys(
            listener_event_seq(old_l@),
        ) ==> *final(s) == *old(s)),
{
    let ghost nv = listener_views(new_l@);
    let ghost ov = listener_views(old_l@);
    let ghost noop = nv == ov && unique_keys(listener_event_seq(old_l@));
    proof {
        assert(nv.len() == new_l@.len());
        assert(ov.len() == old_l@.len());
        assert(nv.take(0) =~= Seq::<LView>::empty());
        assert(listener_set_ops(Seq::<LView>::empty(), ov, h) == Seq::<Op>::empty());
        assert(s.ops() =~= s.ops() + listener_set_ops(nv.take(0), ov, h));
    }
    let mut i: usize = 0;
    while i < new_l.len()
        invariant
            i <= new_l@.len(),
            appended(*old(s), *s),
            s.nodes@ == old(s).nodes@,
            s.ops() == old(s).ops() + listener_set_ops(nv.take(i as int), ov, h),
            (noop ==> *s == *old(s)),
        decreases new_l@.len() - i,
    {
        let l = &new_l[i];
        proof {
            assert(nv[i as int] == (LView {
                event: l.event@,
                producer: l.producer,
                maps: l.maps@,
            }));
        }
        let fl = find_listener(old_l, &l.event);
        proof {
            lemma_find_event(ov, l.event@);
            let fj = find_event(ov, l.event@);
            match fl {
                Some(j) => {
                    assert(ov[j as int].event == l.event@);
                    assert forall|q: int| 0 <= q < j implies (#[trigger] ov[q]).event
                        != l.event@ by {
                        assert(old_l@[q].event@ != l.event@);
                        assert(ov[q] == (LView {
                            event: old_l@[q].event@,
                            producer: old_l@[q].producer,
                            maps: old_l@[q].maps@,
                        }));
                    }
                    if fj < j as int {
                        if fj >= 0 {
                            assert(ov[fj].event == l.event@);
                        }
                        assert(false);
                    }
                    if fj > j as int {
                        assert(ov[j as int].event != l.event@);
                        assert(false);
                    }
                    assert(fj == j as int);
                }
                None => {
                    assert forall|q: int| 0 <= q < ov.len() implies (#[trigger] ov[q]).event
                        != l.event@ by {
                        assert(old_l@[q].event@ != l.event@);
                        assert(ov[q] == (LView {
                            event: old_l@[q].event@,
                            producer: old_l@[q].producer,
                            maps: old_l@[q].maps@,
                        }));
                    }
                    if fj >= 0 {
                        assert(ov[fj].event == l.event@);
                        assert(false);
                    }
                }
            }
        }
        let action: u8 = match fl {
            Some(j) => {
                if old_l[j].producer == l.producer && eq_u64s(&old_l[j].maps, &l.maps) {
                    0u8
                } else {
                    1u8
                }
            }
            None => 2u8,
        };
        proof {
            let fj = find_event(ov, l.event@);
            match fl {
                Some(j) => {
                    assert(ov[j as int].producer == old_l@[j as int].producer);
                    assert(ov[j as int].maps == old_l@[j as int].maps@);
                }
                None => {}
            }
            if noop && action != 0u8 {
                assert(ov[i as int] == nv[i as int]);
                assert(old_l@[i as int].event@ == l.event@);
                assert forall|j2: int|
                    0 <= j2 < old_l@.len() && old_l@[j2].event@ == l.event@ implies j2
                    == i as int by {
                    assert(listener_event_seq(old_l@)[j2] == listener_event_seq(
                        old_l@,
                    )[i as int]);
                }
                assert(fj == i as int);
                assert(ov[i as int].producer == l.producer);
                assert(ov[i as int].maps == l.maps@);
                assert(false);
            }
        }
        if action == 1u8 {
            let ghost s_pre = *s;
            s.unregister(h, &l.event);
            s.register(h, &l.event, l.producer, &l.maps);
            proof {
                lemma_appended_trans(*old(s), s_pre, *s);
            }
        } else if action == 2u8 {
            let ghost s_pre = *s;
            s.register(h, &l.event, l.producer, &l.maps);
            proof {
                lemma_appended_trans(*old(s), s_pre, *s);
            }
        }
        proof {
            lemma_listener_set_ops_snoc(nv.take(i as int), nv[i as int], ov, h);
            assert(nv.take(i as int).push(nv[i as int]) =~= nv.take(i as int + 1));
            assert(s.ops() =~= old(s).ops() + listener_set_ops(nv.take(i as int + 1), ov, h));
        }
        i += 1;
    }
    let ghost set_done = listener_set_ops(nv, ov, h);
    proof {
        assert(nv.take(new_l@.len() as int) =~= nv);
        assert(ov.take(0) =~= Seq::<LView>::empty());
        assert(listener_remove_ops(nv, Seq::<LView>::empty(), h) == Seq::<Op>::empty());
        assert(s.ops() =~= old(s).ops() + set_done + listener_remove_ops(nv, ov.take(0), h));
    }
    let mut i: usize = 0;
    while i < old_l.len()
        invariant
            i <= old_l@.len(),
            appended(*old(s), *s),
            s.nodes@ == old(s).nodes@,
            s.ops() == old(s).ops() + set_done + listener_remove_ops(nv, ov.take(i as int), h),
            (noop ==> *s == *old(s)),
        decreases old_l@.len() - i,
    {
        let l = &old_l[i];
        proof {
            assert(ov[i as int] == (LView {
                event: l.event@,
                producer: l.producer,
                maps: l.maps@,
            }));
        }
        let fl = find_listener(new_l, &l.event);
        proof {
            lemma_find_event(nv, l.event@);
            let fj = find_event(nv, l.event@);
            match fl {
                Some(j) => {
                    assert(nv[j as int].event == l.event@);
                    if fj < 0 {
                        assert(nv[j as int].event != l.event@);
                        assert(false);
                    }
                }
                None => {
                    assert forall|q: int| 0 <= q < nv.len() implies (#[trigger] nv[q]).event
                        != l.event@ by {
                        assert(new_l@[q].event@ != l.event@);
                        assert(nv[q] == (LView {
                            event: new_l@[q].event@,
                            producer: new_l@[q].producer,
                            maps: new_l@[q].maps@,
                        }));
                    }
                    if fj >= 0 {
                        assert(nv[fj].event == l.event@);
                        assert(false);
                    }
                }
            }
        }
        if fl.is_none() {
            proof {
                if noop {
                    assert(nv[i as int] == ov[i as int]);
                    assert(new_l@[i as int].event@ == l.event@);
                    assert(false);
                }
            }
            let ghost s_pre = *s;
            s.unregister(h, &l.event);
            proof {
                lemma_appended_trans(*old(s), s_pre, *s);
            }
        }
        proof {
            lemma_listener_remove_ops_snoc(nv, ov.take(i as int), ov[i as int], h);
            assert(ov.take(i as int).push(ov[i as int]) =~= ov.take(i as int + 1));
            assert(s.ops() =~= old(s).ops() + set_done + listener_remove_ops(
                nv,
                ov.take(i as int + 1),
                h,
            ));
        }
        i += 1;
    }
    proof {
        assert(ov.take(old_l@.len() as int) =~= ov);
        assert(final(s).ops() =~= old(s).ops() + set_done + listener_remove_ops(nv, ov, h));
    }
}

/// The allocation a tree's root asks the surface for.
pub open spec fn root_create_op(t: VTree, h: usize) -> Op {
    match t {
        VTree::Text(txt) => Op::CreateText { node: h, text: txt },
        VTree::Elem { ns, tag, attrs, listeners, children } => Op::CreateElement {
            node: h,
            ns,
            tag,
        },
        VTree::List(items) => Op::CreateFragment { node: h },
        VTree::Lazy { hash, thunk, maps } => Op::CreateFragment { node: h },
    }
}

/// Materializes a tree with no prior counterpart: allocates its node, sets
/// every attribute, registers every listener, creates the children in
/// order, and records the fresh handle on the tree.  A deferred subtree is
/// rendered once through the host and the rendering becomes its cache.
/// The first mutation recorded is the root's own allocation (for a
/// deferred subtree, the allocation of whatever its thunk renders).
///
/// Succeeds whenever the tree defers nothing; a render budget of `fuel`
/// bounds nested deferred renderings, and exhausting it is the only
/// failure.
pub fn create<R: Renderer>(n: VNode, s: &mut Surface, th: &mut R, fuel: u64) -> (r: Result<
    (VNode, usize),
    PatchError,
>)
    ensures
        appended(*old(s), *final(s)),
        preserves_existing(*old(s), *final(s)),
        r matches Ok(p) ==> ({
            &&& p.0@ == n@
            &&& root_handle(p.0) == Some(p.1)
            &&& old(s).nodes@.len() <= p.1 < final(s).nodes@.len()
            &&& final(s).alive(p.1)
            &&& materialized(p.0)
            &&& bounded(p.0, final(s).nodes@.len() as int)
            &&& handles_from(p.0, old(s).nodes@.len() as int)
            &&& (!(n@ is Lazy) ==> final(s).ops().len() > old(s).ops().len() && final(s).ops()[old(
                s,
            ).ops().len() as int] == root_create_op(n@, p.1))
        }),
        lazy_free(n) ==> r is Ok,
    decreases fuel, size(n), 0nat,
{
    match n {
        VNode::Text { text, handle } => {
            let h = s.create_text(&text);
            let t = VNode::Text { text, handle: Some(h) };
            proof {
                assert(s.ops()[old(s).ops().len() as int] == root_create_op(n@, h));
            }
            Ok((t, h))
        }
        VNode::Elem(e) => {
            let Element { ns, tag, attributes, listeners, children, handle } = e;
            let h = s.create_element(ns, &tag);
            let ghost s_alloc = *s;
            let mut i: usize = 0;
            while i < attributes.len()
                invariant
                    appended(s_alloc, *s),
                    s.nodes@ == s_alloc.nodes@,
                decreases attributes@.len() - i,
            {
                let ghost s_pre = *s;
                s.set_attribute(h, &attributes[i].name, &attributes[i].value);
                proof {
                    lemma_appended_trans(s_alloc, s_pre, *s);
                }
                i += 1;
            }
            let mut i: usize = 0;
            while i < listeners.len()
                invariant
                    appended(s_alloc, *s),
                    s.nodes@ == s_alloc.nodes@,
                decreases listeners@.len() - i,
            {
                let ghost s_pre = *s;
                s.register(h, &listeners[i].event, listeners[i].producer, &listeners[i].maps);
                proof {
                    lemma_appended_trans(s_alloc, s_pre, *s);
                }
                i += 1;
            }
            let ghost s_mid = *s;
            proof {
                lemma_appended_trans(*old(s), s_alloc, *s);
            }
            let children2 = match children {
                Children::NonKeyed(v) => {
                    proof {
                        assert(size(n) == 1 + sizes(v@));
                    }
                    match create_children(v, h, s, th, fuel) {
                        Ok(o) => Children::NonKeyed(o),
                        Err(er) => {
                            proof {
                                if lazy_free(n) {
                                    assert(false);
                                }
                            }
                            return Err(er);
                        }
                    }
                }
                Children::Keyed(v) => {
                    proof {
                        assert(size(n) == 1 + sizes_keyed(v@));
                    }
                    match create_keyed_children(v, h, s, th, fuel) {
                        Ok(o) => Children::Keyed(o),
                        Err(er) => {
                            proof {
                                if lazy_free(n) {
                                    assert(false);
                                }
                            }
                            return Err(er);
                        }
                    }
                }
            };
            let t = VNode::Elem(
                Element { ns, tag, attributes, listeners, children: children2, handle: Some(h) },
            );
            proof {
                lemma_appended_trans(*old(s), s_mid, *s);
                assert(t@ =~= n@);
                assert(appended(s_alloc, *s)) by {
                    lemma_appended_trans(s_alloc, s_mid, *s);
                }
                assert(s_alloc.ops()[old(s).ops().len() as int] == root_create_op(n@, h));
                assert(s_alloc.ops() =~= s.ops().subrange(0, s_alloc.ops().len() as int));
                assert(s.ops()[old(s).ops().len() as int] == root_create_op(n@, h));
                match &t {
                    VNode::Elem(te) => {
                        match &te.children {
                            Children::NonKeyed(o) => {
                                assert forall|q: int| 0 <= q < o@.len() implies handles_from(
                                    #[trigger] o@[q],
                                    old(s).nodes@.len() as int,
                                ) by {
                                    lemma_handles_from_weaken(
                                        o@[q],
                                        s_mid.nodes@.len() as int,
                                        old(s).nodes@.len() as int,
                                    );
                                }
                                assert(all_handles_from(o@, old(s).nodes@.len() as int));
                            }
                            Children::Keyed(o) => {
                                assert forall|q: int| 0 <= q < o@.len() implies handles_from(
                                    (#[trigger] o@[q]).1,
                                    old(s).nodes@.len() as int,
                                ) by {
                                    lemma_handles_from_weaken(
                                        o@[q].1,
                                        s_mid.nodes@.len() as int,
                                        old(s).nodes@.len() as int,
                                    );
                                }
                                assert(all_handles_from_keyed(o@, old(s).nodes@.len() as int));
                            }
                        }
                    }
                    _ => {}
                }
            }
            Ok((t, h))
        }
        VNode::List { items, handle } => {
            let h = s.create_fragment();
            let ghost s_alloc = *s;
            proof {
                assert(size(n) == 1 + sizes(items@));
                lemma_appended_trans(*old(s), s_alloc, *s);
            }
            match create_children(items, h, s, th, fuel) {
                Ok(o) => {
                    let t = VNode::List { items: o, handle: Some(h) };
                    proof {
                        lemma_appended_trans(*old(s), s_alloc, *s);
                        assert(t@ =~= n@);
                        assert(s_alloc.ops()[old(s).ops().len() as int] == root_create_op(n@, h));
                        assert(s_alloc.ops() =~= s.ops().subrange(
                            0,
                            s_alloc.ops().len() as int,
                        ));
                        assert(s.ops()[old(s).ops().len() as int] == root_create_op(n@, h));
                        match &t {
                            VNode::List { items: o2, handle: h2 } => {
                                assert forall|q: int| 0 <= q < o2@.len() implies handles_from(
                                    #[trigger] o2@[q],
                                    old(s).nodes@.len() as int,
                                ) by {
                                    lemma_handles_from_weaken(
                                        o2@[q],
                                        s_alloc.nodes@.len() as int,
                                        old(s).nodes@.len() as int,
                                    );
                                }
                                assert(all_handles_from(o2@, old(s).nodes@.len() as int));
                            }
                            _ => {}
                        }
                    }
                    Ok((t, h))
                }
                Err(er) => {
                    proof {
                        if lazy_free(n) {
                            assert(false);
                        }
                    }
                    Err(er)
                }
            }
        }
        VNode::Lazy(l) => {
            let mut lz = l;
            proof {
                assert(size(n) == 1 + lazy_size(l));
            }
            match lz.create(s, th, fuel) {
                Ok(h) => {
                    let t = VNode::Lazy(lz);
                    Ok((t, h))
                }
                Err(er) => Err(er),
            }
        }
    }
}

/// Shallow kind agreement, decided on the trees themselves.
fn same_kind(a: &VNode, b: &VNode) -> (r: bool)
    ensures
        r == kinds_match(vtree(*a), vtree(*b)),
{
    match (a, b) {
        (VNode::Text { text: ta, handle: ha }, VNode::Text { text: tb, handle: hb }) => true,
        (VNode::Elem(x), VNode::Elem(y)) => x.ns == y.ns && x.tag == y.tag,
        (
            VNode::List { items: ia, handle: ha },
            VNode::List { items: ib, handle: hb },
        ) => true,
        (VNode::Lazy(x), VNode::Lazy(y)) => true,
        _ => false,
    }
}

/// The first position holding handle `h`, if any.
fn find_handle(v: &Vec<usize>, h: usize) -> (r: Option<usize>)
    ensures
        r matches Some(p) ==> p < v@.len() && v@[p as int] == h && forall|q: int|
            0 <= q < p ==> v@[q] != h,
        r is None ==> forall|q: int| 0 <= q < v@.len() ==> v@[q] != h,
{
    let mut i: usize = 0;
    while i < v.len()
        invariant
            i <= v@.len(),
            forall|q: int| 0 <= q < i ==> v@[q] != h,
        decreases v@.len() - i,
    {
        if v[i] == h {
            return Some(i);
        }
        i += 1;
    }
    None
}

/// The first unconsumed slot whose key is `k`, if any.
fn find_slot(slots: &Vec<Option<(String, VNode)>>, k: &String) -> (r: Option<usize>)
    ensures
        r matches Some(j) ==> j < slots@.len() && (slots@[j as int] matches Some(p) && p.0@ == k@
            && forall|q: int| 0 <= q < j ==> !((#[trigger] slots@[q]) matches Some(p2)
                && p2.0@ == k@)),
        r is None ==> forall|q: int| 0 <= q < slots@.len() ==> !((#[trigger] slots@[q]) matches
            Some(p2) && p2.0@ == k@),
{
    let mut i: usize = 0;
    while i < slots.len()
        invariant
            i <= slots@.len(),
            forall|q: int| 0 <= q < i ==> !((#[trigger] slots@[q]) matches Some(p2)
                && p2.0@ == k@),
        decreases slots@.len() - i,
    {
        match &slots[i] {
            Some(p) => {
                if p.0 == *k {
                    return Some(i);
                }
            }
            None => {}
        }
        i += 1;
    }
    None
}

/// The exact mutations truncation emits: each trailing child is detached
/// at the cut position (later ones slide into it) and then destroyed.
pub open spec fn truncate_ops(parent: usize, cut: usize, items: Seq<VNode>) -> Seq<Op>
    decreases items,
{
    if items.len() == 0 {
        Seq::empty()
    } else {
        seq![(Op::RemoveChild { parent: parent, index: cut })] + destroy_ops(items[0])
            + truncate_ops(parent, cut, items.drop_first())
    }
}

proof fn lemma_truncate_ops_snoc(parent: usize, cut: usize, s: Seq<VNode>, x: VNode)
    ensures
        truncate_ops(parent, cut, s.push(x)) == truncate_ops(parent, cut, s) + (seq![
            (Op::RemoveChild { parent: parent, index: cut }),
        ] + destroy_ops(x)),
    decreases s,
{
    let tail = seq![(Op::RemoveChild { parent: parent, index: cut })] + destroy_ops(x);
    if s.len() == 0 {
        assert(s.push(x)[0] == x);
        assert(s.push(x).drop_first() =~= Seq::<VNode>::empty());
        assert(truncate_ops(parent, cut, Seq::<VNode>::empty()) == Seq::<Op>::empty());
        assert(truncate_ops(parent, cut, s.push(x)) =~= truncate_ops(parent, cut, s) + tail);
    } else {
        lemma_truncate_ops_snoc(parent, cut, s.drop_first(), x);
        assert(s.push(x)[0] == s[0]);
        assert(s.push(x).drop_first() =~= s.drop_first().push(x));
        assert(truncate_ops(parent, cut, s.push(x)) =~= truncate_ops(parent, cut, s) + tail);
    }
}

/// Reconciles non-keyed children purely by position: pairs up to the
/// shorter length are patched, extra new children are created and appended,
/// extra old children are detached and destroyed in order.  Reordering is
/// invisible here — that is the documented tradeoff of position identity.
/// Shrinking a list whose kept prefix is unchanged emits exactly the
/// truncation mutations: one detach and one subtree destruction per
/// trailing child, nothing else.
#[verifier::loop_isolation(false)]
pub fn patch_nonkeyed<R: Renderer>(
    new_items: Vec<VNode>,
    old_items: Vec<VNode>,
    parent: usize,
    s: &mut Surface,
    th: &mut R,
    fuel: u64,
) -> (r: Result<Vec<VNode>, PatchError>)
    requires
        all_materialized(old_items@),
        all_bounded(old_items@, old(s).nodes@.len() as int),
    ensures
        appended(*old(s), *final(s)),
        r matches Ok(out) ==> ({
            &&& out@.len() == new_items@.len()
            &&& vtrees(out@) == vtrees(new_items@)
            &&& all_materialized(out@)
            &&& all_bounded(out@, final(s).nodes@.len() as int)
            &&& (forall|i: int|
                0 <= i < new_items@.len() && i < old_items@.len() && kinds_match(
                    vtree(#[trigger] new_items@[i]),
                    vtree(old_items@[i]),
                ) && !(vtree(new_items@[i]) is Lazy) ==> root_of(out@[i]) == root_of(
                    old_items@[i],
                ))
            &&& (forall|i: int|
                old_items@.len() <= i < new_items@.len() ==> root_of(#[trigger] out@[i]) >= old(
                    s,
                ).nodes@.len() && final(s).alive(root_of(out@[i])))
            &&& (forall|i: int|
                new_items@.len() <= i < old_items@.len() ==> all_dead(
                    #[trigger] old_items@[i],
                    *final(s),
                ))
        }),
        all_lazy_free(new_items@) ==> r is Ok,
        (vtrees(new_items@) == vtrees(old_items@) && all_sane(old_items@) ==> *final(s) == *old(s)
            && *final(th) == *old(th) && r is Ok),
        (new_items@.len() <= old_items@.len() && vtrees(new_items@) == vtrees(
            old_items@.take(new_items@.len() as int),
        ) && all_sane(old_items@) ==> *final(th) == *old(th) && r is Ok && final(s).nodes@.len()
            == old(s).nodes@.len() && final(s).ops() == old(s).ops() + truncate_ops(
            parent,
            new_items@.len() as usize,
            old_items@.skip(new_items@.len() as int),
        )),
        kills_within_seq(*old(s), *final(s), old_items@),
    decreases fuel, sizes(new_items@), 2nat,
{
    let ghost n0 = new_items@;
    let ghost o0 = old_items@;
    let ghost noop = vtrees(n0) == vtrees(o0) && all_sane(o0);
    let ghost trunc = n0.len() <= o0.len() && vtrees(n0) == vtrees(o0.take(n0.len() as int))
        && all_sane(o0);
    proof {
        lemma_vtrees(n0);
        lemma_vtrees(o0);
        lemma_vtrees(o0.take(n0.len() as int));
    }
    let mut news = new_items;
    let mut olds = old_items;
    let mut out: Vec<VNode> = Vec::new();
    while news.len() > 0 && olds.len() > 0
        invariant
            out@.len() + news@.len() == n0.len(),
            news@ == n0.subrange(out@.len() as int, n0.len() as int),
            out@.len() + olds@.len() == o0.len(),
            olds@ == o0.subrange(out@.len() as int, o0.len() as int),
            appended(*old(s), *s),
            forall|q: int| 0 <= q < out@.len() ==> vtree(#[trigger] out@[q]) == vtree(n0[q]),
            all_materialized(out@),
            all_bounded(out@, s.nodes@.len() as int),
            (forall|q: int|
                0 <= q < out@.len() && q < o0.len() && kinds_match(vtree(n0[q]), vtree(o0[q]))
                    && !(vtree(n0[q]) is Lazy) ==> root_of(#[trigger] out@[q]) == root_of(o0[q])),
            kills_within_seq(*old(s), *s, o0),
            (noop ==> *s == *old(s) && *th == *old(th)),
            (trunc ==> *s == *old(s) && *th == *old(th)),
        decreases news@.len(),
    {
        let ghost k = out@.len() as int;
        let c_new = news.remove(0);
        let c_old = olds.remove(0);
        proof {
            assert(n0.subrange(k, n0.len() as int)[0] == n0[k]);
            assert(news@ =~= n0.subrange(k + 1, n0.len() as int));
            assert(o0.subrange(k, o0.len() as int)[0] == o0[k]);
            assert(olds@ =~= o0.subrange(k + 1, o0.len() as int));
            lemma_sizes_ge(n0, k);
            assert(materialized(o0[k]));
            assert(bounded(o0[k], old(s).nodes@.len() as int));
            lemma_bounded_weaken(o0[k], old(s).nodes@.len() as int, s.nodes@.len() as int);
            if noop {
                assert(vtrees(n0)[k] == vtrees(o0)[k]);
                assert(vtree(c_new) == vtree(c_old));
                assert(sane(o0[k]));
            }
            if trunc {
                assert(o0.take(n0.len() as int)[k] == o0[k]);
                assert(vtrees(n0)[k] == vtrees(o0.take(n0.len() as int))[k]);
                assert(vtree(c_new) == vtree(c_old));
                assert(sane(o0[k]));
            }
        }
        let ghost s_pre = *s;
        match patch(c_new, c_old, s, th, fuel) {
            Ok(p) => {
                let (t, h) = p;
                out.push(t);
                proof {
                    lemma_appended_trans(*old(s), s_pre, *s);
                    assert forall|q: int| 0 <= q < out@.len() implies bounded(
                        #[trigger] out@[q],
                        s.nodes@.len() as int,
                    ) by {
                        if q < k {
                            lemma_bounded_weaken(
                                out@[q],
                                s_pre.nodes@.len() as int,
                                s.nodes@.len() as int,
                            );
                        }
                    }
                    assert(all_bounded(out@, s.nodes@.len() as int));
                    assert(all_materialized(out@));
                    assert forall|j: int|
                        0 <= j < old(s).nodes@.len() && old(s).nodes@[j] && !(
                        #[trigger] s.nodes@[j]) implies exists|q: int|
                        0 <= q < o0.len() && tree_has_handle(#[trigger] o0[q], j) by {
                        if s_pre.nodes@[j] {
                            assert(tree_has_handle(o0[k], j));
                            assert(k < o0.len() && tree_has_handle(o0[k], j));
                        }
                    }
                }
            }
            Err(er) => {
                proof {
                    if all_lazy_free(n0) {
                        assert(lazy_free(n0[k]));
                        assert(false);
                    }
                    if noop {
                        assert(false);
                    }
                    if trunc {
                        assert(false);
                    }
                    assert forall|j: int|
                        0 <= j < old(s).nodes@.len() && old(s).nodes@[j] && !(
                        #[trigger] s.nodes@[j]) implies exists|q: int|
                        0 <= q < o0.len() && tree_has_handle(#[trigger] o0[q], j) by {
                        if s_pre.nodes@[j] {
                            assert(tree_has_handle(o0[k], j));
                            assert(k < o0.len() && tree_has_handle(o0[k], j));
                        }
                    }
                }
                return Err(er);
            }
        }
    }
    if olds.len() == 0 {
        while news.len() > 0
            invariant
                o0.len() <= out@.len(),
                out@.len() + news@.len() == n0.len(),
            news@ == n0.subrange(out@.len() as int, n0.len() as int),
            appended(*old(s), *s),
            forall|q: int| 0 <= q < out@.len() ==> vtree(#[trigger] out@[q]) == vtree(n0[q]),
            all_materialized(out@),
            all_bounded(out@, s.nodes@.len() as int),
            (forall|q: int|
                0 <= q < out@.len() && q < o0.len() && kinds_match(vtree(n0[q]), vtree(o0[q]))
                    && !(vtree(n0[q]) is Lazy) ==> root_of(#[trigger] out@[q]) == root_of(o0[q])),
            (forall|q: int|
                o0.len() <= q < out@.len() ==> root_of(#[trigger] out@[q]) >= old(
                    s,
                ).nodes@.len() && s.alive(root_of(out@[q]))),
            kills_within_seq(*old(s), *s, o0),
            (noop ==> *s == *old(s) && *th == *old(th)),
            (trunc ==> *s == *old(s) && *th == *old(th)),
        decreases news@.len(),
    {
        let ghost k = out@.len() as int;
        let c_new = news.remove(0);
        proof {
            assert(n0.subrange(k, n0.len() as int)[0] == n0[k]);
            assert(news@ =~= n0.subrange(k + 1, n0.len() as int));
            lemma_sizes_ge(n0, k);
            if noop {
                assert(vtrees(n0).len() == vtrees(o0).len());
                assert(false);
            }
            if trunc {
                assert(false);
            }
        }
        let ghost s_pre = *s;
        match create(c_new, s, th, fuel) {
            Ok(p) => {
                let (t, h) = p;
                let pos = out.len();
                let ghost s_created = *s;
                s.insert_child(parent, pos, h);
                out.push(t);
                proof {
                    lemma_appended_trans(s_pre, s_created, *s);
                    lemma_appended_trans(*old(s), s_pre, *s);
                    assert forall|q: int| 0 <= q < out@.len() implies bounded(
                        #[trigger] out@[q],
                        s.nodes@.len() as int,
                    ) by {
                        if q < k {
                            lemma_bounded_weaken(
                                out@[q],
                                s_pre.nodes@.len() as int,
                                s.nodes@.len() as int,
                            );
                        }
                    }
                    assert(all_bounded(out@, s.nodes@.len() as int));
                    assert(all_materialized(out@));
                    assert forall|q: int|
                        o0.len() <= q < out@.len() implies root_of(#[trigger] out@[q]) >= old(
                        s,
                    ).nodes@.len() && s.alive(root_of(out@[q])) by {
                        if q < k {
                            assert(s_pre.alive(root_of(out@[q])));
                            assert(s.nodes@[root_of(out@[q]) as int] == s_pre.nodes@[root_of(
                                out@[q],
                            ) as int]);
                        }
                    }
                }
            }
            Err(er) => {
                proof {
                    if all_lazy_free(n0) {
                        assert(lazy_free(n0[k]));
                        assert(false);
                    }
                }
                return Err(er);
            }
        }
        }
    }
    let ghost s_grown = *s;
    let ghost d0 = olds@;
    proof {
        if trunc {
            assert(d0.take(0) =~= Seq::<VNode>::empty());
            assert(truncate_ops(parent, n0.len() as usize, Seq::<VNode>::empty())
                == Seq::<Op>::empty());
            assert(s.ops() =~= old(s).ops() + truncate_ops(
                parent,
                n0.len() as usize,
                d0.take(0),
            ));
        }
    }
    let mut destroyed: usize = 0;
    while destroyed < olds.len()
        invariant
            olds@ == d0,
            destroyed <= d0.len(),
            out@.len() == n0.len(),
            d0.len() == 0 || out@.len() + d0.len() == o0.len(),
            d0 =~= o0.subrange(o0.len() - d0.len(), o0.len() as int) || d0.len() == 0,
            appended(s_grown, *s),
            appended(*old(s), *s),
            s.nodes@.len() == s_grown.nodes@.len(),
            kills_within_seq(*old(s), *s, o0),
            (forall|q: int|
                o0.len() <= q < out@.len() ==> root_of(#[trigger] out@[q]) >= old(
                    s,
                ).nodes@.len() && s.alive(root_of(out@[q]))),
            forall|q: int| 0 <= q < destroyed ==> all_dead(#[trigger] d0[q], *s),
            (noop ==> *s == *old(s) && *th == *old(th)),
            (trunc ==> *th == *old(th) && s.nodes@.len() == old(s).nodes@.len() && s.ops()
                == old(s).ops() + truncate_ops(
                parent,
                n0.len() as usize,
                d0.take(destroyed as int),
            )),
        decreases d0.len() - destroyed,
    {
        proof {
            assert(d0[destroyed as int] == o0[o0.len() - d0.len() + destroyed]);
            assert(materialized(d0[destroyed as int]));
            assert(bounded(d0[destroyed as int], old(s).nodes@.len() as int));
            lemma_bounded_weaken(
                d0[destroyed as int],
                old(s).nodes@.len() as int,
                s.nodes@.len() as int,
            );
            if noop {
                assert(vtrees(n0).len() == vtrees(o0).len());
                assert(false);
            }
        }
        let ghost s_pre = *s;
        let pos = out.len();
        s.remove_child(parent, pos);
        let ghost s_removed = *s;
        destroy(&olds[destroyed], s);
        destroyed += 1;
        proof {
            lemma_appended_trans(s_pre, s_removed, *s);
            lemma_appended_trans(s_grown, s_pre, *s);
            lemma_appended_trans(*old(s), s_pre, *s);
            assert forall|q: int| 0 <= q < destroyed implies all_dead(#[trigger] d0[q], *s) by {
                if q < destroyed - 1 {
                    assert(d0[q] == o0[o0.len() - d0.len() + q]);
                    assert(materialized(d0[q]));
                    assert(bounded(d0[q], old(s).nodes@.len() as int));
                    lemma_bounded_weaken(
                        d0[q],
                        old(s).nodes@.len() as int,
                        s_pre.nodes@.len() as int,
                    );
                    lemma_all_dead_mono(d0[q], s_pre, *s);
                }
            }
            assert forall|j: int|
                0 <= j < old(s).nodes@.len() && old(s).nodes@[j] && !(#[trigger] s.nodes@[j])
                implies exists|q: int| 0 <= q < o0.len() && tree_has_handle(
                #[trigger] o0[q],
                j,
            ) by {
                if s_pre.nodes@[j] {
                    let ghost w = o0.len() - d0.len() + destroyed - 1;
                    assert(d0[destroyed - 1] == o0[w]);
                    assert(tree_has_handle(o0[w], j));
                    assert(w < o0.len() && tree_has_handle(o0[w], j));
                }
            }
            assert forall|q: int|
                o0.len() <= q < out@.len() implies root_of(#[trigger] out@[q]) >= old(
                s,
            ).nodes@.len() && s.alive(root_of(out@[q])) by {
                let ghost rt = root_of(out@[q]);
                assert(s_pre.alive(rt));
                if !s.nodes@[rt as int] {
                    let ghost w = o0.len() - d0.len() + destroyed - 1;
                    assert(d0[destroyed - 1] == o0[w]);
                    assert(tree_has_handle(o0[w], rt as int));
                    assert(bounded(o0[w], old(s).nodes@.len() as int));
                    lemma_tree_has_handle_bounded(o0[w], rt as int, old(s).nodes@.len() as int);
                    assert(false);
                }
            }
            if trunc {
                lemma_truncate_ops_snoc(
                    parent,
                    n0.len() as usize,
                    d0.take(destroyed - 1),
                    d0[destroyed - 1],
                );
                assert(d0.take(destroyed - 1).push(d0[destroyed - 1]) =~= d0.take(
                    destroyed as int,
                ));
                assert(s.ops() =~= old(s).ops() + truncate_ops(
                    parent,
                    n0.len() as usize,
                    d0.take(destroyed as int),
                ));
            }
        }
    }
    proof {
        lemma_vtrees(out@);
        assert(vtrees(out@) =~= vtrees(n0));
        assert forall|i: int|
            n0.len() <= i < o0.len() implies all_dead(#[trigger] o0[i], *s) by {
            assert(o0[i] == d0[i - n0.len()]);
        }
        if trunc {
            assert(d0.take(d0.len() as int) =~= d0);
            assert(d0 =~= o0.skip(n0.len() as int));
        }
    }
    Ok(out)
}

/// What keyed reconciliation promises for the i-th new entry, when keys
/// are unique on both sides: a key already present whose tree kind is
/// unchanged keeps the old entry's rendered node (identity is preserved
/// across reorder), and a key absent from the old set is created fresh —
/// never moved — and is still alive when the pass ends.
pub open spec fn keyed_entry_ok(
    n0: Seq<(String, VNode)>,
    o0: Seq<(String, VNode)>,
    entry: (String, VNode),
    s1: Surface,
    lo: int,
    i: int,
) -> bool {
    {
        let j = key_index(o0, n0[i].0@);
        &&& (j >= 0 && kinds_match(vtree(n0[i].1), vtree(o0[j].1)) && !(vtree(n0[i].1) is Lazy)
            ==> root_of(entry.1) == root_of(o0[j].1))
        &&& (j < 0 ==> root_of(entry.1) >= lo && s1.alive(root_of(entry.1)))
    }
}

/// Reconciles keyed children by key: each new entry patches the first
/// unconsumed old entry with its key (moving its rendered node to the
/// cursor when it is out of place) or is created and inserted at the
/// cursor; old entries whose key was never consumed are detached and
/// destroyed.  When a key occurs twice, only the first match is honoured
/// and later duplicates are treated as insertions.
#[verifier::loop_isolation(false)]
pub fn patch_keyed<R: Renderer>(
    new_ch: Vec<(String, VNode)>,
    old_ch: Vec<(String, VNode)>,
    parent: usize,
    s: &mut Surface,
    th: &mut R,
    fuel: u64,
) -> (r: Result<Vec<(String, VNode)>, PatchError>)
    requires
        all_materialized_keyed(old_ch@),
        all_bounded_keyed(old_ch@, old(s).nodes@.len() as int),
    ensures
        appended(*old(s), *final(s)),
        r matches Ok(out) ==> ({
            &&& out@.len() == new_ch@.len()
            &&& keyed_views(out@) == keyed_views(new_ch@)
            &&& all_materialized_keyed(out@)
            &&& all_bounded_keyed(out@, final(s).nodes@.len() as int)
            &&& (unique_keys(keys_of(new_ch@)) && unique_keys(keys_of(old_ch@)) ==> ({
                &&& (forall|i: int|
                    0 <= i < new_ch@.len() ==> #[trigger] keyed_entry_ok(
                        new_ch@,
                        old_ch@,
                        out@[i],
                        *final(s),
                        old(s).nodes@.len() as int,
                        i,
                    ))
                &&& (forall|j: int|
                    0 <= j < old_ch@.len() && key_index(new_ch@, (#[trigger] old_ch@[j]).0@) < 0
                        ==> all_dead(old_ch@[j].1, *final(s)))
            }))
        }),
        all_lazy_free_keyed(new_ch@) ==> r is Ok,
        (keyed_views(new_ch@) == keyed_views(old_ch@) && unique_keys(keys_of(old_ch@))
            && distinct_handles(roots_of_keyed(old_ch@)) && all_sane_keyed(old_ch@) ==> *final(s)
            == *old(s) && *final(th) == *old(th) && r is Ok),
        kills_within_keyed(*old(s), *final(s), old_ch@),
    decreases fuel, sizes_keyed(new_ch@), 2nat,
{
    let ghost n0 = new_ch@;
    let ghost o0 = old_ch@;
    let ghost unique = unique_keys(keys_of(n0)) && unique_keys(keys_of(o0));
    let ghost noop = keyed_views(n0) == keyed_views(o0) && unique_keys(keys_of(o0))
        && distinct_handles(roots_of_keyed(o0)) && all_sane_keyed(o0);
    proof {
        lemma_keyed_views(n0);
        lemma_keyed_views(o0);
        if noop {
            assert forall|i: int, j: int|
                0 <= i < j < n0.len() implies (#[trigger] keys_of(n0)[i]) != (#[trigger] keys_of(
                n0,
            )[j]) by {
                assert(keyed_views(n0)[i] == keyed_views(o0)[i]);
                assert(keyed_views(n0)[j] == keyed_views(o0)[j]);
                assert(keys_of(o0)[i] != keys_of(o0)[j]);
            }
            assert(unique_keys(keys_of(n0)));
        }
    }
    let mut slots: Vec<Option<(String, VNode)>> = Vec::new();
    let mut cur: Vec<usize> = Vec::new();
    let mut rem = old_ch;
    while rem.len() > 0
        invariant
            slots@.len() == cur@.len(),
            slots@.len() + rem@.len() == o0.len(),
            rem@ == o0.subrange(slots@.len() as int, o0.len() as int),
            forall|j: int| 0 <= j < slots@.len() ==> #[trigger] slots@[j] == Some(o0[j]),
            forall|j: int| 0 <= j < cur@.len() ==> #[trigger] cur@[j] == root_of(o0[j].1),
        decreases rem@.len(),
    {
        let ghost j = slots@.len() as int;
        let c = rem.remove(0);
        proof {
            assert(o0.subrange(j, o0.len() as int)[0] == o0[j]);
            assert(rem@ =~= o0.subrange(j + 1, o0.len() as int));
            assert(materialized(o0[j].1));
            lemma_materialized_root(c.1);
        }
        let hn = c.1.node();
        cur.push(hn.unwrap());
        slots.push(Some(c));
    }
    proof {
        if noop {
            assert(cur@ =~= roots_of_keyed(o0));
        }
    }
    let mut out: Vec<(String, VNode)> = Vec::new();
    let mut pending = new_ch;
    while pending.len() > 0
        invariant
            out@.len() + pending@.len() == n0.len(),
            pending@ == n0.subrange(out@.len() as int, n0.len() as int),
            slots@.len() == o0.len(),
            appended(*old(s), *s),
            forall|j: int|
                0 <= j < o0.len() && (#[trigger] slots@[j]) is Some ==> slots@[j] == Some(o0[j]),
            forall|j: int|
                0 <= j < o0.len() && (#[trigger] slots@[j]) is None ==> exists|i: int|
                    0 <= i < out@.len() && (#[trigger] n0[i]).0@ == o0[j].0@,
            forall|i: int|
                0 <= i < out@.len() ==> (#[trigger] out@[i]).0@ == n0[i].0@ && vtree(out@[i].1)
                    == vtree(n0[i].1),
            all_materialized_keyed(out@),
            all_bounded_keyed(out@, s.nodes@.len() as int),
            (unique ==> forall|i: int|
                0 <= i < out@.len() ==> #[trigger] keyed_entry_ok(
                    n0,
                    o0,
                    out@[i],
                    *s,
                    old(s).nodes@.len() as int,
                    i,
                )),
            kills_within_keyed(*old(s), *s, o0),
            (noop ==> ({
                &&& *s == *old(s)
                &&& *th == *old(th)
                &&& cur@ == roots_of_keyed(o0)
                &&& forall|j: int|
                    0 <= j < o0.len() ==> ((#[trigger] slots@[j]) is None <==> j < out@.len())
            })),
        decreases pending@.len(),
    {
        let ghost i = out@.len() as int;
        let (k, v) = pending.remove(0);
        proof {
            assert(n0.subrange(i, n0.len() as int)[0] == n0[i]);
            assert(pending@ =~= n0.subrange(i + 1, n0.len() as int));
            lemma_sizes_keyed_ge(n0, i);
            lemma_key_index(o0, k@);
            if noop {
                assert(keyed_views(n0)[i] == keyed_views(o0)[i]);
                assert(o0[i].0@ == k@);
                assert(slots@[i] is Some);
            }
        }
        let found = find_slot(&slots, &k);
        match found {
            Some(j) => {
                let ghost jj = j as int;
                proof {
                    assert(slots@[jj] == Some(o0[jj]));
                    assert(materialized(o0[jj].1));
                    assert(bounded(o0[jj].1, old(s).nodes@.len() as int));
                    lemma_bounded_weaken(
                        o0[jj].1,
                        old(s).nodes@.len() as int,
                        s.nodes@.len() as int,
                    );
                }
                let slot = &mut slots[j];
                let owned = slot.take().unwrap();
                let (okey, onode) = owned;
                proof {
                    lemma_materialized_root(onode);
                }
                let oldroot = onode.node().unwrap();
                let ghost s_pre = *s;
                match patch(v, onode, s, th, fuel) {
                    Ok(p) => {
                        let (t, h) = p;
                        let cursor = out.len();
                        match find_handle(&cur, oldroot) {
                            Some(pos) => {
                                if pos != cursor {
                                    proof {
                                        if noop {
                                            assert(jj == i) by {
                                                if jj < i {
                                                    assert(slots@[jj] is None);
                                                }
                                                if jj > i {
                                                    assert(keys_of(o0)[jj] == keys_of(o0)[i]);
                                                }
                                            }
                                            assert(cur@[i] == roots_of_keyed(o0)[i]);
                                            assert(roots_of_keyed(o0)[i] == root_of(o0[i].1));
                                            assert(pos as int == i) by {
                                                if (pos as int) < i {
                                                    assert(roots_of_keyed(o0)[pos as int]
                                                        == roots_of_keyed(o0)[i]);
                                                }
                                            }
                                            assert(false);
                                        }
                                    }
                                    let ghost s_pre2 = *s;
                                    s.move_child(parent, pos, cursor);
                                    proof {
                                        lemma_appended_trans(s_pre, s_pre2, *s);
                                    }
                                    cur.remove(pos);
                                    let mut tgt = cursor;
                                    if tgt > cur.len() {
                                        tgt = cur.len();
                                    }
                                    cur.insert(tgt, h);
                                } else {
                                    let cell = &mut cur[pos];
                                    *cell = h;
                                    proof {
                                        if noop {
                                            assert(cur@ =~= roots_of_keyed(o0));
                                        }
                                    }
                                }
                            }
                            None => {
                                proof {
                                    if noop {
                                        assert(jj == i) by {
                                            if jj < i {
                                                assert(slots@[jj] is None);
                                            }
                                            if jj > i {
                                                assert(keys_of(o0)[jj] == keys_of(o0)[i]);
                                            }
                                        }
                                        assert(cur@[i] == root_of(o0[i].1));
                                        assert(false);
                                    }
                                }
                                let mut tgt = cursor;
                                if tgt > cur.len() {
                                    tgt = cur.len();
                                }
                                cur.insert(tgt, h);
                            }
                        }
                        out.push((k, t));
                        proof {
                            lemma_appended_trans(*old(s), s_pre, *s);
                            assert forall|q: int| 0 <= q < out@.len() implies bounded(
                                (#[trigger] out@[q]).1,
                                s.nodes@.len() as int,
                            ) by {
                                if q < i {
                                    lemma_bounded_weaken(
                                        out@[q].1,
                                        s_pre.nodes@.len() as int,
                                        s.nodes@.len() as int,
                                    );
                                }
                            }
                            assert(all_bounded_keyed(out@, s.nodes@.len() as int));
                            assert(all_materialized_keyed(out@));
                            assert forall|j2: int|
                                0 <= j2 < old(s).nodes@.len() && old(s).nodes@[j2] && !(
                                #[trigger] s.nodes@[j2]) implies exists|q: int|
                                0 <= q < o0.len() && tree_has_handle((#[trigger] o0[q]).1, j2) by {
                                if s_pre.nodes@[j2] {
                                    assert(tree_has_handle(o0[jj].1, j2));
                                    assert(jj < o0.len() && tree_has_handle((o0[jj]).1, j2));
                                }
                            }
                            if unique {
                                assert forall|q: int| 0 <= q < out@.len() implies
                                    #[trigger] keyed_entry_ok(
                                    n0,
                                    o0,
                                    out@[q],
                                    *s,
                                    old(s).nodes@.len() as int,
                                    q,
                                ) by {
                                    if q == i {
                                        let ji = key_index(o0, n0[i].0@);
                                        lemma_key_index(o0, n0[i].0@);
                                        assert(jj == ji) by {
                                            assert(o0[jj].0@ == k@);
                                            if ji < jj {
                                                assert(keys_of(o0)[ji] == keys_of(o0)[jj]);
                                            }
                                            if ji > jj {
                                                assert(o0[ji].0@ == k@);
                                                assert(keys_of(o0)[ji] == keys_of(o0)[jj]);
                                            }
                                        }
                                        assert(root_of(out@[i].1) == h);
                                    } else {
                                        assert(keyed_entry_ok(
                                            n0,
                                            o0,
                                            out@[q],
                                            s_pre,
                                            old(s).nodes@.len() as int,
                                            q,
                                        ));
                                        let jq = key_index(o0, n0[q].0@);
                                        if jq < 0 {
                                            let rt = root_of(out@[q].1);
                                            assert(s_pre.alive(rt));
                                            if !s.nodes@[rt as int] {
                                                assert(tree_has_handle(o0[jj].1, rt as int));
                                                assert(bounded(
                                                    o0[jj].1,
                                                    old(s).nodes@.len() as int,
                                                ));
                                                lemma_tree_has_handle_bounded(
                                                    o0[jj].1,
                                                    rt as int,
                                                    old(s).nodes@.len() as int,
                                                );
                                                assert(false);
                                            }
                                        }
                                    }
                                }
                            }
                            if noop {
                                assert(*s == *old(s));
                                assert forall|jx: int|
                                    0 <= jx < o0.len() implies ((#[trigger] slots@[jx]) is None
                                    <==> jx < out@.len()) by {
                                    if jx != jj {
                                    }
                                }
                            }
                        }
                    }
                    Err(er) => {
                        proof {
                            if all_lazy_free_keyed(n0) {
                                assert(lazy_free(n0[i].1));
                                assert(false);
                            }
                            if noop {
                                assert(jj == i) by {
                                    if jj < i {
                                        assert(slots@[jj] is None);
                                    }
                                    if jj > i {
                                        assert(keys_of(o0)[jj] == keys_of(o0)[i]);
                                    }
                                }
                                assert(vtree(n0[i].1) == vtree(o0[i].1));
                                assert(sane(o0[i].1));
                                assert(false);
                            }
                            assert forall|j2: int|
                                0 <= j2 < old(s).nodes@.len() && old(s).nodes@[j2] && !(
                                #[trigger] s.nodes@[j2]) implies exists|q: int|
                                0 <= q < o0.len() && tree_has_handle((#[trigger] o0[q]).1, j2) by {
                                if s_pre.nodes@[j2] {
                                    assert(tree_has_handle(o0[jj].1, j2));
                                    assert(jj < o0.len() && tree_has_handle((o0[jj]).1, j2));
                                }
                            }
                        }
                        return Err(er);
                    }
                }
            }
            None => {
                proof {
                    if noop {
                        assert(slots@[i] matches Some(p2) && p2.0@ == k@);
                        assert(false);
                    }
                }
                let ghost s_pre = *s;
                match create(v, s, th, fuel) {
                    Ok(p) => {
                        let (t, h) = p;
                        let cursor = out.len();
                        let ghost s_created = *s;
                        s.insert_child(parent, cursor, h);
                        let mut tgt = cursor;
                        if tgt > cur.len() {
                            tgt = cur.len();
                        }
                        cur.insert(tgt, h);
                        out.push((k, t));
                        proof {
                            lemma_appended_trans(s_pre, s_created, *s);
                            lemma_appended_trans(*old(s), s_pre, *s);
                            assert forall|q: int| 0 <= q < out@.len() implies bounded(
                                (#[trigger] out@[q]).1,
                                s.nodes@.len() as int,
                            ) by {
                                if q < i {
                                    lemma_bounded_weaken(
                                        out@[q].1,
                                        s_pre.nodes@.len() as int,
                                        s.nodes@.len() as int,
                                    );
                                }
                            }
                            assert(all_bounded_keyed(out@, s.nodes@.len() as int));
                            assert(all_materialized_keyed(out@));
                            assert forall|j2: int|
                                0 <= j2 < old(s).nodes@.len() && old(s).nodes@[j2] && !(
                                #[trigger] s.nodes@[j2]) implies exists|q: int|
                                0 <= q < o0.len() && tree_has_handle((#[trigger] o0[q]).1, j2) by {
                                if s_pre.nodes@[j2] {
                                    assert(s.nodes@[j2] == s_pre.nodes@[j2]);
                                    assert(false);
                                }
                            }
                            if unique {
                                assert forall|q: int| 0 <= q < out@.len() implies
                                    #[trigger] keyed_entry_ok(
                                    n0,
                                    o0,
                                    out@[q],
                                    *s,
                                    old(s).nodes@.len() as int,
                                    q,
                                ) by {
                                    if q == i {
                                        let ji = key_index(o0, n0[i].0@);
                                        lemma_key_index(o0, n0[i].0@);
                                        if ji >= 0 {
                                            assert(o0[ji].0@ == k@);
                                            assert(slots@[ji] is None);
                                            let ghost ix = choose|ix: int|
                                                0 <= ix < i && (#[trigger] n0[ix]).0@ == o0[ji].0@;
                                            assert(keys_of(n0)[ix] == keys_of(n0)[i]);
                                            assert(false);
                                        }
                                        assert(root_of(out@[i].1) == h);
                                        assert(h >= old(s).nodes@.len());
                                        assert(s.alive(h));
                                    } else {
                                        assert(keyed_entry_ok(
                                            n0,
                                            o0,
                                            out@[q],
                                            s_pre,
                                            old(s).nodes@.len() as int,
                                            q,
                                        ));
                                        let jq = key_index(o0, n0[q].0@);
                                        if jq < 0 {
                                            let rt = root_of(out@[q].1);
                                            assert(s_pre.alive(rt));
                                            assert(s.nodes@[rt as int] == s_pre.nodes@[rt as int]);
                                        }
                                    }
                                }
                            }
                        }
                    }
                    Err(er) => {
                        proof {
                            if all_lazy_free_keyed(n0) {
                                assert(lazy_free(n0[i].1));
                                assert(false);
                            }
                        }
                        return Err(er);
                    }
                }
            }
        }
    }
    let ghost slots1 = slots@;
    let ghost s_phase2 = *s;
    let mut j: usize = 0;
    while j < slots.len()
        invariant
            slots@.len() == o0.len(),
            slots1.len() == o0.len(),
            j <= o0.len(),
            appended(s_phase2, *s),
            appended(*old(s), *s),
            s.nodes@.len() == s_phase2.nodes@.len(),
            forall|q: int| j <= q < o0.len() ==> #[trigger] slots@[q] == slots1[q],
            forall|q: int|
                0 <= q < o0.len() && (#[trigger] slots1[q]) is Some ==> slots1[q] == Some(o0[q]),
            forall|q: int|
                0 <= q < j && (#[trigger] slots1[q]) is Some ==> all_dead(o0[q].1, *s),
            kills_within_keyed(*old(s), *s, o0),
            (unique ==> forall|i: int|
                0 <= i < out@.len() ==> #[trigger] keyed_entry_ok(
                    n0,
                    o0,
                    out@[i],
                    *s,
                    old(s).nodes@.len() as int,
                    i,
                )),
            (noop ==> *s == *old(s) && *th == *old(th) && forall|q: int|
                0 <= q < o0.len() ==> !((#[trigger] slots1[q]) is Some)),
        decreases o0.len() - j,
    {
        let ghost s_pre = *s;
        let slot = &mut slots[j];
        let taken = slot.take();
        match taken {
            Some(c) => {
                proof {
                    assert(slots1[j as int] is Some);
                    assert(c == o0[j as int]);
                    assert(materialized(c.1));
                    lemma_materialized_root(c.1);
                    assert(bounded(c.1, old(s).nodes@.len() as int));
                    lemma_bounded_weaken(c.1, old(s).nodes@.len() as int, s.nodes@.len() as int);
                    if noop {
                        assert(false);
                    }
                }
                let hroot = c.1.node().unwrap();
                match find_handle(&cur, hroot) {
                    Some(p) => {
                        let ghost s_a = *s;
                        s.remove_child(parent, p);
                        cur.remove(p);
                        proof {
                            lemma_appended_trans(s_pre, s_a, *s);
                        }
                    }
                    None => {}
                }
                let ghost s_b = *s;
                destroy(&c.1, s);
                proof {
                    lemma_appended_trans(s_pre, s_b, *s);
                    lemma_appended_trans(s_phase2, s_pre, *s);
                    lemma_appended_trans(*old(s), s_pre, *s);
                    assert forall|j2: int|
                        0 <= j2 < old(s).nodes@.len() && old(s).nodes@[j2] && !(
                        #[trigger] s.nodes@[j2]) implies exists|q: int|
                        0 <= q < o0.len() && tree_has_handle((#[trigger] o0[q]).1, j2) by {
                        if s_pre.nodes@[j2] {
                            assert(tree_has_handle(o0[j as int].1, j2));
                            assert(j < o0.len() && tree_has_handle((o0[j as int]).1, j2));
                        }
                    }
                    if unique {
                        assert forall|i: int| 0 <= i < out@.len() implies
                            #[trigger] keyed_entry_ok(
                            n0,
                            o0,
                            out@[i],
                            *s,
                            old(s).nodes@.len() as int,
                            i,
                        ) by {
                            assert(keyed_entry_ok(
                                n0,
                                o0,
                                out@[i],
                                s_pre,
                                old(s).nodes@.len() as int,
                                i,
                            ));
                            let jq = key_index(o0, n0[i].0@);
                            if jq < 0 {
                                let rt = root_of(out@[i].1);
                                assert(s_pre.alive(rt));
                                if !s.nodes@[rt as int] {
                                    assert(tree_has_handle(o0[j as int].1, rt as int));
                                    assert(bounded(o0[j as int].1, old(s).nodes@.len() as int));
                                    lemma_tree_has_handle_bounded(
                                        o0[j as int].1,
                                        rt as int,
                                        old(s).nodes@.len() as int,
                                    );
                                    assert(false);
                                }
                            }
                        }
                    }
                    assert forall|q: int|
                        0 <= q < j + 1 && (#[trigger] slots1[q]) is Some implies all_dead(
                        o0[q].1,
                        *s,
                    ) by {
                        if q < j {
                            assert(materialized(o0[q].1));
                            assert(bounded(o0[q].1, s_pre.nodes@.len() as int)) by {
                                lemma_bounded_weaken(
                                    o0[q].1,
                                    old(s).nodes@.len() as int,
                                    s_pre.nodes@.len() as int,
                                );
                            }
                            lemma_all_dead_mono(o0[q].1, s_pre, *s);
                        }
                    }
                }
            }
            None => {}
        }
        j += 1;
    }
    proof {
        lemma_keyed_views(out@);
        assert(keyed_views(out@) =~= keyed_views(n0));
        if unique {
            assert forall|q: int|
                0 <= q < o0.len() && key_index(n0, (#[trigger] o0[q]).0@) < 0 implies all_dead(
                o0[q].1,
                *s,
            ) by {
                lemma_key_index(n0, o0[q].0@);
                if slots1[q] is None {
                    let ghost ix = choose|ix: int|
                        0 <= ix < n0.len() && (#[trigger] n0[ix]).0@ == o0[q].0@;
                    assert(n0[ix].0@ != o0[q].0@);
                    assert(false);
                }
            }
        }
    }
    Ok(out)
}

/// Reconciles a new tree against the old tree that owns the live
/// rendering.  The old tree is consumed: its handle is either carried over
/// into the returned tree or destroyed.  Returns the tree to retain for
/// the next pass and the handle that now stands for it.
///
/// What is promised, beyond preserving the virtual content (`p.0@ ==
/// new@`): the returned handle is the old root's or a fresh one, never a
/// third; a kind-matching non-deferred root keeps the old handle; a kind
/// mismatch destroys every handle of the old tree — listener releases and
/// all, as `destroy_ops` spells out — before anything of the new tree is
/// created, and materializes the new root fresh and alive; a deferred root
/// with an unchanged cache key reuses cache and handle untouched and asks
/// the surface for nothing; patching a tree against a well-kept identical
/// one asks the surface for nothing at all; and no node outside the old
/// tree is ever destroyed (`kills_within`).
pub fn patch<R: Renderer>(new: VNode, old_t: VNode, s: &mut Surface, th: &mut R, fuel: u64) -> (r:
    Result<(VNode, usize), PatchError>)
    requires
        materialized(old_t),
        bounded(old_t, old(s).nodes@.len() as int),
    ensures
        appended(*old(s), *final(s)),
        r matches Ok(p) ==> ({
            &&& p.0@ == new@
            &&& root_handle(p.0) == Some(p.1)
            &&& p.1 < final(s).nodes@.len()
            &&& materialized(p.0)
            &&& bounded(p.0, final(s).nodes@.len() as int)
            &&& (p.1 == root_of(old_t) || p.1 >= old(s).nodes@.len())
            &&& (kinds_match(new@, old_t@) && !(new@ is Lazy) ==> p.1 == root_of(old_t))
            &&& (!kinds_match(new@, old_t@) ==> p.1 >= old(s).nodes@.len() && final(s).alive(
                p.1,
            ) && all_dead(old_t, *final(s)))
        }),
        lazy_free(new) ==> r is Ok,
        (new is Lazy && old_t is Lazy && new->Lazy_0.hash == old_t->Lazy_0.hash ==> ({
            &&& *final(s) == *old(s)
            &&& *final(th) == *old(th)
            &&& r matches Ok(p) && (p.1 == root_of(old_t) && p.0 is Lazy && p.0->Lazy_0.vnode
                == old_t->Lazy_0.vnode)
        })),
        (vtree(new) == vtree(old_t) && sane(old_t) ==> *final(s) == *old(s) && *final(th) == *old(
            th,
        ) && (r matches Ok(p) && p.1 == root_of(old_t))),
        (new@ is Text && old_t@ is Text && new@->Text_0 != old_t@->Text_0 ==> final(s).nodes@
            == old(s).nodes@ && final(s).ops() == old(s).ops().push(
            (Op::SetText { node: root_of(old_t), text: new@->Text_0 }),
        )),
        (!kinds_match(new@, old_t@) ==> (old(s).ops() + destroy_ops(old_t)).is_prefix_of(
            final(s).ops(),
        )),
        (!kinds_match(new@, old_t@) && !(new@ is Lazy) ==> (r matches Ok(p) ==> final(s).ops()[
            old(s).ops().len() + destroy_ops(old_t).len() as int
        ] == root_create_op(new@, p.1))),
        kills_within(*old(s), *final(s), old_t),
    decreases fuel, size(new), 1nat,
{
    let kind_ok = same_kind(&new, &old_t);
    if !kind_ok {
        proof {
            if vtree(new) == vtree(old_t) {
                assert(kinds_match(new@, old_t@));
            }
        }
        destroy(&old_t, s);
        let ghost s_d = *s;
        match create(new, s, th, fuel) {
            Ok(p) => {
                proof {
                    lemma_appended_trans(*old(s), s_d, *s);
                    lemma_all_dead_mono(old_t, s_d, *s);
                    assert(s_d.ops() =~= s.ops().subrange(0, s_d.ops().len() as int));
                    assert((old(s).ops() + destroy_ops(old_t)).is_prefix_of(s.ops()));
                    assert forall|j: int|
                        0 <= j < old(s).nodes@.len() && old(s).nodes@[j] && !(
                        #[trigger] s.nodes@[j]) implies tree_has_handle(old_t, j) by {
                        assert(s.nodes@[j] == s_d.nodes@[j]);
                    }
                }
                Ok(p)
            }
            Err(er) => {
                proof {
                    lemma_appended_trans(*old(s), s_d, *s);
                    assert(s_d.ops() =~= s.ops().subrange(0, s_d.ops().len() as int));
                    assert((old(s).ops() + destroy_ops(old_t)).is_prefix_of(s.ops()));
                    assert forall|j: int|
                        0 <= j < old(s).nodes@.len() && old(s).nodes@[j] && !(
                        #[trigger] s.nodes@[j]) implies tree_has_handle(old_t, j) by {
                        assert(s.nodes@[j] == s_d.nodes@[j]);
                    }
                }
                Err(er)
            }
        }
    } else {
        match (new, old_t) {
            (VNode::Text { text, handle }, VNode::Text { text: otext, handle: ohandle }) => {
                let h = ohandle.unwrap();
                if !(text == otext) {
                    s.set_text(h, &text);
                }
                let t = VNode::Text { text, handle: Some(h) };
                proof {
                    assert(kills_within(*old(s), *s, old_t));
                }
                Ok((t, h))
            }
            (VNode::Elem(e), VNode::Elem(oe)) => {
                let Element { ns, tag, attributes, listeners, children, handle } = e;
                let h = oe.handle.unwrap();
                proof {
                    if vtree(new) == vtree(old_t) && sane(old_t) {
                        assert(attr_views(attributes@) == attr_views(oe.attributes@));
                        assert(unique_keys(attr_name_seq(oe.attributes@)));
                        assert(listener_views(listeners@) == listener_views(oe.listeners@));
                        assert(unique_keys(listener_event_seq(oe.listeners@)));
                    }
                }
                patch_attrs(h, &attributes, &oe.attributes, s);
                let ghost s_attrs = *s;
                patch_listeners(h, &listeners, &oe.listeners, s);
                let ghost s_lis = *s;
                proof {
                    lemma_appended_trans(*old(s), s_attrs, *s);
                }
                let children2 = match (children, oe.children) {
                    (Children::NonKeyed(nv), Children::NonKeyed(ov)) => {
                        proof {
                            assert(size(new) == 1 + sizes(nv@));
                            assert(all_materialized(ov@));
                            assert(all_bounded(ov@, old(s).nodes@.len() as int));
                            if vtree(new) == vtree(old_t) && sane(old_t) {
                                assert(vtrees(nv@) == vtrees(ov@));
                                assert(all_sane(ov@));
                            }
                        }
                        match patch_nonkeyed(nv, ov, h, s, th, fuel) {
                            Ok(o) => {
                                proof {
                                    assert forall|j: int|
                                        0 <= j < old(s).nodes@.len() && old(s).nodes@[j] && !(
                                        #[trigger] s.nodes@[j]) implies tree_has_handle(
                                        old_t,
                                        j,
                                    ) by {
                                        assert(s_lis.nodes@[j]);
                                        let w = choose|q: int|
                                            0 <= q < ov@.len() && tree_has_handle(
                                                #[trigger] ov@[q],
                                                j,
                                            );
                                        assert(tree_has_handle(ov@[w], j));
                                    }
                                }
                                Children::NonKeyed(o)
                            }
                            Err(er) => {
                                proof {
                                    lemma_appended_trans(*old(s), s_lis, *s);
                                    if lazy_free(new) {
                                        assert(all_lazy_free(nv@));
                                        assert(false);
                                    }
                                }
                                proof {
                                    assert forall|j: int|
                                        0 <= j < old(s).nodes@.len() && old(s).nodes@[j] && !(
                                        #[trigger] s.nodes@[j]) implies tree_has_handle(
                                        old_t,
                                        j,
                                    ) by {
                                        assert(s_lis.nodes@[j]);
                                        let w = choose|q: int|
                                            0 <= q < ov@.len() && tree_has_handle(
                                                #[trigger] ov@[q],
                                                j,
                                            );
                                        assert(tree_has_handle(ov@[w], j));
                                    }
                                }
                                return Err(er);
                            }
                        }
                    }
                    (Children::Keyed(nk), Children::Keyed(ok_)) => {
                        proof {
                            assert(size(new) == 1 + sizes_keyed(nk@));
                            assert(all_materialized_keyed(ok_@));
                            assert(all_bounded_keyed(ok_@, old(s).nodes@.len() as int));
                            if vtree(new) == vtree(old_t) && sane(old_t) {
                                assert(keyed_views(nk@) == keyed_views(ok_@));
                                assert(unique_keys(keys_of(ok_@)));
                                assert(distinct_handles(roots_of_keyed(ok_@)));
                                assert(all_sane_keyed(ok_@));
                            }
                        }
                        match patch_keyed(nk, ok_, h, s, th, fuel) {
                            Ok(o) => {
                                proof {
                                    assert forall|j: int|
                                        0 <= j < old(s).nodes@.len() && old(s).nodes@[j] && !(
                                        #[trigger] s.nodes@[j]) implies tree_has_handle(
                                        old_t,
                                        j,
                                    ) by {
                                        assert(s_lis.nodes@[j]);
                                        let w = choose|q: int|
                                            0 <= q < ok_@.len() && tree_has_handle(
                                                (#[trigger] ok_@[q]).1,
                                                j,
                                            );
                                        assert(tree_has_handle(ok_@[w].1, j));
                                    }
                                }
                                Children::Keyed(o)
                            }
                            Err(er) => {
                                proof {
                                    lemma_appended_trans(*old(s), s_lis, *s);
                                    if lazy_free(new) {
                                        assert(all_lazy_free_keyed(nk@));
                                        assert(false);
                                    }
                                }
                                proof {
                                    assert forall|j: int|
                                        0 <= j < old(s).nodes@.len() && old(s).nodes@[j] && !(
                                        #[trigger] s.nodes@[j]) implies tree_has_handle(
                                        old_t,
                                        j,
                                    ) by {
                                        assert(s_lis.nodes@[j]);
                                        let w = choose|q: int|
                                            0 <= q < ok_@.len() && tree_has_handle(
                                                (#[trigger] ok_@[q]).1,
                                                j,
                                            );
                                        assert(tree_has_handle(ok_@[w].1, j));
                                    }
                                }
                                return Err(er);
                            }
                        }
                    }
                    (Children::NonKeyed(nv), Children::Keyed(ok_)) => {
                        proof {
                            assert(size(new) == 1 + sizes(nv@));
                            if vtree(new) == vtree(old_t) {
                                assert(false);
                            }
                        }
                        let mut di: usize = 0;
                        while di < ok_.len()
                            invariant
                                di <= ok_@.len(),
                                appended(s_lis, *s),
                                all_materialized_keyed(ok_@),
                                all_bounded_keyed(ok_@, old(s).nodes@.len() as int),
                                s_lis.nodes@.len() == old(s).nodes@.len(),
                                appended(*old(s), *s),
                                kills_within(*old(s), *s, old_t),
                                old_t matches VNode::Elem(oe2) && oe2.children matches
                                    Children::Keyed(v2) && v2@ == ok_@,
                            decreases ok_@.len() - di,
                        {
                            proof {
                                assert(materialized(ok_@[di as int].1));
                                lemma_bounded_weaken(
                                    ok_@[di as int].1,
                                    old(s).nodes@.len() as int,
                                    s.nodes@.len() as int,
                                );
                            }
                            let ghost s_pre = *s;
                            s.remove_child(h, 0);
                            let ghost s_r = *s;
                            destroy(&ok_[di].1, s);
                            proof {
                                lemma_appended_trans(s_pre, s_r, *s);
                                lemma_appended_trans(s_lis, s_pre, *s);
                                lemma_appended_trans(*old(s), s_pre, *s);
                                assert forall|j: int|
                                    0 <= j < old(s).nodes@.len() && old(s).nodes@[j] && !(
                                    #[trigger] s.nodes@[j]) implies tree_has_handle(old_t, j) by {
                                    if s_pre.nodes@[j] {
                                        assert(tree_has_handle(ok_@[di as int].1, j));
                                        assert(di < ok_@.len());
                                        assert(exists|q: int|
                                            0 <= q < ok_@.len() && tree_has_handle(
                                                (#[trigger] ok_@[q]).1,
                                                j,
                                            ));
                                        assert(tree_has_handle(old_t, j));
                                    }
                                }
                            }
                            di += 1;
                        }
                        let ghost s_destroyed = *s;
                        match create_children(nv, h, s, th, fuel) {
                            Ok(o) => {
                                proof {
                                    assert forall|j: int|
                                        0 <= j < old(s).nodes@.len() && old(s).nodes@[j] && !(
                                        #[trigger] s.nodes@[j]) implies tree_has_handle(
                                        old_t,
                                        j,
                                    ) by {
                                        assert(s.nodes@[j] == s_destroyed.nodes@[j]);
                                    }
                                }
                                Children::NonKeyed(o)
                            }
                            Err(er) => {
                                proof {
                                    lemma_appended_trans(*old(s), s_lis, *s);
                                    if lazy_free(new) {
                                        assert(all_lazy_free(nv@));
                                        assert(false);
                                    }
                                    assert forall|j: int|
                                        0 <= j < old(s).nodes@.len() && old(s).nodes@[j] && !(
                                        #[trigger] s.nodes@[j]) implies tree_has_handle(
                                        old_t,
                                        j,
                                    ) by {
                                        assert(s.nodes@[j] == s_destroyed.nodes@[j]);
                                    }
                                }
                                return Err(er);
                            }
                        }
                    }
                    (Children::Keyed(nk), Children::NonKeyed(ov)) => {
                        proof {
                            assert(size(new) == 1 + sizes_keyed(nk@));
                            if vtree(new) == vtree(old_t) {
                                assert(false);
                            }
                        }
                        let mut di: usize = 0;
                        while di < ov.len()
                            invariant
                                di <= ov@.len(),
                                appended(s_lis, *s),
                                all_materialized(ov@),
                                all_bounded(ov@, old(s).nodes@.len() as int),
                                s_lis.nodes@.len() == old(s).nodes@.len(),
                                appended(*old(s), *s),
                                kills_within(*old(s), *s, old_t),
                                old_t matches VNode::Elem(oe2) && oe2.children matches
                                    Children::NonKeyed(v2) && v2@ == ov@,
                            decreases ov@.len() - di,
                        {
                            proof {
                                assert(materialized(ov@[di as int]));
                                lemma_bounded_weaken(
                                    ov@[di as int],
                                    old(s).nodes@.len() as int,
                                    s.nodes@.len() as int,
                                );
                            }
                            let ghost s_pre = *s;
                            s.remove_child(h, 0);
                            let ghost s_r = *s;
                            destroy(&ov[di], s);
                            proof {
                                lemma_appended_trans(s_pre, s_r, *s);
                                lemma_appended_trans(s_lis, s_pre, *s);
                                lemma_appended_trans(*old(s), s_pre, *s);
                                assert forall|j: int|
                                    0 <= j < old(s).nodes@.len() && old(s).nodes@[j] && !(
                                    #[trigger] s.nodes@[j]) implies tree_has_handle(old_t, j) by {
                                    if s_pre.nodes@[j] {
                                        assert(tree_has_handle(ov@[di as int], j));
                                        assert(di < ov@.len());
                                        assert(exists|q: int|
                                            0 <= q < ov@.len() && tree_has_handle(
                                                #[trigger] ov@[q],
                                                j,
                                            ));
                                        assert(tree_has_handle(old_t, j));
                                    }
                                }
                            }
                            di += 1;
                        }
                        let ghost s_destroyed = *s;
                        match create_keyed_children(nk, h, s, th, fuel) {
                            Ok(o) => {
                                proof {
                                    assert forall|j: int|
                                        0 <= j < old(s).nodes@.len() && old(s).nodes@[j] && !(
                                        #[trigger] s.nodes@[j]) implies tree_has_handle(
                                        old_t,
                                        j,
                                    ) by {
                                        assert(s.nodes@[j] == s_destroyed.nodes@[j]);
                                    }
                                }
                                Children::Keyed(o)
                            }
                            Err(er) => {
                                proof {
                                    lemma_appended_trans(*old(s), s_lis, *s);
                                    if lazy_free(new) {
                                        assert(all_lazy_free_keyed(nk@));
                                        assert(false);
                                    }
                                    assert forall|j: int|
                                        0 <= j < old(s).nodes@.len() && old(s).nodes@[j] && !(
                                        #[trigger] s.nodes@[j]) implies tree_has_handle(
                                        old_t,
                                        j,
                                    ) by {
                                        assert(s.nodes@[j] == s_destroyed.nodes@[j]);
                                    }
                                }
                                return Err(er);
                            }
                        }
                    }
                };
                let t = VNode::Elem(
                    Element { ns, tag, attributes, listeners, children: children2, handle: Some(h) },
                );
                proof {
                    lemma_appended_trans(*old(s), s_lis, *s);
                    assert(t@ =~= new@);
                }
                Ok((t, h))
            }
            (
                VNode::List { items, handle },
                VNode::List { items: oitems, handle: ohandle },
            ) => {
                let h = ohandle.unwrap();
                proof {
                    assert(size(new) == 1 + sizes(items@));
                    assert(all_materialized(oitems@));
                    assert(all_bounded(oitems@, old(s).nodes@.len() as int));
                    if vtree(new) == vtree(old_t) && sane(old_t) {
                        assert(vtrees(items@) == vtrees(oitems@));
                        assert(all_sane(oitems@));
                    }
                }
                let rr = patch_nonkeyed(items, oitems, h, s, th, fuel);
                proof {
                    assert forall|j: int|
                        0 <= j < old(s).nodes@.len() && old(s).nodes@[j] && !(
                        #[trigger] s.nodes@[j]) implies tree_has_handle(old_t, j) by {
                        let w = choose|q: int|
                            0 <= q < oitems@.len() && tree_has_handle(#[trigger] oitems@[q], j);
                        assert(tree_has_handle(oitems@[w], j));
                    }
                }
                match rr {
                    Ok(o) => {
                        let t = VNode::List { items: o, handle: Some(h) };
                        proof {
                            assert(t@ =~= new@);
                        }
                        Ok((t, h))
                    }
                    Err(er) => {
                        proof {
                            if lazy_free(new) {
                                assert(all_lazy_free(items@));
                                assert(false);
                            }
                        }
                        Err(er)
                    }
                }
            }
            (VNode::Lazy(nl), VNode::Lazy(ol)) => {
                let mut nl2 = nl;
                let mut ol2 = ol;
                proof {
                    assert(size(new) == 1 + lazy_size(nl));
                }
                match nl2.patch(&mut ol2, s, th, fuel) {
                    Ok(h) => {
                        let t = VNode::Lazy(nl2);
                        Ok((t, h))
                    }
                    Err(er) => {
                        proof {
                            if nl.hash == ol.hash {
                                assert(false);
                            }
                            if vtree(new) == vtree(old_t) {
                                assert(false);
                            }
                        }
                        Err(er)
                    }
                }
            }
            _ => {
                proof {
                    assert(false);
                }
                Err(PatchError::DepthExceeded)
            }
        }
    }
}

} // verus!

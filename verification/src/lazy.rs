//! The memoization wrapper for deferred subtrees.
//!
//! A `Lazy` names a host thunk (`thunk`) that can render a subtree, carries
//! the chain of message transforms to apply to whatever that thunk yields
//! (`maps`), and caches a content hash: re-rendering is skipped whenever the
//! hash is unchanged between two reconciliation passes.  The hash is built
//! with the same hash function throughout, so equal inputs rendered by the
//! same thunk always produce equal hashes within and across passes.

use vstd::prelude::*;
use crate::reconcile::{appended, create, kills_within, patch, preserves_existing, PatchError};
use crate::surface::Surface;
use crate::vnode::{
    bounded, handles_from, lazy_size, lemma_materialized_root, lemma_root_bounded, materialized,
    root_handle, root_of, tree_has_handle, VNode,
};

verus! {

/// The 64-bit hash that `fxhash` assigns to the pair `(a, b)`: a fixed
/// function of the two words alone (the hasher starts from a constant seed
/// and mixes one 64-bit word at a time).
pub uninterp spec fn fx_pair(a: u64, b: u64) -> u64;

/// Relies on fxhash::hash64: hashing a `(u64, u64)` pair mixes exactly the
/// two words into a hasher seeded with a constant, so the result is a
/// function of the two words alone.
#[verifier::external_body]
pub fn fx_hash_pair(a: u64, b: u64) -> (r: u64)
    ensures
        r == fx_pair(a, b),
{
    fxhash::hash64(&(a, b))
}

/// A deferred subtree: `hash` is the memoization key, `thunk` names the host
/// render thunk, `maps` is the transform chain pending on whatever the thunk
/// renders, and `vnode` is the cached rendered subtree once one exists.
pub struct Lazy {
    pub hash: u64,
    pub thunk: u64,
    pub maps: Vec<u64>,
    pub vnode: Option<Box<VNode>>,
}

impl Lazy {
    /// Wraps a thunk over one hashed input.  The cache key mixes the input's
    /// hash with the thunk's identity, so a different input or a different
    /// thunk invalidates the cache.
    pub fn new(input_hash: u64, view: u64) -> (r: Lazy)
        ensures
            r.hash == fx_pair(input_hash, view),
            r.thunk == view,
            r.maps@ == Seq::<u64>::empty(),
            r.vnode is None,
    {
        let hash = fx_hash_pair(input_hash, view);
        Lazy { hash, thunk: view, maps: Vec::new(), vnode: None }
    }

    /// Wraps a thunk over two hashed inputs (a value and an extra argument).
    pub fn new_with(input_hash: u64, arg_hash: u64, view: u64) -> (r: Lazy)
        ensures
            r.hash == fx_pair(fx_pair(input_hash, arg_hash), view),
            r.thunk == view,
            r.maps@ == Seq::<u64>::empty(),
            r.vnode is None,
    {
        let both = fx_hash_pair(input_hash, arg_hash);
        let hash = fx_hash_pair(both, view);
        Lazy { hash, thunk: view, maps: Vec::new(), vnode: None }
    }

    /// Appends transform `m` to the pending chain and mixes it into the
    /// cache key, so a subtree mapped by a different transform is a
    /// different cache entry.  A cached rendering, if present, is mapped
    /// along.
    pub fn do_map(self, m: u64) -> (r: Lazy)
        ensures
            r.hash == fx_pair(self.hash, m),
            r.thunk == self.thunk,
            r.maps@ == self.maps@ + seq![m],
            (self.vnode is None ==> r.vnode is None),
            (self.vnode is Some ==> r.vnode is Some && crate::vnode::vtree(*(r.vnode->Some_0))
                == crate::vnode::tree_map(crate::vnode::vtree(*(self.vnode->Some_0)), m)
                && root_handle(*(r.vnode->Some_0)) == root_handle(*(self.vnode->Some_0))),
            root_handle(VNode::Lazy(r)) == root_handle(VNode::Lazy(self)),
            crate::vnode::vtree(VNode::Lazy(r)) == crate::vnode::tree_map(
                crate::vnode::vtree(VNode::Lazy(self)),
                m,
            ),
        decreases crate::vnode::lazy_size(self),
    {
        let Lazy { hash, thunk, mut maps, vnode } = self;
        let hash2 = fx_hash_pair(hash, m);
        maps.push(m);
        let vnode2 = match vnode {
            Some(b) => Some(Box::new((*b).do_map(m))),
            None => None,
        };
        proof {
            assert(self.maps@.push(m) =~= self.maps@ + seq![m]);
            assert(crate::vnode::chain_hash(hash, seq![m]) == fx_pair(hash, m)) by {
                reveal_with_fuel(crate::vnode::chain_hash, 2);
                assert(seq![m].drop_first() =~= Seq::<u64>::empty());
            }
        }
        Lazy { hash: hash2, thunk, maps, vnode: vnode2 }
    }

    /// Materializes the deferred subtree: renders it once through the
    /// host's thunk (there is no prior cache), applies the pending
    /// transform chain, creates the rendering, and stores it as the cache.
    /// The cache key is untouched.
    pub fn create<R: Renderer>(&mut self, s: &mut Surface, th: &mut R, fuel: u64) -> (r: Result<
        usize,
        PatchError,
    >)
        ensures
            appended(*old(s), *final(s)),
            preserves_existing(*old(s), *final(s)),
            final(self).hash == old(self).hash,
            final(self).thunk == old(self).thunk,
            final(self).maps@ == old(self).maps@,
            r matches Ok(h) ==> ({
                &&& final(self).vnode matches Some(b) && materialized(*b) && root_handle(*b)
                    == Some(h) && bounded(*b, final(s).nodes@.len() as int) && handles_from(
                    *b,
                    old(s).nodes@.len() as int,
                )
                &&& old(s).nodes@.len() <= h < final(s).nodes@.len()
                &&& final(s).alive(h)
            }),
            fuel == 0 ==> r == Err::<usize, PatchError>(PatchError::DepthExceeded),
        decreases fuel, lazy_size(*self), 0nat,
    {
        if fuel == 0 {
            proof {
                assert(s.ops() =~= s.ops().subrange(0, s.ops().len() as int));
            }
            return Err(PatchError::DepthExceeded);
        }
        let rendered = th.render(self.thunk);
        let mapped = rendered.do_map_chain(&self.maps);
        match create(mapped, s, th, fuel - 1) {
            Ok(p) => {
                let (t, h) = p;
                self.vnode = Some(Box::new(t));
                Ok(h)
            }
            Err(e) => Err(e),
        }
    }

    /// Reconciles this deferred subtree against the old one, which owns a
    /// cached rendering.  An unchanged cache key skips the thunk entirely:
    /// the old cache and handle are taken over untouched and the surface is
    /// asked for nothing.  A changed key renders once through the host,
    /// applies the pending transform chain, and patches the fresh rendering
    /// against the old cache — reuse, not recreation, wherever kinds still
    /// match.  Either way the old wrapper is left empty.
    pub fn patch<R: Renderer>(
        &mut self,
        prev: &mut Lazy,
        s: &mut Surface,
        th: &mut R,
        fuel: u64,
    ) -> (r: Result<usize, PatchError>)
        requires
            materialized(VNode::Lazy(*old(prev))),
            bounded(VNode::Lazy(*old(prev)), old(s).nodes@.len() as int),
        ensures
            appended(*old(s), *final(s)),
            final(self).hash == old(self).hash,
            final(self).thunk == old(self).thunk,
            final(self).maps@ == old(self).maps@,
            final(prev).vnode is None,
            r matches Ok(h) ==> ({
                &&& final(self).vnode matches Some(b) && materialized(*b) && bounded(
                    *b,
                    final(s).nodes@.len() as int,
                ) && root_handle(*b) == Some(h)
                &&& h < final(s).nodes@.len()
                &&& (h == root_of(VNode::Lazy(*old(prev))) || h >= old(s).nodes@.len())
            }),
            (old(self).hash == old(prev).hash ==> ({
                &&& *final(s) == *old(s)
                &&& *final(th) == *old(th)
                &&& r is Ok
                &&& final(self).vnode == old(prev).vnode
                &&& (r matches Ok(h) ==> root_handle(VNode::Lazy(*old(prev))) == Some(h))
            })),
            (old(self).hash != old(prev).hash && fuel == 0 ==> r == Err::<usize, PatchError>(
                PatchError::DepthExceeded,
            )),
            kills_within(*old(s), *final(s), VNode::Lazy(*old(prev))),
        decreases fuel, lazy_size(*self), 0nat,
    {
        let old_inner: Box<VNode> = prev.vnode.take().unwrap();
        proof {
            assert(old(prev).vnode == Some(old_inner));
            assert(materialized(*old_inner));
            assert(bounded(*old_inner, old(s).nodes@.len() as int));
            lemma_materialized_root(*old_inner);
            lemma_root_bounded(*old_inner, old(s).nodes@.len() as int);
        }
        if self.hash == prev.hash {
            let hopt = old_inner.node();
            let h = hopt.unwrap();
            self.vnode = Some(old_inner);
            proof {
                assert(s.ops() =~= s.ops().subrange(0, s.ops().len() as int));
            }
            Ok(h)
        } else {
            if fuel == 0 {
                proof {
                    assert(s.ops() =~= s.ops().subrange(0, s.ops().len() as int));
                }
                return Err(PatchError::DepthExceeded);
            }
            let rendered = th.render(self.thunk);
            let mapped = rendered.do_map_chain(&self.maps);
            let r = patch(mapped, *old_inner, s, th, fuel - 1);
            proof {
                assert forall|j: int|
                    0 <= j < old(s).nodes@.len() && old(s).nodes@[j] && !(#[trigger] s.nodes@[j])
                    implies tree_has_handle(VNode::Lazy(*old(prev)), j) by {
                    assert(tree_has_handle(*old_inner, j));
                }
            }
            match r {
                Ok(p) => {
                    let (t, h) = p;
                    self.vnode = Some(Box::new(t));
                    Ok(h)
                }
                Err(e) => Err(e),
            }
        }
    }

    /// The live handle of the cached rendering, if one exists.
    pub fn node(&self) -> (r: Option<usize>)
        ensures
            r == crate::vnode::root_handle(VNode::Lazy(*self)),
        decreases *self,
    {
        match &self.vnode {
            Some(b) => b.node(),
            None => None,
        }
    }
}

/// The host side of deferred rendering: resolves a thunk identity to the
/// subtree that thunk renders.  The application implements this once; the
/// core promises nothing about what a thunk returns and verifies the
/// reconciliation of whatever comes back.
pub trait Renderer {
    fn render(&mut self, thunk: u64) -> VNode;
}

} // verus!

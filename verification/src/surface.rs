//! The rendering surface, seen from the core's side.
//!
//! The reconciler does not talk to a concrete backend; it talks to this
//! surface, which hands out node handles and records every mutation it is
//! asked for, in order, in `log`.  A host replays the log against its real
//! backend.  The log is the complete observable behaviour of a
//! reconciliation pass: a pass that appends nothing to it changed nothing.

use vstd::prelude::*;
use crate::vnode::Namespace;

verus! {

/// One mutation of the rendering surface.  Handles are the `node`, `parent`
/// and `child` fields; child positions are indices into the parent's current
/// child list.
#[derive(Clone, Debug, PartialEq)]
pub enum Mutation {
    CreateText { node: usize, text: String },
    CreateElement { node: usize, ns: Namespace, tag: String },
    CreateFragment { node: usize },
    SetText { node: usize, text: String },
    SetAttribute { node: usize, name: String, value: String },
    RemoveAttribute { node: usize, name: String },
    InsertChild { parent: usize, index: usize, child: usize },
    MoveChild { parent: usize, from: usize, to: usize },
    RemoveChild { parent: usize, index: usize },
    Register { node: usize, event: String, producer: u64, maps: Vec<u64> },
    Unregister { node: usize, event: String },
    Destroy { node: usize },
}

/// The view of one mutation.
#[verifier::ext_equal]
pub enum Op {
    CreateText { node: usize, text: Seq<char> },
    CreateElement { node: usize, ns: Namespace, tag: Seq<char> },
    CreateFragment { node: usize },
    SetText { node: usize, text: Seq<char> },
    SetAttribute { node: usize, name: Seq<char>, value: Seq<char> },
    RemoveAttribute { node: usize, name: Seq<char> },
    InsertChild { parent: usize, index: usize, child: usize },
    MoveChild { parent: usize, from: usize, to: usize },
    RemoveChild { parent: usize, index: usize },
    Register { node: usize, event: Seq<char>, producer: u64, maps: Seq<u64> },
    Unregister { node: usize, event: Seq<char> },
    Destroy { node: usize },
}

impl View for Mutation {
    type V = Op;

    open spec fn view(&self) -> Op {
        match *self {
            Mutation::CreateText { node, text } => Op::CreateText { node, text: text@ },
            Mutation::CreateElement { node, ns, tag } => Op::CreateElement { node, ns, tag: tag@ },
            Mutation::CreateFragment { node } => Op::CreateFragment { node },
            Mutation::SetText { node, text } => Op::SetText { node, text: text@ },
            Mutation::SetAttribute { node, name, value } => Op::SetAttribute {
                node,
                name: name@,
                value: value@,
            },
            Mutation::RemoveAttribute { node, name } => Op::RemoveAttribute { node, name: name@ },
            Mutation::InsertChild { parent, index, child } => Op::InsertChild {
                parent,
                index,
                child,
            },
            Mutation::MoveChild { parent, from, to } => Op::MoveChild { parent, from, to },
            Mutation::RemoveChild { parent, index } => Op::RemoveChild { parent, index },
            Mutation::Register { node, event, producer, maps } => Op::Register {
                node,
                event: event@,
                producer,
                maps: maps@,
            },
            Mutation::Unregister { node, event } => Op::Unregister { node, event: event@ },
            Mutation::Destroy { node } => Op::Destroy { node },
        }
    }
}

/// The views of a mutation sequence, in order.
pub open spec fn op_views(s: Seq<Mutation>) -> Seq<Op> {
    Seq::new(s.len(), |i: int| s[i]@)
}

/// The surface: an arena of handles, each either alive or destroyed, and
/// the ordered log of every mutation asked for so far.
pub struct Surface {
    pub nodes: Vec<bool>,
    pub log: Vec<Mutation>,
}

impl Surface {
    /// The mutations recorded so far, as views.
    pub open spec fn ops(self) -> Seq<Op> {
        op_views(self.log@)
    }

    /// True of every handle the surface has ever handed out.
    pub open spec fn in_range(self, h: usize) -> bool {
        h < self.nodes@.len()
    }

    /// True of a handle that exists and has not been destroyed.
    pub open spec fn alive(self, h: usize) -> bool {
        h < self.nodes@.len() && self.nodes@[h as int]
    }

    /// A surface with no nodes and an empty log.
    pub fn new() -> (s: Surface)
        ensures
            s.nodes@ == Seq::<bool>::empty(),
            s.ops() == Seq::<Op>::empty(),
    {
        let s = Surface { nodes: Vec::new(), log: Vec::new() };
        proof {
            assert(s.ops() =~= Seq::<Op>::empty());
        }
        s
    }

    /// Allocates a text node.
    pub fn create_text(&mut self, text: &String) -> (h: usize)
        ensures
            h == old(self).nodes@.len(),
            final(self).nodes@ == old(self).nodes@.push(true),
            final(self).ops() == old(self).ops().push((Op::CreateText { node: h, text: text@ })),
    {
        let h = self.nodes.len();
        self.nodes.push(true);
        self.log.push(Mutation::CreateText { node: h, text: text.clone() });
        proof {
            assert(self.ops() =~= old(self).ops().push((Op::CreateText { node: h, text: text@ })));
        }
        h
    }

    /// Allocates an element node.
    pub fn create_element(&mut self, ns: Namespace, tag: &String) -> (h: usize)
        ensures
            h == old(self).nodes@.len(),
            final(self).nodes@ == old(self).nodes@.push(true),
            final(self).ops() == old(self).ops().push(
                (Op::CreateElement { node: h, ns: ns, tag: tag@ }),
            ),
    {
        let h = self.nodes.len();
        self.nodes.push(true);
        self.log.push(Mutation::CreateElement { node: h, ns, tag: tag.clone() });
        proof {
            assert(self.ops() =~= old(self).ops().push(
                (Op::CreateElement { node: h, ns: ns, tag: tag@ }),
            ));
        }
        h
    }

    /// Allocates a fragment container.
    pub fn create_fragment(&mut self) -> (h: usize)
        ensures
            h == old(self).nodes@.len(),
            final(self).nodes@ == old(self).nodes@.push(true),
            final(self).ops() == old(self).ops().push((Op::CreateFragment { node: h })),
    {
        let h = self.nodes.len();
        self.nodes.push(true);
        self.log.push(Mutation::CreateFragment { node: h });
        proof {
            assert(self.ops() =~= old(self).ops().push((Op::CreateFragment { node: h })));
        }
        h
    }

    /// Overwrites the content of a text node.
    pub fn set_text(&mut self, h: usize, text: &String)
        ensures
            final(self).nodes@ == old(self).nodes@,
            final(self).ops() == old(self).ops().push((Op::SetText { node: h, text: text@ })),
    {
        self.log.push(Mutation::SetText { node: h, text: text.clone() });
        proof {
            assert(self.ops() =~= old(self).ops().push((Op::SetText { node: h, text: text@ })));
        }
    }

    /// Sets one attribute on an element.
    pub fn set_attribute(&mut self, h: usize, name: &String, value: &String)
        ensures
            final(self).nodes@ == old(self).nodes@,
            final(self).ops() == old(self).ops().push(
                (Op::SetAttribute { node: h, name: name@, value: value@ }),
            ),
    {
        self.log.push(Mutation::SetAttribute { node: h, name: name.clone(), value: value.clone() });
        proof {
            assert(self.ops() =~= old(self).ops().push(
                (Op::SetAttribute { node: h, name: name@, value: value@ }),
            ));
        }
    }

    /// Removes one attribute from an element.
    pub fn remove_attribute(&mut self, h: usize, name: &String)
        ensures
            final(self).nodes@ == old(self).nodes@,
            final(self).ops() == old(self).ops().push((Op::RemoveAttribute { node: h, name: name@ })),
    {
        self.log.push(Mutation::RemoveAttribute { node: h, name: name.clone() });
        proof {
            assert(self.ops() =~= old(self).ops().push(
                (Op::RemoveAttribute { node: h, name: name@ }),
            ));
        }
    }

    /// Places `child` at position `index` of `parent`'s child list.
    pub fn insert_child(&mut self, parent: usize, index: usize, child: usize)
        ensures
            final(self).nodes@ == old(self).nodes@,
            final(self).ops() == old(self).ops().push(
                (Op::InsertChild { parent: parent, index: index, child: child }),
            ),
    {
        self.log.push(Mutation::InsertChild { parent, index, child });
        proof {
            assert(self.ops() =~= old(self).ops().push(
                (Op::InsertChild { parent: parent, index: index, child: child }),
            ));
        }
    }

    /// Relocates the child at position `from` to position `to`: a single
    /// move, not a remove and a reinsert, so the backend can keep transient
    /// state of the moved node.
    pub fn move_child(&mut self, parent: usize, from: usize, to: usize)
        ensures
            final(self).nodes@ == old(self).nodes@,
            final(self).ops() == old(self).ops().push(
                (Op::MoveChild { parent: parent, from: from, to: to }),
            ),
    {
        self.log.push(Mutation::MoveChild { parent, from, to });
        proof {
            assert(self.ops() =~= old(self).ops().push(
                (Op::MoveChild { parent: parent, from: from, to: to }),
            ));
        }
    }

    /// Detaches the child at position `index` of `parent`'s child list.
    pub fn remove_child(&mut self, parent: usize, index: usize)
        ensures
            final(self).nodes@ == old(self).nodes@,
            final(self).ops() == old(self).ops().push(
                (Op::RemoveChild { parent: parent, index: index }),
            ),
    {
        self.log.push(Mutation::RemoveChild { parent, index });
        proof {
            assert(self.ops() =~= old(self).ops().push(
                (Op::RemoveChild { parent: parent, index: index }),
            ));
        }
    }

    /// Registers an event producer on a node.
    pub fn register(&mut self, h: usize, event: &String, producer: u64, maps: &Vec<u64>)
        ensures
            final(self).nodes@ == old(self).nodes@,
            final(self).ops() == old(self).ops().push(
                (Op::Register { node: h, event: event@, producer: producer, maps: maps@ }),
            ),
    {
        let m = Mutation::Register { node: h, event: event.clone(), producer, maps: maps.clone() };
        self.log.push(m);
        proof {
            assert(self.ops() =~= old(self).ops().push(
                (Op::Register { node: h, event: event@, producer: producer, maps: maps@ }),
            ));
        }
    }

    /// Unregisters the event producer listening for `event` on a node.
    pub fn unregister(&mut self, h: usize, event: &String)
        ensures
            final(self).nodes@ == old(self).nodes@,
            final(self).ops() == old(self).ops().push((Op::Unregister { node: h, event: event@ })),
    {
        self.log.push(Mutation::Unregister { node: h, event: event.clone() });
        proof {
            assert(self.ops() =~= old(self).ops().push(
                (Op::Unregister { node: h, event: event@ }),
            ));
        }
    }

    /// Destroys a node: the handle is dead from here on.
    pub fn destroy(&mut self, h: usize)
        requires
            old(self).in_range(h),
        ensures
            final(self).nodes@ == old(self).nodes@.update(h as int, false),
            final(self).ops() == old(self).ops().push((Op::Destroy { node: h })),
    {
        self.nodes[h] = false;
        self.log.push(Mutation::Destroy { node: h });
        proof {
            assert(self.ops() =~= old(self).ops().push((Op::Destroy { node: h })));
        }
    }
}

} // verus!

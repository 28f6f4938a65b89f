use draco::{
    create, destroy, patch, Attribute, Children, Element, Lazy, Listener, Mutation, Namespace,
    PatchError, Renderer, Surface, VNode,
};

fn text(s: &str) -> VNode {
    VNode::Text {
        text: s.to_string(),
        handle: None,
    }
}

fn elem(tag: &str, attrs: Vec<(&str, &str)>, listeners: Vec<(&str, u64)>, children: Children) -> VNode {
    VNode::Elem(Element {
        ns: Namespace::Html,
        tag: tag.to_string(),
        attributes: attrs
            .into_iter()
            .map(|(n, v)| Attribute {
                name: n.to_string(),
                value: v.to_string(),
            })
            .collect(),
        listeners: listeners
            .into_iter()
            .map(|(e, p)| Listener {
                event: e.to_string(),
                producer: p,
                maps: vec![],
            })
            .collect(),
        children,
    handle: None,
    })
}

fn keyed(pairs: Vec<(&str, VNode)>) -> Children {
    Children::Keyed(pairs.into_iter().map(|(k, n)| (k.to_string(), n)).collect())
}

fn keyed_handles(t: &VNode) -> Vec<(String, usize)> {
    match t {
        VNode::Elem(e) => match &e.children {
            Children::Keyed(v) => v
                .iter()
                .map(|(k, n)| (k.clone(), n.node().unwrap()))
                .collect(),
            _ => panic!("expected keyed children"),
        },
        _ => panic!("expected element"),
    }
}

fn child_handles(t: &VNode) -> Vec<usize> {
    match t {
        VNode::Elem(e) => match &e.children {
            Children::NonKeyed(v) => v.iter().map(|n| n.node().unwrap()).collect(),
            _ => panic!("expected non-keyed children"),
        },
        _ => panic!("expected element"),
    }
}

/// A host whose thunks render numbered text nodes, counting every call.
struct Host {
    calls: u64,
}

impl Renderer for Host {
    fn render(&mut self, _thunk: u64) -> VNode {
        self.calls += 1;
        text(&format!("render{}", self.calls))
    }
}

/// A host whose thunks always defer again: rendering never bottoms out.
struct BottomlessHost {
    n: u64,
}

impl Renderer for BottomlessHost {
    fn render(&mut self, thunk: u64) -> VNode {
        self.n += 1;
        VNode::Lazy(Lazy::new(self.n, thunk))
    }
}

fn sample_tree() -> VNode {
    elem(
        "div",
        vec![("class", "main"), ("id", "root")],
        vec![("click", 7)],
        keyed(vec![
            ("a", text("alpha")),
            ("b", elem("span", vec![], vec![], Children::NonKeyed(vec![text("beta")]))),
        ]),
    )
}

#[test]
fn no_op_patch_makes_zero_mutations() {
    let mut s = Surface::new();
    let mut host = Host { calls: 0 };
    let (old_tree, h) = create(sample_tree(), &mut s, &mut host, 8).unwrap();
    let baseline = s.log.len();
    let (new_tree, h2) = patch(sample_tree(), old_tree, &mut s, &mut host, 8).unwrap();
    assert_eq!(h, h2);
    assert_eq!(s.log.len(), baseline, "an identical tree must patch silently");
    assert_eq!(new_tree.node(), Some(h));
}

#[test]
fn lazy_equal_hash_skips_the_thunk() {
    let mut s = Surface::new();
    let mut host = Host { calls: 0 };
    let t1 = VNode::Lazy(Lazy::new(42, 7));
    let (old_tree, h) = create(t1, &mut s, &mut host, 8).unwrap();
    assert_eq!(host.calls, 1);
    let baseline = s.log.len();
    let t2 = VNode::Lazy(Lazy::new(42, 7));
    let (new_tree, h2) = patch(t2, old_tree, &mut s, &mut host, 8).unwrap();
    assert_eq!(host.calls, 1, "an unchanged hash must not invoke the thunk");
    assert_eq!(h, h2, "the old handle is reused untouched");
    assert_eq!(s.log.len(), baseline, "no surface mutation on a cache hit");
    assert_eq!(new_tree.node(), Some(h));
}

#[test]
fn lazy_changed_hash_renders_once_and_patches_in_place() {
    let mut s = Surface::new();
    let mut host = Host { calls: 0 };
    let (old_tree, h) = create(VNode::Lazy(Lazy::new(1, 7)), &mut s, &mut host, 8).unwrap();
    let baseline = s.log.len();
    let (_new_tree, h2) = patch(VNode::Lazy(Lazy::new(2, 7)), old_tree, &mut s, &mut host, 8)
        .unwrap();
    assert_eq!(host.calls, 2, "a changed hash invokes the thunk exactly once");
    assert_eq!(h, h2, "the rendered text is patched in place, not recreated");
    let delta = &s.log[baseline..];
    assert_eq!(
        delta,
        &[Mutation::SetText {
            node: h,
            text: "render2".to_string()
        }]
    );
}

#[test]
fn keyed_reorder_preserves_identity() {
    let mut s = Surface::new();
    let mut host = Host { calls: 0 };
    let old = elem(
        "ul",
        vec![],
        vec![],
        keyed(vec![("a", text("A")), ("b", text("B")), ("c", text("C"))]),
    );
    let (old_tree, _h) = create(old, &mut s, &mut host, 8).unwrap();
    let old_handles = keyed_handles(&old_tree);
    let baseline = s.log.len();
    let new = elem(
        "ul",
        vec![],
        vec![],
        keyed(vec![("c", text("C2")), ("a", text("A2")), ("b", text("B2"))]),
    );
    let (new_tree, _h2) = patch(new, old_tree, &mut s, &mut host, 8).unwrap();
    let new_handles = keyed_handles(&new_tree);
    for (k, h) in &old_handles {
        let kept = new_handles.iter().find(|(k2, _)| k2 == k).unwrap();
        assert_eq!(&kept.1, h, "key {} must keep its rendered node", k);
    }
    let delta = &s.log[baseline..];
    assert!(
        delta.iter().any(|m| matches!(m, Mutation::MoveChild { .. })),
        "a reorder is expressed as moves"
    );
    assert!(
        !delta.iter().any(|m| matches!(
            m,
            Mutation::Destroy { .. } | Mutation::CreateText { .. } | Mutation::CreateElement { .. }
        )),
        "no reordered child is destroyed or recreated"
    );
}

#[test]
fn keyed_absent_key_is_created_not_moved() {
    let mut s = Surface::new();
    let mut host = Host { calls: 0 };
    let old = elem("ul", vec![], vec![], keyed(vec![("a", text("A"))]));
    let (old_tree, _) = create(old, &mut s, &mut host, 8).unwrap();
    let baseline = s.log.len();
    let new = elem(
        "ul",
        vec![],
        vec![],
        keyed(vec![("a", text("A")), ("x", text("X"))]),
    );
    let (new_tree, _) = patch(new, old_tree, &mut s, &mut host, 8).unwrap();
    let delta = &s.log[baseline..];
    assert!(
        !delta.iter().any(|m| matches!(m, Mutation::MoveChild { .. })),
        "a key absent from the old set must not trigger a move"
    );
    let x = keyed_handles(&new_tree)[1].1;
    assert!(delta.iter().any(
        |m| matches!(m, Mutation::CreateText { node, .. } if *node == x)
    ));
    assert!(delta.iter().any(
        |m| matches!(m, Mutation::InsertChild { child, index: 1, .. } if *child == x)
    ));
}

#[test]
fn keyed_deletion_destroys_exactly_the_dropped_key() {
    let mut s = Surface::new();
    let mut host = Host { calls: 0 };
    let old = elem(
        "ul",
        vec![],
        vec![],
        keyed(vec![("a", text("A")), ("b", text("B"))]),
    );
    let (old_tree, _) = create(old, &mut s, &mut host, 8).unwrap();
    let handles = keyed_handles(&old_tree);
    let (ha, hb) = (handles[0].1, handles[1].1);
    let baseline = s.log.len();
    let new = elem("ul", vec![], vec![], keyed(vec![("b", text("B2"))]));
    let (new_tree, _) = patch(new, old_tree, &mut s, &mut host, 8).unwrap();
    let delta = &s.log[baseline..];
    let destroys: Vec<usize> = delta
        .iter()
        .filter_map(|m| match m {
            Mutation::Destroy { node } => Some(*node),
            _ => None,
        })
        .collect();
    assert_eq!(destroys, vec![ha], "exactly the handle for key a is destroyed");
    assert_eq!(keyed_handles(&new_tree)[0].1, hb, "b keeps its handle");
}

#[test]
fn nonkeyed_truncation_destroys_exactly_the_tail() {
    let mut s = Surface::new();
    let mut host = Host { calls: 0 };
    let old = elem(
        "ul",
        vec![],
        vec![],
        Children::NonKeyed(vec![text("0"), text("1"), text("2"), text("3"), text("4")]),
    );
    let (old_tree, parent) = create(old, &mut s, &mut host, 8).unwrap();
    let old_handles = child_handles(&old_tree);
    let baseline = s.log.len();
    let new = elem(
        "ul",
        vec![],
        vec![],
        Children::NonKeyed(vec![text("0"), text("1")]),
    );
    let (_new_tree, _) = patch(new, old_tree, &mut s, &mut host, 8).unwrap();
    let delta = s.log[baseline..].to_vec();
    let mut expected: Vec<Mutation> = Vec::new();
    for h in &old_handles[2..] {
        expected.push(Mutation::RemoveChild { parent, index: 2 });
        expected.push(Mutation::Destroy { node: *h });
    }
    assert_eq!(delta, expected, "the whole delta is detach-and-destroy of the tail");
}

#[test]
fn nonkeyed_growth_creates_exactly_the_tail() {
    let mut s = Surface::new();
    let mut host = Host { calls: 0 };
    let old = elem(
        "ul",
        vec![],
        vec![],
        Children::NonKeyed(vec![text("0"), text("1")]),
    );
    let (old_tree, _) = create(old, &mut s, &mut host, 8).unwrap();
    let old_handles = child_handles(&old_tree);
    let baseline = s.log.len();
    let new = elem(
        "ul",
        vec![],
        vec![],
        Children::NonKeyed(vec![text("0"), text("1"), text("2"), text("3"), text("4")]),
    );
    let (new_tree, _) = patch(new, old_tree, &mut s, &mut host, 8).unwrap();
    let new_handles = child_handles(&new_tree);
    assert_eq!(&new_handles[..2], &old_handles[..], "the kept prefix is reused");
    let delta = &s.log[baseline..];
    let creates = delta
        .iter()
        .filter(|m| matches!(m, Mutation::CreateText { .. }))
        .count();
    assert_eq!(creates, 3, "exactly three trailing children are created");
    assert!(!delta.iter().any(|m| matches!(m, Mutation::Destroy { .. })));
}

#[test]
fn do_map_composes() {
    let make = || {
        elem(
            "button",
            vec![],
            vec![("click", 9)],
            Children::NonKeyed(vec![text("go")]),
        )
    };
    let twice = make().do_map(5).do_map(6);
    let once = make().do_map_chain(&vec![5, 6]);
    let mut host = Host { calls: 0 };
    let mut s1 = Surface::new();
    let mut s2 = Surface::new();
    create(twice, &mut s1, &mut host, 8).unwrap();
    create(once, &mut s2, &mut host, 8).unwrap();
    assert_eq!(s1.log, s2.log, "two passes equal one pass with the chain");
    assert!(s1.log.iter().any(|m| matches!(
        m,
        Mutation::Register { producer: 9, maps, .. } if maps == &vec![5, 6]
    )));
}

#[test]
fn do_map_invalidates_a_lazy_cache_key() {
    let l = Lazy::new(1, 2);
    let h0 = l.hash;
    let mapped = l.do_map(3);
    assert_ne!(mapped.hash, h0, "a transform is mixed into the cache key");
}

#[test]
fn replace_on_kind_mismatch_destroys_fully() {
    let mut s = Surface::new();
    let mut host = Host { calls: 0 };
    let old = elem(
        "div",
        vec![("class", "x")],
        vec![("click", 7)],
        Children::NonKeyed(vec![text("inner")]),
    );
    let (old_tree, h_old) = create(old, &mut s, &mut host, 8).unwrap();
    let inner = child_handles(&old_tree)[0];
    let baseline = s.log.len();
    let (new_tree, h_new) = patch(text("plain"), old_tree, &mut s, &mut host, 8).unwrap();
    assert_ne!(h_new, h_old, "the new node is created fresh");
    assert_eq!(new_tree.node(), Some(h_new));
    let delta = &s.log[baseline..];
    assert!(delta.contains(&Mutation::Unregister {
        node: h_old,
        event: "click".to_string()
    }));
    assert!(delta.contains(&Mutation::Destroy { node: h_old }));
    assert!(delta.contains(&Mutation::Destroy { node: inner }));
    assert!(delta.contains(&Mutation::CreateText {
        node: h_new,
        text: "plain".to_string()
    }));
    assert!(
        !delta.iter().any(|m| matches!(m, Mutation::SetAttribute { .. })),
        "nothing from the old element leaks into the new text"
    );
    let destroy_at = delta
        .iter()
        .position(|m| matches!(m, Mutation::Destroy { node } if *node == h_old))
        .unwrap();
    let create_at = delta
        .iter()
        .position(|m| matches!(m, Mutation::CreateText { .. }))
        .unwrap();
    assert!(destroy_at < create_at, "the old handle dies before the new one is made");
}

#[test]
fn attribute_diff_sets_and_removes_by_name() {
    let mut s = Surface::new();
    let mut host = Host { calls: 0 };
    let old = elem(
        "div",
        vec![("class", "a"), ("id", "x")],
        vec![],
        Children::NonKeyed(vec![]),
    );
    let (old_tree, h) = create(old, &mut s, &mut host, 8).unwrap();
    let baseline = s.log.len();
    let new = elem(
        "div",
        vec![("class", "b"), ("title", "t")],
        vec![],
        Children::NonKeyed(vec![]),
    );
    patch(new, old_tree, &mut s, &mut host, 8).unwrap();
    let delta = s.log[baseline..].to_vec();
    assert_eq!(
        delta,
        vec![
            Mutation::SetAttribute {
                node: h,
                name: "class".to_string(),
                value: "b".to_string()
            },
            Mutation::SetAttribute {
                node: h,
                name: "title".to_string(),
                value: "t".to_string()
            },
            Mutation::RemoveAttribute {
                node: h,
                name: "id".to_string()
            },
        ]
    );
}

#[test]
fn bottomless_deferral_exhausts_the_render_budget() {
    let mut s = Surface::new();
    let mut host = BottomlessHost { n: 100 };
    let r = create(VNode::Lazy(Lazy::new(0, 1)), &mut s, &mut host, 3);
    match r {
        Err(e) => assert_eq!(e, PatchError::DepthExceeded),
        Ok(_) => panic!("a bottomless deferral must exhaust the budget"),
    }
}

#[test]
fn cache_keys_are_deterministic_and_sensitive() {
    assert_eq!(Lazy::new(1, 2).hash, Lazy::new(1, 2).hash);
    assert_ne!(Lazy::new(1, 2).hash, Lazy::new(1, 3).hash);
    assert_ne!(Lazy::new(1, 2).hash, 1, "the key is not the raw input hash");
    assert_eq!(Lazy::new_with(1, 2, 3).hash, Lazy::new_with(1, 2, 3).hash);
    assert_ne!(Lazy::new_with(1, 2, 3).hash, Lazy::new_with(2, 1, 3).hash);
}

#[test]
fn destroy_unregisters_and_kills_every_node() {
    let mut s = Surface::new();
    let mut host = Host { calls: 0 };
    let tree = elem(
        "div",
        vec![],
        vec![("click", 1)],
        Children::NonKeyed(vec![text("a"), text("b")]),
    );
    let (tree, h) = create(tree, &mut s, &mut host, 8).unwrap();
    let kids = child_handles(&tree);
    let baseline = s.log.len();
    destroy(&tree, &mut s);
    let delta = &s.log[baseline..];
    assert!(delta.contains(&Mutation::Unregister {
        node: h,
        event: "click".to_string()
    }));
    for k in [h, kids[0], kids[1]] {
        assert!(delta.contains(&Mutation::Destroy { node: k }));
        assert!(!s.nodes[k]);
    }
}

#[test]
fn node_handle_appears_on_materialization() {
    let t = text("x");
    assert_eq!(t.node(), None);
    let mut s = Surface::new();
    let mut host = Host { calls: 0 };
    let (t, h) = create(t, &mut s, &mut host, 8).unwrap();
    assert_eq!(t.node(), Some(h));
    let l = Lazy::new(1, 2);
    assert_eq!(l.node(), None);
}

#[test]
fn list_fragment_patches_positionally() {
    let mut s = Surface::new();
    let mut host = Host { calls: 0 };
    let old = VNode::List {
        items: vec![text("a"), text("b")],
        handle: None,
    };
    let (old_tree, h) = create(old, &mut s, &mut host, 8).unwrap();
    let baseline = s.log.len();
    let new = VNode::List {
        items: vec![text("a"), text("c")],
        handle: None,
    };
    let (_t, h2) = patch(new, old_tree, &mut s, &mut host, 8).unwrap();
    assert_eq!(h, h2, "the fragment container is reused");
    let delta = &s.log[baseline..];
    assert_eq!(delta.len(), 1);
    assert!(matches!(delta[0], Mutation::SetText { .. }));
}

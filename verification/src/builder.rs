//! The builder: turns a parsed template node into the source text of the
//! element-builder calls that construct it.
//!
//! The exact output is defined by the `sb_*` specification functions —
//! plain concatenation of fixed pieces and template fragments — and each
//! builder function is proved to append exactly that text.

use vstd::prelude::*;
use vstd::string::StrSliceExecFns;
use vstd::string::StringExecFns;
use crate::parser::{arg_views, node_views, Arg, Expression, Node, SpecArg, SpecExpr, SpecNode};

verus! {

/// The number of nodes in a parsed template, the measure by which the
/// builder's recursion terminates.
pub open spec fn tpl_size(n: Node) -> nat
    decreases n,
{
    match n {
        Node::Expression(e) => 1,
        Node::Tag(t) => 1 + tpl_sizes(t.children@),
        Node::List(items) => 1 + tpl_sizes(items@),
    }
}

pub open spec fn tpl_sizes(s: Seq<Node>) -> nat
    decreases s,
{
    if s.len() == 0 {
        0
    } else {
        tpl_size(s[0]) + tpl_sizes(s.drop_first())
    }
}

/// No node of a child list outweighs the whole list.
pub proof fn lemma_tpl_sizes_ge(s: Seq<Node>, i: int)
    requires
        0 <= i < s.len(),
    ensures
        tpl_sizes(s) >= tpl_size(s[i]),
    decreases s,
{
    if i > 0 {
        lemma_tpl_sizes_ge(s.drop_first(), i - 1);
    }
}

/// The text of an expression: a block is spliced as it stands, braces and
/// all; a string literal is re-quoted.
pub open spec fn sb_expr(e: SpecExpr) -> Seq<char> {
    match e {
        SpecExpr::Block(b, h) => b,
        SpecExpr::Str(v) => "\""@ + v + "\""@,
    }
}

/// True of a name with the `on` event prefix.
pub open spec fn on_prefixed(name: Seq<char>) -> bool {
    name.len() >= 2 && name[0] == 'o' && name[1] == 'n'
}

/// The builder line one argument expands to: an event handler registration
/// for an `on`-prefixed name with a block value (with dedicated forms for
/// the value-carrying `input` and `checked` events), a conditional
/// attribute for `disabled`/`checked` with a block value, an empty-string
/// attribute for a bare name, and a plain attribute otherwise.
pub open spec fn sb_arg(a: SpecArg) -> Seq<char> {
    match a.value {
        Some(SpecExpr::Block(b, h)) => if a.name == "oninput"@ {
            "node = node.on_input("@ + b + ");\n"@
        } else if a.name == "onchecked"@ {
            "node = node.on_checked("@ + b + ");\n"@
        } else if on_prefixed(a.name) {
            "node = node.on(\""@ + a.name.skip(2) + "\","@ + b + ");\n"@
        } else if a.name == "disabled"@ || a.name == "checked"@ {
            "if "@ + b + " { node = node.attr(\""@ + a.name + "\",\"\")};\n"@
        } else {
            "node = node.attr(\""@ + a.name + "\","@ + b + ");\n"@
        },
        None => "node = node.attr(\""@ + a.name + "\",\"\");\n"@,
        Some(SpecExpr::Str(v)) => "node = node.attr(\""@ + a.name + "\","@ + sb_expr(
            SpecExpr::Str(v),
        ) + ");\n"@,
    }
}

pub open spec fn sb_args(s: Seq<SpecArg>) -> Seq<char>
    decreases s,
{
    if s.len() == 0 {
        Seq::empty()
    } else {
        sb_arg(s[0]) + sb_args(s.drop_first())
    }
}

/// Appending one argument appends its line.
pub proof fn lemma_sb_args_snoc(s: Seq<SpecArg>, x: SpecArg)
    ensures
        sb_args(s.push(x)) == sb_args(s) + sb_arg(x),
    decreases s,
{
    if s.len() == 0 {
        assert(s.push(x)[0] == x);
        assert(s.push(x).drop_first() =~= Seq::<SpecArg>::empty());
        assert(sb_args(Seq::<SpecArg>::empty()) == Seq::<char>::empty());
        assert(sb_args(s.push(x)) =~= sb_args(s) + sb_arg(x));
    } else {
        lemma_sb_args_snoc(s.drop_first(), x);
        assert(s.push(x)[0] == s[0]);
        assert(s.push(x).drop_first() =~= s.drop_first().push(x));
        assert(sb_args(s.push(x)) =~= sb_args(s) + sb_arg(x));
    }
}

/// The text one child of a tag expands to: a hashed block is appended as a
/// node list, a nested list pushes each of its entries, and anything else
/// is pushed as a single node.
pub open spec fn sb_child(c: SpecNode) -> Seq<char>
    decreases c, 1int,
{
    match c {
        SpecNode::Expression(SpecExpr::Block(code, true)) => ".append("@ + code + ")\n"@,
        SpecNode::List(items) => sb_pushes(items),
        other => ".push("@ + sb_node(other) + ")\n"@,
    }
}

pub open spec fn sb_pushes(s: Seq<SpecNode>) -> Seq<char>
    decreases s, 2int,
{
    if s.len() == 0 {
        Seq::empty()
    } else {
        ".push("@ + sb_node(s[0]) + ")\n"@ + sb_pushes(s.drop_first())
    }
}

pub open spec fn sb_children(s: Seq<SpecNode>) -> Seq<char>
    decreases s, 2int,
{
    if s.len() == 0 {
        Seq::empty()
    } else {
        sb_child(s[0]) + sb_children(s.drop_first())
    }
}

pub open spec fn sb_items(s: Seq<SpecNode>) -> Seq<char>
    decreases s, 2int,
{
    if s.len() == 0 {
        Seq::empty()
    } else {
        sb_node(s[0]) + ", "@ + sb_items(s.drop_first())
    }
}

/// The builder text of a whole node: an expression becomes a node
/// conversion, a tag becomes a block that builds the element, sets its
/// arguments and pushes its children, and a list becomes a vector literal.
pub open spec fn sb_node(n: SpecNode) -> Seq<char>
    decreases n, 0int,
{
    match n {
        SpecNode::Expression(e) => "draco::Node::from("@ + sb_expr(e) + ")"@,
        SpecNode::Tag(t) => "{let mut node = draco::html::"@ + t.name + "();\n"@ + sb_args(t.args)
            + "node"@ + sb_children(t.children) + "}"@,
        SpecNode::List(items) => "vec!["@ + sb_items(items) + "]\n"@,
    }
}

/// Appending one child appends its text.
pub proof fn lemma_sb_children_snoc(s: Seq<SpecNode>, x: SpecNode)
    ensures
        sb_children(s.push(x)) == sb_children(s) + sb_child(x),
    decreases s,
{
    if s.len() == 0 {
        assert(s.push(x)[0] == x);
        assert(s.push(x).drop_first() =~= Seq::<SpecNode>::empty());
        assert(sb_children(Seq::<SpecNode>::empty()) == Seq::<char>::empty());
        assert(sb_children(s.push(x)) =~= sb_children(s) + sb_child(x));
    } else {
        lemma_sb_children_snoc(s.drop_first(), x);
        assert(s.push(x)[0] == s[0]);
        assert(s.push(x).drop_first() =~= s.drop_first().push(x));
        assert(sb_children(s.push(x)) =~= sb_children(s) + sb_child(x));
    }
}

/// Appending one pushed entry appends its text.
pub proof fn lemma_sb_pushes_snoc(s: Seq<SpecNode>, x: SpecNode)
    ensures
        sb_pushes(s.push(x)) == sb_pushes(s) + (".push("@ + sb_node(x) + ")\n"@),
    decreases s,
{
    if s.len() == 0 {
        assert(s.push(x)[0] == x);
        assert(s.push(x).drop_first() =~= Seq::<SpecNode>::empty());
        assert(sb_pushes(Seq::<SpecNode>::empty()) == Seq::<char>::empty());
        assert(sb_pushes(s.push(x)) =~= sb_pushes(s) + (".push("@ + sb_node(x) + ")\n"@));
    } else {
        lemma_sb_pushes_snoc(s.drop_first(), x);
        assert(s.push(x)[0] == s[0]);
        assert(s.push(x).drop_first() =~= s.drop_first().push(x));
        assert(sb_pushes(s.push(x)) =~= sb_pushes(s) + (".push("@ + sb_node(x) + ")\n"@));
    }
}

/// Appending one list item appends its text.
pub proof fn lemma_sb_items_snoc(s: Seq<SpecNode>, x: SpecNode)
    ensures
        sb_items(s.push(x)) == sb_items(s) + (sb_node(x) + ", "@),
    decreases s,
{
    if s.len() == 0 {
        assert(s.push(x)[0] == x);
        assert(s.push(x).drop_first() =~= Seq::<SpecNode>::empty());
        assert(sb_items(Seq::<SpecNode>::empty()) == Seq::<char>::empty());
        assert(sb_items(s.push(x)) =~= sb_items(s) + (sb_node(x) + ", "@));
    } else {
        lemma_sb_items_snoc(s.drop_first(), x);
        assert(s.push(x)[0] == s[0]);
        assert(s.push(x).drop_first() =~= s.drop_first().push(x));
        assert(sb_items(s.push(x)) =~= sb_items(s) + (sb_node(x) + ", "@));
    }
}

/// Appends the text of an expression to the buffer.
pub fn build_expr(buffer: &mut String, expr: Expression)
    ensures
        final(buffer)@ == old(buffer)@ + sb_expr(expr@),
{
    match expr {
        Expression::Block(block, h) => {
            buffer.append(block.as_str());
        }
        Expression::Str(val) => {
            buffer.append("\"");
            buffer.append(val.as_str());
            buffer.append("\"");
            proof {
                assert(buffer@ =~= old(buffer)@ + sb_expr(expr@));
            }
        }
    }
}

/// Appends the builder line of one argument to the buffer.
fn build_arg(buffer: &mut String, arg: Arg)
    ensures
        final(buffer)@ == old(buffer)@ + sb_arg(arg@),
{
    let Arg { name, value } = arg;
    match value {
        Some(Expression::Block(block, h)) => {
            let is_on_input = name == String::from_str("oninput");
            let is_on_checked = name == String::from_str("onchecked");
            if is_on_input {
                buffer.append("node = node.on_input(");
                buffer.append(block.as_str());
                buffer.append(");\n");
            } else if is_on_checked {
                buffer.append("node = node.on_checked(");
                buffer.append(block.as_str());
                buffer.append(");\n");
            } else {
                let n = name.as_str().unicode_len();
                let prefixed = n >= 2 && name.as_str().get_char(0) == 'o' && name.as_str().get_char(
                    1,
                ) == 'n';
                if prefixed {
                    let event = name.as_str().substring_char(2, n);
                    buffer.append("node = node.on(\"");
                    buffer.append(event);
                    buffer.append("\",");
                    buffer.append(block.as_str());
                    buffer.append(");\n");
                    proof {
                        assert(name@.subrange(2, name@.len() as int) =~= name@.skip(2));
                    }
                } else {
                    let conditional = name == String::from_str("disabled") || name
                        == String::from_str("checked");
                    if conditional {
                        buffer.append("if ");
                        buffer.append(block.as_str());
                        buffer.append(" { node = node.attr(\"");
                        buffer.append(name.as_str());
                        buffer.append("\",\"\")};\n");
                    } else {
                        buffer.append("node = node.attr(\"");
                        buffer.append(name.as_str());
                        buffer.append("\",");
                        buffer.append(block.as_str());
                        buffer.append(");\n");
                    }
                }
            }
            proof {
                assert(buffer@ =~= old(buffer)@ + sb_arg(arg@));
            }
        }
        None => {
            buffer.append("node = node.attr(\"");
            buffer.append(name.as_str());
            buffer.append("\",\"\");\n");
            proof {
                assert(buffer@ =~= old(buffer)@ + sb_arg(arg@));
            }
        }
        Some(Expression::Str(val)) => {
            buffer.append("node = node.attr(\"");
            buffer.append(name.as_str());
            buffer.append("\",");
            build_expr(buffer, Expression::Str(val));
            buffer.append(");\n");
            proof {
                assert(buffer@ =~= old(buffer)@ + sb_arg(arg@));
            }
        }
    }
}

/// Appends the builder text of a whole node to the buffer.
#[verifier::loop_isolation(false)]
pub fn build_node(buffer: &mut String, node: Node)
    ensures
        final(buffer)@ == old(buffer)@ + sb_node(node@),
    decreases tpl_size(node), 0nat,
{
    match node {
        Node::Expression(expr) => {
            buffer.append("draco::Node::from(");
            build_expr(buffer, expr);
            buffer.append(")");
            proof {
                assert(buffer@ =~= old(buffer)@ + sb_node(node@));
            }
        }
        Node::Tag(tag) => {
            let ghost base = buffer@;
            buffer.append("{let mut node = draco::html::");
            buffer.append(tag.name.as_str());
            buffer.append("();\n");
            let ghost args0 = tag.args@;
            let mut args = tag.args;
            let ghost mid = buffer@;
            while args.len() > 0
                invariant
                    args@.len() <= args0.len(),
                    args@ == args0.subrange(
                        args0.len() - args@.len(),
                        args0.len() as int,
                    ),
                    buffer@ == mid + sb_args(arg_views(args0.take(args0.len() - args@.len()))),
                decreases args@.len(),
            {
                let ghost k = args0.len() - args@.len();
                let a = args.remove(0);
                proof {
                    assert(args0.subrange(k, args0.len() as int)[0] == args0[k]);
                    assert(args@ =~= args0.subrange(k + 1, args0.len() as int));
                }
                build_arg(buffer, a);
                proof {
                    lemma_sb_args_snoc(arg_views(args0.take(k)), args0[k]@);
                    assert(arg_views(args0.take(k)).push(args0[k]@) =~= arg_views(
                        args0.take(k + 1),
                    ));
                }
            }
            proof {
                assert(args0.take(args0.len() as int) =~= args0);
            }
            buffer.append("node");
            let ghost kids0 = tag.children@;
            let mut kids = tag.children;
            let ghost mid2 = buffer@;
            while kids.len() > 0
                invariant
                    kids@.len() <= kids0.len(),
                    kids@ == kids0.subrange(kids0.len() - kids@.len(), kids0.len() as int),
                    buffer@ == mid2 + sb_children(
                        node_views(kids0.take(kids0.len() - kids@.len())),
                    ),
                    tpl_size(node) == 1 + tpl_sizes(kids0),
                decreases kids@.len(),
            {
                let ghost k = kids0.len() - kids@.len();
                let c = kids.remove(0);
                proof {
                    assert(kids0.subrange(k, kids0.len() as int)[0] == kids0[k]);
                    assert(kids@ =~= kids0.subrange(k + 1, kids0.len() as int));
                    lemma_tpl_sizes_ge(kids0, k);
                }
                build_child(buffer, c);
                proof {
                    crate::parser::lemma_node_views(kids0.take(k));
                    lemma_sb_children_snoc(node_views(kids0.take(k)), kids0[k]@);
                    assert(node_views(kids0.take(k)).push(kids0[k]@) =~= node_views(
                        kids0.take(k + 1),
                    )) by {
                        crate::parser::lemma_node_views(kids0.take(k));
                        crate::parser::lemma_node_views(kids0.take(k + 1));
                    }
                }
            }
            proof {
                assert(kids0.take(kids0.len() as int) =~= kids0);
            }
            buffer.append("}");
            proof {
                assert(buffer@ =~= old(buffer)@ + sb_node(node@));
            }
        }
        Node::List(items) => {
            buffer.append("vec![");
            let ghost items0 = items@;
            let mut rest = items;
            let ghost mid = buffer@;
            while rest.len() > 0
                invariant
                    rest@.len() <= items0.len(),
                    rest@ == items0.subrange(items0.len() - rest@.len(), items0.len() as int),
                    buffer@ == mid + sb_items(node_views(items0.take(items0.len() - rest@.len()))),
                    tpl_size(node) == 1 + tpl_sizes(items0),
                decreases rest@.len(),
            {
                let ghost k = items0.len() - rest@.len();
                let c = rest.remove(0);
                proof {
                    assert(items0.subrange(k, items0.len() as int)[0] == items0[k]);
                    assert(rest@ =~= items0.subrange(k + 1, items0.len() as int));
                    lemma_tpl_sizes_ge(items0, k);
                }
                build_node(buffer, c);
                buffer.append(", ");
                proof {
                    lemma_sb_items_snoc(node_views(items0.take(k)), items0[k]@);
                    assert(node_views(items0.take(k)).push(items0[k]@) =~= node_views(
                        items0.take(k + 1),
                    )) by {
                        crate::parser::lemma_node_views(items0.take(k));
                        crate::parser::lemma_node_views(items0.take(k + 1));
                    }
                }
            }
            proof {
                assert(items0.take(items0.len() as int) =~= items0);
            }
            buffer.append("]\n");
            proof {
                assert(buffer@ =~= old(buffer)@ + sb_node(node@));
            }
        }
    }
}

/// Appends the text one child of a tag expands to.
#[verifier::loop_isolation(false)]
fn build_child(buffer: &mut String, child: Node)
    ensures
        final(buffer)@ == old(buffer)@ + sb_child(child@),
    decreases tpl_size(child), 1nat,
{
    match child {
        Node::Expression(Expression::Block(code, true)) => {
            buffer.append(".append(");
            buffer.append(code.as_str());
            buffer.append(")\n");
            proof {
                assert(buffer@ =~= old(buffer)@ + sb_child(child@));
            }
        }
        Node::List(items) => {
            let ghost items0 = items@;
            let mut rest = items;
            let ghost base = buffer@;
            while rest.len() > 0
                invariant
                    rest@.len() <= items0.len(),
                    rest@ == items0.subrange(items0.len() - rest@.len(), items0.len() as int),
                    buffer@ == base + sb_pushes(
                        node_views(items0.take(items0.len() - rest@.len())),
                    ),
                    tpl_size(child) == 1 + tpl_sizes(items0),
                decreases rest@.len(),
            {
                let ghost k = items0.len() - rest@.len();
                let c = rest.remove(0);
                proof {
                    assert(items0.subrange(k, items0.len() as int)[0] == items0[k]);
                    assert(rest@ =~= items0.subrange(k + 1, items0.len() as int));
                    lemma_tpl_sizes_ge(items0, k);
                }
                buffer.append(".push(");
                build_node(buffer, c);
                buffer.append(")\n");
                proof {
                    lemma_sb_pushes_snoc(node_views(items0.take(k)), items0[k]@);
                    assert(node_views(items0.take(k)).push(items0[k]@) =~= node_views(
                        items0.take(k + 1),
                    )) by {
                        crate::parser::lemma_node_views(items0.take(k));
                        crate::parser::lemma_node_views(items0.take(k + 1));
                    }
                }
            }
            proof {
                assert(items0.take(items0.len() as int) =~= items0);
                assert(buffer@ =~= old(buffer)@ + sb_child(child@));
            }
        }
        other => {
            buffer.append(".push(");
            build_node(buffer, other);
            buffer.append(")\n");
            proof {
                assert(buffer@ =~= old(buffer)@ + sb_child(child@));
            }
        }
    }
}

/// The builder text of a whole parsed template.
pub fn build(doc: Node) -> (r: String)
    ensures
        r@ == sb_node(doc@),
{
    let mut buffer = String::new();
    build_node(&mut buffer, doc);
    proof {
        assert(buffer@ =~= sb_node(doc@));
    }
    buffer
}

} // verus!

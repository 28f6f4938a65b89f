//! The markup template parser.
//!
//! A template is a sequence of nodes: tags with attribute arguments and
//! children, quoted string literals, brace-delimited code blocks (a `#`
//! prefix marks a block that splices a list of nodes), and bare text.  The
//! grammar is defined by the `sp_*` specification functions — a
//! deterministic recursive descent over the character sequence — and the
//! executable parser is proved to return exactly what they describe.

use vstd::prelude::*;
use vstd::string::StrSliceExecFns;

verus! {

/// An attribute value or a child expression: a quoted string literal, or a
/// code block.  A block keeps its braces; the flag records a `#` prefix.
#[derive(PartialEq, Eq, Debug, Clone)]
pub enum Expression {
    Str(String),
    Block(String, bool),
}

/// One attribute argument of a tag: a name, with an optional value.
#[derive(PartialEq, Eq, Debug, Clone)]
pub struct Arg {
    pub name: String,
    pub value: Option<Expression>,
}

/// A parsed tag: its name, its arguments and its children.
#[derive(PartialEq, Eq, Debug)]
pub struct Tag {
    pub name: String,
    pub args: Vec<Arg>,
    pub children: Vec<Node>,
}

/// A parsed template node.
#[derive(PartialEq, Eq, Debug)]
pub enum Node {
    Expression(Expression),
    Tag(Tag),
    List(Vec<Node>),
}

/// The view of an expression.
pub enum SpecExpr {
    Str(Seq<char>),
    Block(Seq<char>, bool),
}

/// The view of an argument.
pub struct SpecArg {
    pub name: Seq<char>,
    pub value: Option<SpecExpr>,
}

/// The view of a tag.
pub struct SpecTag {
    pub name: Seq<char>,
    pub args: Seq<SpecArg>,
    pub children: Seq<SpecNode>,
}

/// The view of a node.
pub enum SpecNode {
    Expression(SpecExpr),
    Tag(SpecTag),
    List(Seq<SpecNode>),
}

impl View for Expression {
    type V = SpecExpr;

    open spec fn view(&self) -> SpecExpr {
        match *self {
            Expression::Str(s) => SpecExpr::Str(s@),
            Expression::Block(s, h) => SpecExpr::Block(s@, h),
        }
    }
}

impl View for Arg {
    type V = SpecArg;

    open spec fn view(&self) -> SpecArg {
        SpecArg {
            name: self.name@,
            value: match self.value {
                Some(e) => Some(e@),
                None => None,
            },
        }
    }
}

pub open spec fn arg_views(s: Seq<Arg>) -> Seq<SpecArg> {
    Seq::new(s.len(), |i: int| s[i]@)
}

pub open spec fn node_view(n: Node) -> SpecNode
    decreases n,
{
    match n {
        Node::Expression(e) => SpecNode::Expression(e@),
        Node::Tag(t) => SpecNode::Tag(
            SpecTag { name: t.name@, args: arg_views(t.args@), children: node_views(t.children@) },
        ),
        Node::List(items) => SpecNode::List(node_views(items@)),
    }
}

pub open spec fn node_views(s: Seq<Node>) -> Seq<SpecNode>
    decreases s,
{
    if s.len() == 0 {
        Seq::empty()
    } else {
        seq![node_view(s[0])] + node_views(s.drop_first())
    }
}

/// `node_views` is the elementwise view.
pub proof fn lemma_node_views(s: Seq<Node>)
    ensures
        node_views(s).len() == s.len(),
        forall|i: int| 0 <= i < s.len() ==> node_views(s)[i] == node_view(s[i]),
    decreases s,
{
    if s.len() > 0 {
        lemma_node_views(s.drop_first());
    }
}

impl View for Node {
    type V = SpecNode;

    open spec fn view(&self) -> SpecNode {
        node_view(*self)
    }
}

impl Node {
    /// The empty node: a list with no entries.
    pub fn empty() -> (r: Node)
        ensures
            r@ == SpecNode::List(Seq::<SpecNode>::empty()),
    {
        let r = Node::List(Vec::new());
        proof {
            assert(node_views(Seq::<Node>::empty()) =~= Seq::<SpecNode>::empty());
        }
        r
    }
}

/// Template whitespace.
pub open spec fn is_space(c: char) -> bool {
    c == ' ' || c == '\t' || c == '\n' || c == '\r'
}

/// A character that may appear in a tag or argument name.
pub open spec fn is_name_char(c: char) -> bool {
    ('a' <= c && c <= 'z') || ('A' <= c && c <= 'Z') || ('0' <= c && c <= '9') || c == '-' || c
        == '_'
}

/// The first position at or after `pos` holding a non-space character.
pub open spec fn sp_skip_ws(s: Seq<char>, pos: int) -> int
    decreases s.len() - pos,
{
    if 0 <= pos < s.len() && is_space(s[pos]) {
        sp_skip_ws(s, pos + 1)
    } else {
        pos
    }
}

/// The end of the name-character run starting at `pos`.
pub open spec fn sp_scan_name(s: Seq<char>, pos: int) -> int
    decreases s.len() - pos,
{
    if 0 <= pos < s.len() && is_name_char(s[pos]) {
        sp_scan_name(s, pos + 1)
    } else {
        pos
    }
}

/// The position of the first `"` at or after `pos`, if any.
pub open spec fn sp_find_quote(s: Seq<char>, pos: int) -> Option<int>
    decreases s.len() - pos,
{
    if pos < 0 || pos >= s.len() {
        None
    } else if s[pos] == '"' {
        Some(pos)
    } else {
        sp_find_quote(s, pos + 1)
    }
}

/// The position one past the brace that closes a block whose scan stands at
/// `pos` with `depth` braces open, if the braces balance.
pub open spec fn sp_block_end(s: Seq<char>, pos: int, depth: int) -> Option<int>
    decreases s.len() - pos,
{
    if pos < 0 || pos >= s.len() {
        None
    } else if s[pos] == '{' {
        sp_block_end(s, pos + 1, depth + 1)
    } else if s[pos] == '}' {
        if depth <= 1 {
            Some(pos + 1)
        } else {
            sp_block_end(s, pos + 1, depth - 1)
        }
    } else {
        sp_block_end(s, pos + 1, depth)
    }
}

/// The length of the run at `pos .. end` once trailing whitespace is
/// dropped: the least end.
pub open spec fn sp_trim_end(s: Seq<char>, pos: int, end: int) -> int
    decreases end - pos,
{
    if end > pos && 0 <= end - 1 < s.len() && is_space(s[end - 1]) {
        sp_trim_end(s, pos, end - 1)
    } else {
        end
    }
}

/// The end of the bare-text run starting at `pos`: text stops at a tag, a
/// string literal or a block.
pub open spec fn sp_scan_text(s: Seq<char>, pos: int) -> int
    decreases s.len() - pos,
{
    if 0 <= pos < s.len() && s[pos] != '<' && s[pos] != '"' && s[pos] != '{' && s[pos] != '#' {
        sp_scan_text(s, pos + 1)
    } else {
        pos
    }
}

/// Parses an expression at `pos`: a quoted string (quotes stripped), a
/// block `{...}` (braces kept), or a hashed block `#{...}` (hash stripped,
/// braces kept).
pub open spec fn sp_expr(s: Seq<char>, pos: int) -> Option<(SpecExpr, int)>
    decreases s.len() - pos,
{
    if pos < 0 || pos >= s.len() {
        None
    } else if s[pos] == '"' {
        match sp_find_quote(s, pos + 1) {
            Some(e) => Some((SpecExpr::Str(s.subrange(pos + 1, e)), e + 1)),
            None => None,
        }
    } else if s[pos] == '#' {
        if pos + 1 < s.len() && s[pos + 1] == '{' {
            match sp_block_end(s, pos + 2, 1) {
                Some(e) => Some((SpecExpr::Block(s.subrange(pos + 1, e), true), e)),
                None => None,
            }
        } else {
            None
        }
    } else if s[pos] == '{' {
        match sp_block_end(s, pos + 1, 1) {
            Some(e) => Some((SpecExpr::Block(s.subrange(pos, e), false), e)),
            None => None,
        }
    } else {
        None
    }
}

/// Parses one argument at `pos`: a name, optionally `=` and an expression.
pub open spec fn sp_arg(s: Seq<char>, pos: int) -> Option<(SpecArg, int)>
    decreases s.len() - pos,
{
    {
        let e = sp_scan_name(s, pos);
        if e == pos {
            None
        } else if e < s.len() && s[e] == '=' {
            match sp_expr(s, e + 1) {
                Some(p) => Some((SpecArg { name: s.subrange(pos, e), value: Some(p.0) }, p.1)),
                None => None,
            }
        } else {
            Some((SpecArg { name: s.subrange(pos, e), value: None }, e))
        }
    }
}

/// Parses a whitespace-separated argument list; stops before the first
/// thing that is not an argument.
pub open spec fn sp_args(s: Seq<char>, pos: int) -> (Seq<SpecArg>, int)
    decreases s.len() - pos,
{
    {
        let q = sp_skip_ws(s, pos);
        if q < pos || q > s.len() {
            (Seq::empty(), pos)
        } else {
            match sp_arg(s, q) {
                Some(p) => {
                    if pos < p.1 <= s.len() {
                        let rest = sp_args(s, p.1);
                        (seq![p.0] + rest.0, rest.1)
                    } else {
                        (Seq::empty(), q)
                    }
                }
                None => (Seq::empty(), q),
            }
        }
    }
}

/// Parses a tag at `pos`: `<name args />`, or `<name args> children
/// </name>` with the closing name required to match.
pub open spec fn sp_tag(s: Seq<char>, pos: int) -> Option<(SpecTag, int)>
    decreases s.len() - pos, 3int,
{
    if !(0 <= pos < s.len() && s[pos] == '<') {
        None
    } else {
        let e = sp_scan_name(s, pos + 1);
        if e == pos + 1 {
            None
        } else {
            let name = s.subrange(pos + 1, e);
            let ap = sp_args(s, e);
            let p3 = sp_skip_ws(s, ap.1);
            if p3 + 1 < s.len() && s[p3] == '/' && s[p3 + 1] == '>' {
                Some((SpecTag { name, args: ap.0, children: Seq::empty() }, p3 + 2))
            } else if p3 < s.len() && s[p3] == '>' {
                if p3 + 1 > pos {
                    let np = sp_nodes(s, p3 + 1);
                    let p4 = np.1;
                    if p4 + 1 < s.len() && s[p4] == '<' && s[p4 + 1] == '/' {
                        let q = sp_skip_ws(s, p4 + 2);
                        let e2 = sp_scan_name(s, q);
                        if e2 > q && s.subrange(q, e2) == name {
                            let p5 = sp_skip_ws(s, e2);
                            if p5 < s.len() && s[p5] == '>' {
                                Some((SpecTag { name, args: ap.0, children: np.0 }, p5 + 1))
                            } else {
                                None
                            }
                        } else {
                            None
                        }
                    } else {
                        None
                    }
                } else {
                    None
                }
            } else {
                None
            }
        }
    }
}

/// Parses one node at `pos` (whitespace already skipped): a tag, a string
/// literal, a block, or a nonempty run of bare text with trailing
/// whitespace trimmed.
pub open spec fn sp_node(s: Seq<char>, pos: int) -> Option<(SpecNode, int)>
    decreases s.len() - pos, 4int,
{
    if pos < 0 || pos >= s.len() {
        None
    } else if s[pos] == '<' {
        match sp_tag(s, pos) {
            Some(p) => Some((SpecNode::Tag(p.0), p.1)),
            None => None,
        }
    } else if s[pos] == '"' || s[pos] == '#' || s[pos] == '{' {
        match sp_expr(s, pos) {
            Some(p) => Some((SpecNode::Expression(p.0), p.1)),
            None => None,
        }
    } else {
        let e = sp_scan_text(s, pos);
        let t = sp_trim_end(s, pos, e);
        if t > pos {
            Some((SpecNode::Expression(SpecExpr::Str(s.subrange(pos, t))), e))
        } else {
            None
        }
    }
}

/// Parses as many whitespace-separated nodes as stand at `pos`; the
/// returned position has trailing whitespace skipped.
pub open spec fn sp_nodes(s: Seq<char>, pos: int) -> (Seq<SpecNode>, int)
    decreases s.len() - pos, 5int,
{
    {
        let q = sp_skip_ws(s, pos);
        if q < pos || q > s.len() {
            (Seq::empty(), pos)
        } else {
            match sp_node(s, q) {
                Some(p) => {
                    if pos < p.1 <= s.len() {
                        let rest = sp_nodes(s, p.1);
                        (seq![p.0] + rest.0, rest.1)
                    } else {
                        (Seq::empty(), q)
                    }
                }
                None => (Seq::empty(), q),
            }
        }
    }
}

/// Parses a whole template: at least one node, and nothing but whitespace
/// after the last.  One node stands alone; several become a list.
pub open spec fn sp_doc(s: Seq<char>) -> Option<SpecNode> {
    {
        let np = sp_nodes(s, 0);
        if np.1 == s.len() && np.0.len() > 0 {
            if np.0.len() == 1 {
                Some(np.0[0])
            } else {
                Some(SpecNode::List(np.0))
            }
        } else {
            None
        }
    }
}

/// A template that does not fit the grammar.
#[derive(Clone, Copy, PartialEq, Eq, Structural, Debug)]
pub struct ParseError;

/// Relies on String::push: appending one character appends exactly that
/// character to the string's character sequence.
#[verifier::external_body]
fn push_char(s: &mut String, c: char)
    ensures
        final(s)@ == old(s)@.push(c),
{
    s.push(c);
}

/// The characters of a borrowed string, in order.
#[verifier::loop_isolation(false)]
fn str_to_chars(input: &str) -> (r: Vec<char>)
    ensures
        r@ == input@,
{
    let n = input.unicode_len();
    let mut v: Vec<char> = Vec::new();
    let mut i: usize = 0;
    while i < n
        invariant
            i <= n,
            n == input@.len(),
            v@ == input@.subrange(0, i as int),
        decreases n - i,
    {
        let c = input.get_char(i);
        v.push(c);
        proof {
            assert(v@ =~= input@.subrange(0, i + 1));
        }
        i += 1;
    }
    proof {
        assert(input@.subrange(0, input@.len() as int) =~= input@);
    }
    v
}

/// The characters at `from .. to`, as an owned string.
#[verifier::loop_isolation(false)]
fn string_range(s: &Vec<char>, from: usize, to: usize) -> (r: String)
    requires
        from <= to <= s@.len(),
    ensures
        r@ == s@.subrange(from as int, to as int),
{
    let mut r = String::new();
    let mut i: usize = from;
    while i < to
        invariant
            from <= i <= to,
            r@ == s@.subrange(from as int, i as int),
        decreases to - i,
    {
        push_char(&mut r, s[i]);
        proof {
            assert(r@ =~= s@.subrange(from as int, i + 1));
        }
        i += 1;
    }
    r
}

fn is_space_at(s: &Vec<char>, p: usize) -> (b: bool)
    requires
        p < s@.len(),
    ensures
        b == is_space(s@[p as int]),
{
    let c = s[p];
    c == ' ' || c == '\t' || c == '\n' || c == '\r'
}

fn is_name_at(s: &Vec<char>, p: usize) -> (b: bool)
    requires
        p < s@.len(),
    ensures
        b == is_name_char(s@[p as int]),
{
    let c = s[p];
    ('a' <= c && c <= 'z') || ('A' <= c && c <= 'Z') || ('0' <= c && c <= '9') || c == '-' || c
        == '_'
}

#[verifier::loop_isolation(false)]
fn skip_ws(s: &Vec<char>, pos: usize) -> (r: usize)
    requires
        pos <= s@.len(),
    ensures
        r as int == sp_skip_ws(s@, pos as int),
        pos <= r <= s@.len(),
{
    let mut p = pos;
    while p < s.len() && is_space_at(s, p)
        invariant
            pos <= p <= s@.len(),
            sp_skip_ws(s@, pos as int) == sp_skip_ws(s@, p as int),
        decreases s@.len() - p,
    {
        p += 1;
    }
    p
}

#[verifier::loop_isolation(false)]
fn scan_name(s: &Vec<char>, pos: usize) -> (r: usize)
    requires
        pos <= s@.len(),
    ensures
        r as int == sp_scan_name(s@, pos as int),
        pos <= r <= s@.len(),
{
    let mut p = pos;
    while p < s.len() && is_name_at(s, p)
        invariant
            pos <= p <= s@.len(),
            sp_scan_name(s@, pos as int) == sp_scan_name(s@, p as int),
        decreases s@.len() - p,
    {
        p += 1;
    }
    p
}

#[verifier::loop_isolation(false)]
fn scan_text(s: &Vec<char>, pos: usize) -> (r: usize)
    requires
        pos <= s@.len(),
    ensures
        r as int == sp_scan_text(s@, pos as int),
        pos <= r <= s@.len(),
{
    let mut p = pos;
    while p < s.len() && s[p] != '<' && s[p] != '"' && s[p] != '{' && s[p] != '#'
        invariant
            pos <= p <= s@.len(),
            sp_scan_text(s@, pos as int) == sp_scan_text(s@, p as int),
        decreases s@.len() - p,
    {
        p += 1;
    }
    p
}

#[verifier::loop_isolation(false)]
fn trim_end(s: &Vec<char>, pos: usize, end: usize) -> (r: usize)
    requires
        pos <= end <= s@.len(),
    ensures
        r as int == sp_trim_end(s@, pos as int, end as int),
        pos <= r <= end,
{
    let mut e = end;
    while e > pos && is_space_at(s, e - 1)
        invariant
            pos <= e <= end,
            sp_trim_end(s@, pos as int, end as int) == sp_trim_end(s@, pos as int, e as int),
        decreases e,
    {
        e -= 1;
    }
    e
}

#[verifier::loop_isolation(false)]
fn find_quote(s: &Vec<char>, pos: usize) -> (r: Option<usize>)
    requires
        pos <= s@.len(),
    ensures
        (r is None) == (sp_find_quote(s@, pos as int) is None),
        r matches Some(e) ==> sp_find_quote(s@, pos as int) == Some(e as int) && pos <= e
            < s@.len(),
{
    let mut p = pos;
    while p < s.len() && s[p] != '"'
        invariant
            pos <= p <= s@.len(),
            sp_find_quote(s@, pos as int) == sp_find_quote(s@, p as int),
        decreases s@.len() - p,
    {
        p += 1;
    }
    if p < s.len() {
        Some(p)
    } else {
        None
    }
}

#[verifier::loop_isolation(false)]
fn block_end(s: &Vec<char>, pos: usize) -> (r: Option<usize>)
    requires
        pos <= s@.len(),
    ensures
        (r is None) == (sp_block_end(s@, pos as int, 1) is None),
        r matches Some(e) ==> sp_block_end(s@, pos as int, 1) == Some(e as int) && pos < e
            <= s@.len(),
{
    let mut p = pos;
    let mut d: u128 = 1;
    while p < s.len()
        invariant
            pos <= p <= s@.len(),
            1 <= d <= 1 + p - pos,
            sp_block_end(s@, pos as int, 1) == sp_block_end(s@, p as int, d as int),
        decreases s@.len() - p,
    {
        let c = s[p];
        if c == '{' {
            d += 1;
            p += 1;
        } else if c == '}' {
            if d == 1 {
                return Some(p + 1);
            }
            d -= 1;
            p += 1;
        } else {
            p += 1;
        }
    }
    None
}

fn parse_expr(s: &Vec<char>, pos: usize) -> (r: Option<(Expression, usize)>)
    requires
        pos <= s@.len(),
    ensures
        (r is None) == (sp_expr(s@, pos as int) is None),
        r matches Some(p) ==> (sp_expr(s@, pos as int) matches Some(q) && p.0@ == q.0 && p.1 as int
            == q.1 && pos < p.1 <= s@.len()),
{
    if pos >= s.len() {
        return None;
    }
    let c = s[pos];
    if c == '"' {
        match find_quote(s, pos + 1) {
            Some(e) => {
                let content = string_range(s, pos + 1, e);
                Some((Expression::Str(content), e + 1))
            }
            None => None,
        }
    } else if c == '#' {
        if pos + 1 < s.len() && s[pos + 1] == '{' {
            match block_end(s, pos + 2) {
                Some(e) => Some((Expression::Block(string_range(s, pos + 1, e), true), e)),
                None => None,
            }
        } else {
            None
        }
    } else if c == '{' {
        match block_end(s, pos + 1) {
            Some(e) => Some((Expression::Block(string_range(s, pos, e), false), e)),
            None => None,
        }
    } else {
        None
    }
}

fn parse_arg(s: &Vec<char>, pos: usize) -> (r: Option<(Arg, usize)>)
    requires
        pos <= s@.len(),
    ensures
        (r is None) == (sp_arg(s@, pos as int) is None),
        r matches Some(p) ==> (sp_arg(s@, pos as int) matches Some(q) && p.0@ == q.0 && p.1 as int
            == q.1 && pos < p.1 <= s@.len()),
{
    let e = scan_name(s, pos);
    if e == pos {
        return None;
    }
    let name = string_range(s, pos, e);
    if e < s.len() && s[e] == '=' {
        match parse_expr(s, e + 1) {
            Some(p) => {
                let (v, p2) = p;
                Some((Arg { name, value: Some(v) }, p2))
            }
            None => None,
        }
    } else {
        Some((Arg { name, value: None }, e))
    }
}

#[verifier::loop_isolation(false)]
fn parse_args(s: &Vec<char>, pos: usize) -> (r: (Vec<Arg>, usize))
    requires
        pos <= s@.len(),
    ensures
        ({
            let q = sp_args(s@, pos as int);
            arg_views(r.0@) == q.0 && r.1 as int == q.1 && pos <= r.1 <= s@.len()
        }),
    decreases s@.len() - pos,
{
    let q = skip_ws(s, pos);
    match parse_arg(s, q) {
        Some(pr) => {
            let (a, p1) = pr;
            if p1 > pos {
                let (mut rest, p2) = parse_args(s, p1);
                let ghost rest0 = rest@;
                rest.insert(0, a);
                proof {
                    assert(arg_views(rest@) =~= seq![a@] + arg_views(rest0));
                }
                (rest, p2)
            } else {
                proof {
                    assert(arg_views(Seq::<Arg>::empty()) =~= Seq::<SpecArg>::empty());
                }
                (Vec::new(), q)
            }
        }
        None => {
            proof {
                assert(arg_views(Seq::<Arg>::empty()) =~= Seq::<SpecArg>::empty());
            }
            (Vec::new(), q)
        }
    }
}

fn parse_tag(s: &Vec<char>, pos: usize) -> (r: Option<(Tag, usize)>)
    requires
        pos <= s@.len(),
    ensures
        (r is None) == (sp_tag(s@, pos as int) is None),
        r matches Some(p) ==> (sp_tag(s@, pos as int) matches Some(q) && p.0.name@ == q.0.name
            && arg_views(p.0.args@) == q.0.args && node_views(p.0.children@) == q.0.children
            && p.1 as int == q.1 && pos < p.1 <= s@.len()),
    decreases s@.len() - pos, 3int,
{
    if !(pos < s.len() && s[pos] == '<') {
        return None;
    }
    let e = scan_name(s, pos + 1);
    if e == pos + 1 {
        return None;
    }
    let name = string_range(s, pos + 1, e);
    let (args, p2) = parse_args(s, e);
    let p3 = skip_ws(s, p2);
    if p3 < s.len() && s[p3] == '/' && p3 + 1 < s.len() && s[p3 + 1] == '>' {
        proof {
            assert(node_views(Seq::<Node>::empty()) =~= Seq::<SpecNode>::empty());
        }
        Some((Tag { name, args, children: Vec::new() }, p3 + 2))
    } else if p3 < s.len() && s[p3] == '>' {
        let (children, p4) = parse_nodes(s, p3 + 1);
        if p4 < s.len() && s[p4] == '<' && p4 + 1 < s.len() && s[p4 + 1] == '/' {
            let q2 = skip_ws(s, p4 + 2);
            let e2 = scan_name(s, q2);
            if e2 > q2 {
                let close = string_range(s, q2, e2);
                if close == name {
                    let p5 = skip_ws(s, e2);
                    if p5 < s.len() && s[p5] == '>' {
                        return Some((Tag { name, args, children }, p5 + 1));
                    }
                }
            }
            None
        } else {
            None
        }
    } else {
        None
    }
}

fn parse_node(s: &Vec<char>, pos: usize) -> (r: Option<(Node, usize)>)
    requires
        pos <= s@.len(),
    ensures
        (r is None) == (sp_node(s@, pos as int) is None),
        r matches Some(p) ==> (sp_node(s@, pos as int) matches Some(q) && p.0@ == q.0 && p.1 as int
            == q.1 && pos < p.1 <= s@.len()),
    decreases s@.len() - pos, 4int,
{
    if pos >= s.len() {
        return None;
    }
    let c = s[pos];
    if c == '<' {
        match parse_tag(s, pos) {
            Some(p) => {
                let (t, p1) = p;
                Some((Node::Tag(t), p1))
            }
            None => None,
        }
    } else if c == '"' || c == '#' || c == '{' {
        match parse_expr(s, pos) {
            Some(p) => {
                let (x, p1) = p;
                Some((Node::Expression(x), p1))
            }
            None => None,
        }
    } else {
        let e = scan_text(s, pos);
        let t = trim_end(s, pos, e);
        if t > pos {
            Some((Node::Expression(Expression::Str(string_range(s, pos, t))), e))
        } else {
            None
        }
    }
}

#[verifier::loop_isolation(false)]
fn parse_nodes(s: &Vec<char>, pos: usize) -> (r: (Vec<Node>, usize))
    requires
        pos <= s@.len(),
    ensures
        ({
            let q = sp_nodes(s@, pos as int);
            node_views(r.0@) == q.0 && r.1 as int == q.1 && pos <= r.1 <= s@.len()
        }),
    decreases s@.len() - pos, 5int,
{
    let q = skip_ws(s, pos);
    match parse_node(s, q) {
        Some(pr) => {
            let (n, p1) = pr;
            if p1 > pos {
                let (mut rest, p2) = parse_nodes(s, p1);
                let ghost rest0 = rest@;
                rest.insert(0, n);
                proof {
                    assert(node_views(rest@) =~= seq![node_view(n)] + node_views(rest0)) by {
                        lemma_node_views(rest@);
                        lemma_node_views(rest0);
                        assert(rest@.drop_first() =~= rest0);
                    }
                }
                (rest, p2)
            } else {
                proof {
                    assert(node_views(Seq::<Node>::empty()) =~= Seq::<SpecNode>::empty());
                }
                (Vec::new(), q)
            }
        }
        None => {
            proof {
                assert(node_views(Seq::<Node>::empty()) =~= Seq::<SpecNode>::empty());
            }
            (Vec::new(), q)
        }
    }
}

/// Parses a whole template into its node, by the grammar `sp_doc` states:
/// at least one node must be present and nothing but whitespace may follow
/// the last one.  A single node is returned bare; several come back as a
/// list.
pub fn parse_doc(input: &str) -> (r: Result<Node, ParseError>)
    ensures
        (r is Err) == (sp_doc(input@) is None),
        r matches Ok(n) ==> (sp_doc(input@) matches Some(m) && n@ == m),
{
    let chars = str_to_chars(input);
    let (nodes, p) = parse_nodes(&chars, 0);
    proof {
        lemma_node_views(nodes@);
    }
    if p == chars.len() && nodes.len() > 0 {
        if nodes.len() == 1 {
            let mut nodes = nodes;
            let n = nodes.remove(0);
            Ok(n)
        } else {
            Ok(Node::List(nodes))
        }
    } else {
        Err(ParseError)
    }
}

/// Parses a whole string as an argument list; `None` unless the grammar
/// consumes every character.
pub fn parse_args_opt(input: &str) -> (r: Option<Vec<Arg>>)
    ensures
        ({
            let q = sp_args(input@, 0);
            if q.1 == input@.len() {
                r matches Some(v) && arg_views(v@) == q.0
            } else {
                r is None
            }
        }),
{
    let chars = str_to_chars(input);
    let (args, p) = parse_args(&chars, 0);
    if p == chars.len() {
        Some(args)
    } else {
        None
    }
}

/// Parses a whole string as a node list; `None` unless the grammar
/// consumes every character.
pub fn parse_nodes_opt(input: &str) -> (r: Option<Vec<Node>>)
    ensures
        ({
            let q = sp_nodes(input@, 0);
            if q.1 == input@.len() {
                r matches Some(v) && node_views(v@) == q.0
            } else {
                r is None
            }
        }),
{
    let chars = str_to_chars(input);
    let (nodes, p) = parse_nodes(&chars, 0);
    if p == chars.len() {
        Some(nodes)
    } else {
        None
    }
}

} // verus!

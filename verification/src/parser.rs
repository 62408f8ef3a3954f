//! Syntax trees of SQL text: the flat preorder records that the tree-sitter
//! grammar produces, the tree that those records describe, and its model.
use vstd::prelude::*;
use crate::text::{
    boundary_index, boundary_index_of, chars_of, push_str, slice_chars, str_eq, string_of, utf8_len,
    utf8_len_chars,
};

verus! {

/// One node of a tree-sitter parse, as read in preorder: its kind, the text it
/// spans, where it starts and ends, and how many children follow it.
#[derive(Debug)]
pub struct SyntaxNode {
    pub kind: String,
    pub text: String,
    pub text_ok: bool,
    pub start_byte: usize,
    pub end_byte: usize,
    pub start_row: usize,
    pub start_column: usize,
    pub end_row: usize,
    pub is_error: bool,
    pub is_missing: bool,
    pub child_count: usize,
}

/// The mathematical value of a [`SyntaxNode`].
pub struct SyntaxRecord {
    pub kind: Seq<char>,
    pub text: Seq<char>,
    pub text_ok: bool,
    pub start_byte: usize,
    pub end_byte: usize,
    pub start_row: usize,
    pub start_column: usize,
    pub end_row: usize,
    pub is_error: bool,
    pub is_missing: bool,
    pub child_count: usize,
}

impl View for SyntaxNode {
    type V = SyntaxRecord;

    open spec fn view(&self) -> SyntaxRecord {
        SyntaxRecord {
            kind: self.kind@,
            text: self.text@,
            text_ok: self.text_ok,
            start_byte: self.start_byte,
            end_byte: self.end_byte,
            start_row: self.start_row,
            start_column: self.start_column,
            end_row: self.end_row,
            is_error: self.is_error,
            is_missing: self.is_missing,
            child_count: self.child_count,
        }
    }
}

/// The values of a sequence of records.
pub open spec fn records(nodes: Seq<SyntaxNode>) -> Seq<SyntaxRecord> {
    nodes.map_values(|n: SyntaxNode| n@)
}

/// A node of a parsed SQL document together with all of its children.
#[derive(Debug)]
pub struct SqlNode {
    pub kind: String,
    pub text: String,
    pub text_ok: bool,
    pub start_byte: usize,
    pub end_byte: usize,
    pub start_row: usize,
    pub start_column: usize,
    pub end_row: usize,
    pub is_error: bool,
    pub is_missing: bool,
    pub children: Vec<SqlNode>,
}

/// The mathematical value of a [`SqlNode`].
pub struct SqlTree {
    pub kind: Seq<char>,
    pub text: Seq<char>,
    pub text_ok: bool,
    pub start_byte: usize,
    pub end_byte: usize,
    pub start_row: usize,
    pub start_column: usize,
    pub end_row: usize,
    pub is_error: bool,
    pub is_missing: bool,
    pub children: Seq<SqlTree>,
}

pub open spec fn empty_tree() -> SqlTree {
    SqlTree {
        kind: seq![],
        text: seq![],
        text_ok: true,
        start_byte: 0,
        end_byte: 0,
        start_row: 0,
        start_column: 0,
        end_row: 0,
        is_error: false,
        is_missing: false,
        children: seq![],
    }
}

impl View for SqlNode {
    type V = SqlTree;

    open spec fn view(&self) -> SqlTree
        decreases self,
    {
        SqlTree {
            kind: self.kind@,
            text: self.text@,
            text_ok: self.text_ok,
            start_byte: self.start_byte,
            end_byte: self.end_byte,
            start_row: self.start_row,
            start_column: self.start_column,
            end_row: self.end_row,
            is_error: self.is_error,
            is_missing: self.is_missing,
            children: Seq::new(
                self.children@.len(),
                |i: int|
                    if 0 <= i < self.children@.len() {
                        self.children@[i].view()
                    } else {
                        empty_tree()
                    },
            ),
        }
    }
}

/// The children of a node's value are the values of its children.
pub proof fn lemma_view_children(n: &SqlNode)
    ensures
        n@.children.len() == n.children@.len(),
        forall|i: int| 0 <= i < n.children@.len() ==> #[trigger] n@.children[i] == n.children@[i]@,
{
    reveal_with_fuel(<SqlNode as View>::view, 2);
}

/// The preorder records that the SQL grammar gives for `source`; none when
/// the grammar could not be loaded or gave no tree.
pub uninterp spec fn parsed_syntax(source: Seq<char>) -> Option<Seq<SyntaxRecord>>;

/// Runs the tree-sitter parser with the `tree_sitter_sequel` grammar on
/// `source` and reads every node of the tree in preorder
/// (`TreeCursor::goto_descendant`). The contract only names the result: the
/// records are whatever tree-sitter produces for this text. A node whose bytes
/// are not valid UTF-8 (`Node::utf8_text` fails) gets an empty text and
/// `text_ok` false. When the grammar cannot be loaded or the parser gives no
/// tree, the result is `None`.
#[verifier::external_body]
fn tree_sitter_parse(source: &str) -> (nodes: Option<Vec<SyntaxNode>>)
    ensures
        opt_records(nodes) == parsed_syntax(source@),
{
    let mut parser = tree_sitter::Parser::new();
    parser.set_language(&tree_sitter_sequel::LANGUAGE.into()).ok()?;
    let tree = parser.parse(source, None)?;
    let mut cursor = tree.walk();
    Some((0..tree.root_node().descendant_count()).map(|i| {
        cursor.goto_descendant(i);
        let n = cursor.node();
        let start = n.start_position();
        let text = n.utf8_text(source.as_bytes());
        SyntaxNode::new(n.kind(), text.unwrap_or(""), text.is_ok(), n.start_byte(), n.end_byte(), start.row, start.column, n.end_position().row, n.is_error(), n.is_missing(), n.child_count())
    }).collect())
}

/// The values of an optional sequence of records.
pub open spec fn opt_records(nodes: Option<Vec<SyntaxNode>>) -> Option<Seq<SyntaxRecord>> {
    match nodes {
        Some(v) => Some(records(v@)),
        None => None,
    }
}

impl SyntaxNode {
    /// A record with the given fields.
    pub fn new(
        kind: &str,
        text: &str,
        text_ok: bool,
        start_byte: usize,
        end_byte: usize,
        start_row: usize,
        start_column: usize,
        end_row: usize,
        is_error: bool,
        is_missing: bool,
        child_count: u32,
    ) -> (r: SyntaxNode)
        ensures
            r.kind@ == kind@,
            r.text@ == text@,
            r.text_ok == text_ok,
            r.start_byte == start_byte,
            r.end_byte == end_byte,
            r.start_row == start_row,
            r.start_column == start_column,
            r.end_row == end_row,
            r.is_error == is_error,
            r.is_missing == is_missing,
            r.child_count == child_count,
    {
        SyntaxNode {
            kind: kind.to_owned(),
            text: text.to_owned(),
            text_ok,
            start_byte,
            end_byte,
            start_row,
            start_column,
            end_row,
            is_error,
            is_missing,
            child_count: child_count as usize,
        }
    }
}

/// The tree whose root is the record at `pos`, with the position just past its
/// last descendant.
pub open spec fn tree_at(nodes: Seq<SyntaxRecord>, pos: int) -> Option<(SqlTree, int)>
    decreases nodes.len() - pos, 0int,
{
    if 0 <= pos < nodes.len() {
        let r = nodes[pos];
        match children_at(nodes, pos + 1, r.child_count as int) {
            Some((kids, next)) => Some((
                SqlTree {
                    kind: r.kind,
                    text: r.text,
                    text_ok: r.text_ok,
                    start_byte: r.start_byte,
                    end_byte: r.end_byte,
                    start_row: r.start_row,
                    start_column: r.start_column,
                    end_row: r.end_row,
                    is_error: r.is_error,
                    is_missing: r.is_missing,
                    children: kids,
                },
                next,
            )),
            None => None,
        }
    } else {
        None
    }
}

/// `count` sibling trees read one after another from `pos`.
pub open spec fn children_at(nodes: Seq<SyntaxRecord>, pos: int, count: int) -> Option<
    (Seq<SqlTree>, int),
>
    decreases nodes.len() - pos, count,
{
    if count <= 0 {
        Some((seq![], pos))
    } else if 0 <= pos < nodes.len() {
        match tree_at(nodes, pos) {
            Some((t, next)) => if pos < next <= nodes.len() {
                match children_at(nodes, next, count - 1) {
                    Some((rest, end)) => Some((seq![t] + rest, end)),
                    None => None,
                }
            } else {
                None
            },
            None => None,
        }
    } else {
        None
    }
}

/// The tree that a preorder record sequence describes, if it describes one.
pub open spec fn tree_of(nodes: Seq<SyntaxRecord>) -> Option<SqlTree> {
    match tree_at(nodes, 0) {
        Some((t, _)) => Some(t),
        None => None,
    }
}

/// The syntax tree of `source`.
pub open spec fn syntax_tree(source: Seq<char>) -> Option<SqlTree> {
    match parsed_syntax(source) {
        Some(nodes) => tree_of(nodes),
        None => None,
    }
}

fn copy_string(s: &String) -> (r: String)
    ensures
        r@ == s@,
{
    s.clone()
}

fn build_at(nodes: &Vec<SyntaxNode>, pos: usize) -> (res: Option<(SqlNode, usize)>)
    ensures
        match tree_at(records(nodes@), pos as int) {
            Some((t, next)) => res matches Some((n, e)) && n@ == t && e == next,
            None => res is None,
        },
    decreases nodes@.len() - pos, 0int,
{
    if pos >= nodes.len() {
        return None;
    }
    let r = &nodes[pos];
    let count = r.child_count;
    let mut kids: Vec<SqlNode> = Vec::new();
    let mut at = pos + 1;
    let mut k: usize = 0;
    proof {
        reveal_with_fuel(children_at, 1);
    }
    while k < count
        invariant
            pos < nodes@.len(),
            r == nodes@[pos as int],
            records(nodes@)[pos as int] == r@,
            count == r.child_count,
            k <= count,
            pos < at <= nodes@.len(),
            children_at(records(nodes@), pos + 1, count as int) == match children_at(
                records(nodes@),
                at as int,
                count - k,
            ) {
                Some((rest, end)) => Some((kids@.map_values(|c: SqlNode| c@) + rest, end)),
                None => None,
            },
        decreases count - k,
    {
        if at >= nodes.len() {
            return None;
        }
        let step = build_at(nodes, at);
        match step {
            Some((child, next)) => {
                if next <= at || next > nodes.len() {
                    return None;
                }
                let ghost before = kids@.map_values(|c: SqlNode| c@);
                kids.push(child);
                assert(kids@.map_values(|c: SqlNode| c@) =~= before.push(child@));
                proof {
                    let t = tree_at(records(nodes@), at as int).unwrap().0;
                    match children_at(records(nodes@), next as int, count - k - 1) {
                        Some((rest, end)) => {
                            assert(before + (seq![t] + rest) =~= before.push(t) + rest);
                        },
                        None => {},
                    }
                }
                at = next;
                k = k + 1;
            },
            None => {
                return None;
            },
        }
    }
    let ghost kids_view = kids@.map_values(|c: SqlNode| c@);
    assert(kids_view + seq![] =~= kids_view);
    let ghost kids_seq = kids@;
    let node = SqlNode {
        kind: copy_string(&r.kind),
        text: copy_string(&r.text),
        text_ok: r.text_ok,
        start_byte: r.start_byte,
        end_byte: r.end_byte,
        start_row: r.start_row,
        start_column: r.start_column,
        end_row: r.end_row,
        is_error: r.is_error,
        is_missing: r.is_missing,
        children: kids,
    };
    proof {
        lemma_view_children(&node);
        assert(node.children@ == kids_seq);
        assert(node@.children =~= kids_view);
    }
    Some((node, at))
}

/// Rebuilds the tree that a preorder record sequence describes.
pub fn tree_from_records(nodes: &Vec<SyntaxNode>) -> (res: Option<SqlNode>)
    ensures
        match tree_of(records(nodes@)) {
            Some(t) => res matches Some(n) && n@ == t,
            None => res is None,
        },
{
    match build_at(nodes, 0) {
        Some((n, _)) => Some(n),
        None => None,
    }
}

/// Parses `source` with the SQL grammar and returns its syntax tree.
pub fn parse_sql(source: &str) -> (res: Option<SqlNode>)
    ensures
        match syntax_tree(source@) {
            Some(t) => res matches Some(n) && n@ == t,
            None => res is None,
        },
{
    match tree_sitter_parse(source) {
        Some(nodes) => tree_from_records(&nodes),
        None => None,
    }
}

/// Whether `node` has kind `kind`.
pub fn kind_is(node: &SqlNode, kind: &str) -> (r: bool)
    ensures
        r == (node@.kind == kind@),
{
    str_eq(node.kind.as_str(), kind)
}

/// Whether some node of `nodes` has kind `kind`.
pub open spec fn has_kind(nodes: Seq<SqlTree>, kind: Seq<char>) -> bool {
    exists|i: int| 0 <= i < nodes.len() && #[trigger] nodes[i].kind == kind
}

/// The first node of `nodes` with kind `kind`.
pub open spec fn first_of_kind(nodes: Seq<SqlTree>, kind: Seq<char>) -> Option<SqlTree>
    decreases nodes.len(),
{
    if nodes.len() == 0 {
        None
    } else if nodes[0].kind == kind {
        Some(nodes[0])
    } else {
        first_of_kind(nodes.drop_first(), kind)
    }
}

/// The first child of `node` with kind `kind`.
pub fn first_child_of_kind<'a>(node: &'a SqlNode, kind: &str) -> (r: Option<&'a SqlNode>)
    ensures
        match first_of_kind(node@.children, kind@) {
            Some(t) => r matches Some(n) && n@ == t,
            None => r is None,
        },
{
    proof {
        lemma_view_children(node);
    }
    let mut i: usize = 0;
    assert(node@.children.skip(0) =~= node@.children);
    while i < node.children.len()
        invariant
            i <= node.children@.len(),
            node@.children.len() == node.children@.len(),
            forall|j: int| 0 <= j < node.children@.len() ==> #[trigger] node@.children[j] == node.children@[j]@,
            first_of_kind(node@.children, kind@) == first_of_kind(node@.children.skip(i as int), kind@),
        decreases node.children@.len() - i,
    {
        assert(node@.children.skip(i as int)[0] == node@.children[i as int]);
        assert(node@.children.skip(i as int).drop_first() =~= node@.children.skip(i + 1));
        if kind_is(&node.children[i], kind) {
            return Some(&node.children[i]);
        }
        i = i + 1;
    }
    assert(node@.children.skip(i as int).len() == 0);
    None
}

/// Whether some child of `node` has kind `kind`.
pub fn has_child_of_kind(node: &SqlNode, kind: &str) -> (r: bool)
    ensures
        r == has_kind(node@.children, kind@),
{
    proof {
        lemma_view_children(node);
    }
    let mut i: usize = 0;
    while i < node.children.len()
        invariant
            i <= node.children@.len(),
            node@.children.len() == node.children@.len(),
            forall|j: int| 0 <= j < node.children@.len() ==> #[trigger] node@.children[j] == node.children@[j]@,
            forall|j: int| 0 <= j < i ==> #[trigger] node@.children[j].kind != kind@,
        decreases node.children@.len() - i,
    {
        if kind_is(&node.children[i], kind) {
            assert(node@.children[i as int].kind == kind@);
            return true;
        }
        i = i + 1;
    }
    false
}

/// Whether `t` or one of its descendants has kind `kind`.
pub open spec fn tree_has_kind(t: SqlTree, kind: Seq<char>) -> bool
    decreases t, 0int,
{
    t.kind == kind || forest_has_kind(t.children, kind, t.children.len() as int)
}

/// Whether one of the first `n` trees of `ts`, or a descendant of one, has
/// kind `kind`.
pub open spec fn forest_has_kind(ts: Seq<SqlTree>, kind: Seq<char>, n: int) -> bool
    decreases ts, n,
{
    if n <= 0 || n > ts.len() {
        false
    } else {
        forest_has_kind(ts, kind, n - 1) || tree_has_kind(ts[n - 1], kind)
    }
}

/// A kind found among the first `i` trees is found among the first `n >= i`.
proof fn lemma_forest_has_kind_grows(ts: Seq<SqlTree>, kind: Seq<char>, i: int, n: int)
    requires
        0 <= i <= n <= ts.len(),
        forest_has_kind(ts, kind, i),
    ensures
        forest_has_kind(ts, kind, n),
    decreases n - i,
{
    if i < n {
        lemma_forest_has_kind_grows(ts, kind, i, n - 1);
    }
}

/// Whether `node` or one of its descendants has kind `kind`.
pub fn subtree_has_kind(node: &SqlNode, kind: &str) -> (r: bool)
    ensures
        r == tree_has_kind(node@, kind@),
    decreases node@,
{
    proof {
        lemma_view_children(node);
    }
    if kind_is(node, kind) {
        return true;
    }
    let mut i: usize = 0;
    while i < node.children.len()
        invariant
            i <= node.children@.len(),
            node@.kind != kind@,
            node@.children.len() == node.children@.len(),
            forall|j: int| 0 <= j < node.children@.len() ==> #[trigger] node@.children[j] == node.children@[j]@,
            !forest_has_kind(node@.children, kind@, i as int),
        decreases node.children@.len() - i,
    {
        let child = &node.children[i];
        assert(node@.children[i as int] == child@);
        assert(decreases_to!(node@ => node@.children[i as int]));
        if subtree_has_kind(child, kind) {
            assert(forest_has_kind(node@.children, kind@, i + 1));
            proof {
                lemma_forest_has_kind_grows(
                    node@.children,
                    kind@,
                    i + 1,
                    node@.children.len() as int,
                );
            }
            return true;
        }
        i = i + 1;
    }
    false
}

/// The longest node text, in bytes, that a tree dump shows whole.
pub const EXCERPT_BYTES: u128 = 40;

/// What a tree dump shows of a node's text: all of it when it has at most
/// 40 bytes, otherwise its first 40 bytes and `...`; nothing when byte 40
/// falls inside a character, where the text cannot be cut.
pub open spec fn excerpt(text: Seq<char>) -> Option<Seq<char>> {
    if utf8_len(text) > EXCERPT_BYTES {
        match boundary_index(text, EXCERPT_BYTES as int) {
            Some(j) => Some(text.take(j) + "..."@),
            None => None,
        }
    } else {
        Some(text)
    }
}

/// The text that a tree dump shows for a node whose text is `text`.
pub fn display_excerpt(text: &str) -> (r: Option<String>)
    ensures
        match excerpt(text@) {
            Some(e) => r matches Some(s) && s@ == e,
            None => r is None,
        },
{
    let v = chars_of(text);
    if utf8_len_chars(&v) > EXCERPT_BYTES {
        match boundary_index_of(&v, EXCERPT_BYTES) {
            Some(j) => {
                let mut head = slice_chars(&v, 0, j);
                push_str(&mut head, "...");
                assert(v@.subrange(0, j as int) =~= v@.take(j as int));
                Some(string_of(&head))
            },
            None => None,
        }
    } else {
        Some(text.to_owned())
    }
}

} // verus!

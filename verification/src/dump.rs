//! The text dump of a syntax tree: one line per node, in preorder, with its
//! kind, its rows, the start of its text and whether it is an error.
use vstd::prelude::*;
use crate::parser::{display_excerpt, excerpt, lemma_view_children, SqlNode, SqlTree};
use crate::text::{extend_chars, push_str, string_of};
use crate::wire::{decimal, decimal_chars};

verus! {

/// The text that `{:?}` writes for a string: std's `Debug` form of `str`, in
/// double quotes with escapes.
pub uninterp spec fn debug_quoted(s: Seq<char>) -> Seq<char>;

/// Formats `s` with `{:?}` (std's `Debug` for `str`). The contract names the
/// result; the escaping rules are std's and are not stated here.
#[verifier::external_body]
fn debug_quote(s: &str) -> (r: String)
    ensures
        r@ == debug_quoted(s@),
{
    format!("{:?}", s)
}

/// Two spaces for each level of depth.
pub open spec fn indent(depth: nat) -> Seq<char>
    decreases depth,
{
    if depth == 0 {
        seq![]
    } else {
        indent((depth - 1) as nat) + seq![' ', ' ']
    }
}

/// The line of node `t` at depth `depth`, showing `shown` of its text: the
/// indent, the kind, `[first row..last row]` counted from 1, the quoted text,
/// and ` ⚠ ERROR` for an error node.
pub open spec fn dump_line(t: SqlTree, depth: nat, shown: Seq<char>) -> Seq<char> {
    indent(depth) + t.kind + " ["@ + decimal((t.start_row + 1) as nat) + ".."@ + decimal(
        (t.end_row + 1) as nat,
    ) + "] "@ + debug_quoted(shown) + if t.is_error {
        " ⚠ ERROR"@
    } else {
        seq![]
    }
}

/// The text that the dump shows for node `t`: its text, or
/// `<invalid utf8>` when its bytes were not valid UTF-8.
pub open spec fn node_text(t: SqlTree) -> Seq<char> {
    if t.text_ok {
        t.text
    } else {
        "<invalid utf8>"@
    }
}

/// The lines of `t` and its descendants in preorder, children one level
/// deeper; none when the text of some node cannot be cut (see
/// [`excerpt`]).
pub open spec fn dump_tree(t: SqlTree, depth: nat) -> Option<Seq<Seq<char>>>
    decreases t, 0int,
{
    match excerpt(node_text(t)) {
        None => None,
        Some(shown) => match dump_forest(t.children, depth + 1, t.children.len() as int) {
            Some(rest) => Some(seq![dump_line(t, depth, shown)] + rest),
            None => None,
        },
    }
}

/// The lines of the first `n` trees of `ts`, one after another.
pub open spec fn dump_forest(ts: Seq<SqlTree>, depth: nat, n: int) -> Option<Seq<Seq<char>>>
    decreases ts, n,
{
    if n <= 0 || n > ts.len() {
        Some(seq![])
    } else {
        match dump_forest(ts, depth, n - 1) {
            Some(a) => match dump_tree(ts[n - 1], depth) {
                Some(b) => Some(a + b),
                None => None,
            },
            None => None,
        }
    }
}

/// The values of a list of strings.
pub open spec fn string_views(v: Seq<String>) -> Seq<Seq<char>> {
    v.map_values(|s: String| s@)
}

fn dump_into(node: &SqlNode, prefix: &Vec<char>, Ghost(depth): Ghost<nat>, out: &mut Vec<String>) -> (ok: bool)
    requires
        prefix@ == indent(depth),
    ensures
        ok == dump_tree(node@, depth) is Some,
        ok ==> string_views(final(out)@) == string_views(old(out)@) + dump_tree(node@, depth)->0,
    decreases node@,
{
    proof {
        lemma_view_children(node);
    }
    let ghost start = string_views(out@);
    let text: &str = if node.text_ok {
        node.text.as_str()
    } else {
        "<invalid utf8>"
    };
    let shown = match display_excerpt(text) {
        Some(s) => s,
        None => {
            return false;
        },
    };
    let mut line: Vec<char> = Vec::new();
    extend_chars(&mut line, prefix);
    push_str(&mut line, node.kind.as_str());
    push_str(&mut line, " [");
    let first = decimal_chars(node.start_row as u128 + 1);
    extend_chars(&mut line, &first);
    push_str(&mut line, "..");
    let last = decimal_chars(node.end_row as u128 + 1);
    extend_chars(&mut line, &last);
    push_str(&mut line, "] ");
    let quoted = debug_quote(shown.as_str());
    push_str(&mut line, quoted.as_str());
    if node.is_error {
        push_str(&mut line, " ⚠ ERROR");
    }
    assert(line@ =~= dump_line(node@, depth, shown@));
    out.push(string_of(&line));
    assert(string_views(out@) =~= start.push(dump_line(node@, depth, shown@)));
    let mut inner: Vec<char> = Vec::new();
    extend_chars(&mut inner, prefix);
    inner.push(' ');
    inner.push(' ');
    assert(inner@ =~= indent(depth + 1));
    let ghost own = string_views(out@);
    let mut i: usize = 0;
    while i < node.children.len()
        invariant
            i <= node.children@.len(),
            inner@ == indent(depth + 1),
            node@.children.len() == node.children@.len(),
            forall|j: int| 0 <= j < node.children@.len() ==> #[trigger] node@.children[j] == node.children@[j]@,
            own == start.push(dump_line(node@, depth, shown@)),
            dump_forest(node@.children, depth + 1, i as int) is Some,
            string_views(out@) == own + dump_forest(node@.children, depth + 1, i as int)->0,
        decreases node.children@.len() - i,
    {
        let child = &node.children[i];
        assert(node@.children[i as int] == child@);
        assert(decreases_to!(node@ => node@.children[i as int]));
        let ghost before = string_views(out@);
        if !dump_into(child, &inner, Ghost(depth + 1), out) {
            proof {
                lemma_dump_forest_fails(node@.children, depth + 1, i + 1, node@.children.len() as int);
            }
            return false;
        }
        assert(string_views(out@) =~= own + dump_forest(node@.children, depth + 1, i + 1)->0);
        i = i + 1;
    }
    assert(string_views(out@) =~= start + dump_tree(node@, depth)->0);
    true
}

/// A forest whose first `i` trees give no lines gives none with more trees.
proof fn lemma_dump_forest_fails(ts: Seq<SqlTree>, depth: nat, i: int, n: int)
    requires
        0 < i <= n <= ts.len(),
        dump_forest(ts, depth, i) is None,
    ensures
        dump_forest(ts, depth, n) is None,
    decreases n - i,
{
    if i < n {
        lemma_dump_forest_fails(ts, depth, i, n - 1);
    }
}

/// The dump of the tree `root`, one line per node; `None` when the text of a
/// node cannot be cut at byte 40.
pub fn dump_lines(root: &SqlNode) -> (r: Option<Vec<String>>)
    ensures
        match dump_tree(root@, 0) {
            Some(ls) => r matches Some(v) && string_views(v@) == ls,
            None => r is None,
        },
{
    let mut out: Vec<String> = Vec::new();
    let prefix: Vec<char> = Vec::new();
    assert(prefix@ =~= indent(0));
    if dump_into(root, &prefix, Ghost(0), &mut out) {
        assert(string_views(out@) =~= dump_tree(root@, 0)->0);
        Some(out)
    } else {
        None
    }
}

/// Whether `t` or a descendant is an error node or a node that the parser
/// inserted for missing text.
pub open spec fn tree_has_error(t: SqlTree) -> bool
    decreases t, 0int,
{
    t.is_error || t.is_missing || forest_has_error(t.children, t.children.len() as int)
}

/// Whether one of the first `n` trees of `ts` has an error.
pub open spec fn forest_has_error(ts: Seq<SqlTree>, n: int) -> bool
    decreases ts, n,
{
    if n <= 0 || n > ts.len() {
        false
    } else {
        forest_has_error(ts, n - 1) || tree_has_error(ts[n - 1])
    }
}

/// A forest with an error among its first `i` trees has one among its first
/// `n >= i`.
proof fn lemma_forest_error_grows(ts: Seq<SqlTree>, i: int, n: int)
    requires
        0 <= i <= n <= ts.len(),
        forest_has_error(ts, i),
    ensures
        forest_has_error(ts, n),
    decreases n - i,
{
    if i < n {
        lemma_forest_error_grows(ts, i, n - 1);
    }
}

/// Whether the tree `node` holds an error or a missing node.
pub fn has_error(node: &SqlNode) -> (r: bool)
    ensures
        r == tree_has_error(node@),
    decreases node@,
{
    proof {
        lemma_view_children(node);
    }
    if node.is_error || node.is_missing {
        return true;
    }
    let mut i: usize = 0;
    while i < node.children.len()
        invariant
            i <= node.children@.len(),
            !node@.is_error && !node@.is_missing,
            node@.children.len() == node.children@.len(),
            forall|j: int| 0 <= j < node.children@.len() ==> #[trigger] node@.children[j] == node.children@[j]@,
            !forest_has_error(node@.children, i as int),
        decreases node.children@.len() - i,
    {
        let child = &node.children[i];
        assert(node@.children[i as int] == child@);
        assert(decreases_to!(node@ => node@.children[i as int]));
        if has_error(child) {
            proof {
                lemma_forest_error_grows(node@.children, i + 1, node@.children.len() as int);
            }
            return true;
        }
        i = i + 1;
    }
    false
}

} // verus!
